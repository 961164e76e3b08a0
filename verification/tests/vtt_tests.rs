use srt_toolkit::srt::{Cue, Timecode};
use srt_toolkit::vtt;
use srt_toolkit::vtt::parse;

fn cue(start_seconds: u32, end_seconds: u32, text: &str) -> Cue {
    Cue {
        number: 1,
        start: Timecode { hours: 0, minutes: 0, seconds: start_seconds, millis: 0 },
        end: Timecode { hours: 0, minutes: 0, seconds: end_seconds, millis: 0 },
        text: vec![text.to_string()],
        identifier: None,
    }
}

#[test]
fn format_starts_with_the_webvtt_signature() {
    let out = vtt::format(&[cue(1, 4, "hi")]);
    assert!(out.starts_with("WEBVTT\n\n"));
}

#[test]
fn format_uses_dot_separated_timecodes_and_sequential_identifiers() {
    let out = vtt::format(&[cue(1, 4, "first"), cue(5, 7, "second")]);
    assert_eq!(
        out,
        "WEBVTT\n\n1\n00:00:01.000 --> 00:00:04.000\nfirst\n\n2\n00:00:05.000 --> 00:00:07.000\nsecond\n\n"
    );
}

#[test]
fn format_renumbers_regardless_of_input_cue_numbers() {
    let mut cues = vec![cue(1, 4, "first")];
    cues[0].number = 42;
    let out = vtt::format(&cues);
    assert!(out.contains("42") == false);
    assert!(out.contains("\n1\n"));
}

#[test]
fn parse_captures_a_named_cue_identifier() {
    let (cues, errors) = parse(
        "WEBVTT\n\nintro\n00:00:01.000 --> 00:00:04.000\nHello there.\n",
    );
    assert!(errors.is_empty());
    assert_eq!(cues[0].identifier, Some("intro".to_string()));
}

#[test]
fn parse_leaves_identifier_none_when_absent() {
    let (cues, errors) = parse("WEBVTT\n\n00:00:01.000 --> 00:00:04.000\nHello there.\n");
    assert!(errors.is_empty());
    assert_eq!(cues[0].identifier, None);
}

#[test]
fn format_does_not_write_identifiers_into_the_text_output() {
    let mut cue = cue(1, 4, "hi");
    cue.identifier = Some("intro".to_string());
    let out = vtt::format(&[cue]);
    assert!(!out.contains("intro"));
}

#[test]
fn format_round_trips_through_parse() {
    let (cues, errors) = parse("WEBVTT\n\n1\n00:00:01.000 --> 00:00:04.000\nHello there.\n");
    assert!(errors.is_empty());
    let out = vtt::format(&cues);
    let (reparsed, errors) = parse(&out);
    assert!(errors.is_empty());
    assert_eq!(reparsed.len(), 1);
    assert_eq!(reparsed[0].start, cues[0].start);
    assert_eq!(reparsed[0].end, cues[0].end);
    assert_eq!(reparsed[0].text, cues[0].text);
}

// ---- further cases ----

fn tc(h: u32, m: u32, s: u32, ms: u32) -> Timecode {
    Timecode { hours: h, minutes: m, seconds: s, millis: ms }
}

#[test]
fn parse_requires_the_signature() {
    let (cues, errors) = parse("\n\n1\n00:00:01.000 --> 00:00:04.000\nx\n");
    assert!(cues.is_empty());
    assert_eq!(errors.len(), 1);
    assert_eq!(errors[0].line, 3);
    assert_eq!(errors[0].message, "file does not start with a WEBVTT signature");
    let (_, errors) = parse("  \n");
    assert_eq!(errors[0].line, 3);
}

#[test]
fn parse_accepts_a_signature_with_a_title() {
    let (cues, errors) = parse("WEBVTT - my film\n\n00:01.500 --> 00:02.000\nx\n");
    assert!(errors.is_empty());
    assert_eq!(cues[0].start, tc(0, 0, 1, 500));
}

#[test]
fn parse_numbers_cues_in_order_and_skips_note_and_style() {
    let input = "WEBVTT\n\nNOTE a comment\nstill the note\n\nSTYLE\n::cue {}\n\n00:00:01.000 --> 00:00:02.000 align:start line:0%\na\n\nid\n01:00:00.000 --> 01:00:01.000\nb\n";
    let (cues, errors) = parse(input);
    assert!(errors.is_empty());
    assert_eq!(cues.len(), 2);
    assert_eq!(cues[0].number, 1);
    assert_eq!(cues[0].end, tc(0, 0, 2, 0));
    assert_eq!(cues[1].number, 2);
    assert_eq!(cues[1].start, tc(1, 0, 0, 0));
    assert_eq!(cues[1].identifier, Some("id".to_string()));
}

#[test]
fn parse_reports_an_identifier_at_the_end_of_the_file() {
    let (cues, errors) = parse("WEBVTT\n\nlonely");
    assert!(cues.is_empty());
    assert_eq!(errors.len(), 1);
    assert_eq!(errors[0].line, 3);
    assert_eq!(errors[0].message, "cue identifier is not followed by a timing line");
}

#[test]
fn parse_reports_an_identifier_without_a_timing_line() {
    let (cues, errors) = parse("WEBVTT\n\nname\nnot timing\nx\n");
    assert!(cues.is_empty());
    assert_eq!(errors.len(), 1);
    assert_eq!(errors[0].line, 4);
    assert_eq!(errors[0].message, "expected a timing line with '-->', found 'not timing'");
}

#[test]
fn parse_reports_bad_webvtt_timecodes() {
    let (_, errors) = parse("WEBVTT\n\n00:00:01,000 --> 1:2:3:4.000\nx\n");
    assert_eq!(errors.len(), 2);
    assert_eq!(errors[0].line, 3);
    assert_eq!(errors[0].message, "timecode '00:00:01,000' is missing the '.mmm' millisecond part");
    assert_eq!(errors[1].message, "timecode '1:2:3:4.000' must look like [HH:]MM:SS.mmm");
}

#[test]
fn parse_reports_a_cue_without_text() {
    let (cues, errors) = parse("WEBVTT\n\n00:00:01.000 --> 00:00:02.000\n");
    assert_eq!(cues.len(), 1);
    assert_eq!(errors.len(), 1);
    assert_eq!(errors[0].line, 3);
    assert_eq!(errors[0].message, "cue at line 3 has a timing line but no text");
}

#[test]
fn format_round_trips_several_cues() {
    let cues = vec![
        Cue { number: 7, start: tc(0, 0, 1, 0), end: tc(0, 0, 2, 0), text: vec!["a".to_string(), "b c".to_string()], identifier: Some("x".to_string()) },
        Cue { number: 3, start: tc(12, 34, 56, 789), end: tc(12, 35, 0, 0), text: vec!["d".to_string()], identifier: None },
    ];
    let (reparsed, errors) = parse(&vtt::format(&cues));
    assert!(errors.is_empty());
    assert_eq!(reparsed.len(), 2);
    for (i, (a, b)) in reparsed.iter().zip(cues.iter()).enumerate() {
        assert_eq!(a.number as usize, i + 1);
        assert_eq!(a.identifier, Some((i + 1).to_string()));
        assert_eq!(a.start, b.start);
        assert_eq!(a.end, b.end);
        assert_eq!(a.text, b.text);
    }
}

#[test]
fn both_formats_read_back_as_the_same_cues() {
    let cues = vec![
        Cue { number: 2, start: tc(0, 0, 1, 0), end: tc(0, 0, 2, 500), text: vec!["one".to_string()], identifier: None },
        Cue { number: 2, start: tc(0, 1, 0, 0), end: tc(0, 1, 1, 0), text: vec!["two".to_string(), "lines".to_string()], identifier: None },
    ];
    let (from_srt, e1) = srt_toolkit::srt::parse(&srt_toolkit::srt::format(&cues));
    let (from_vtt, e2) = parse(&vtt::format(&cues));
    assert!(e1.is_empty() && e2.is_empty());
    assert_eq!(from_srt.len(), from_vtt.len());
    for (a, b) in from_srt.iter().zip(from_vtt.iter()) {
        assert_eq!(a.number, b.number);
        assert_eq!(a.start, b.start);
        assert_eq!(a.end, b.end);
        assert_eq!(a.text, b.text);
    }
}

#[test]
fn short_timecodes_read_with_zero_hours() {
    let (cues, errors) = parse("WEBVTT\n\n01:02.003 --> 59:59.999\nhi\n");
    assert!(errors.is_empty());
    assert_eq!(cues[0].start, tc(0, 1, 2, 3));
    assert_eq!(cues[0].end, tc(0, 59, 59, 999));
}

#[test]
fn try_parse_gives_what_parse_gives() {
    let input = "WEBVTT\n\nfirst\n00:01.000 --> 00:02.000\nhi\n\n00:03.000 --> 00:04.000\n";
    let (cues, errors) = parse(input);
    let (cues2, errors2) = vtt::try_parse(input).unwrap();
    assert_eq!(cues.len(), cues2.len());
    assert_eq!(cues[0].identifier, cues2[0].identifier);
    assert_eq!(cues[1].start, cues2[1].start);
    assert_eq!(errors.len(), 1);
    assert_eq!(errors2.len(), 1);
    assert_eq!(errors[0].message, errors2[0].message);
    assert_eq!(errors2[0].line, 7);
}

#[test]
fn parsed_webvtt_cues_are_numbered_by_position_with_clean_text() {
    let input = "WEBVTT\n\nNOTE skip me\n\n7\n00:01.000 --> 00:02.000\nhi  \n  there\t\n\n7\n00:03.000 --> 00:04.000 align:end\nagain\n\nbad --> x\nz\n\n00:05.000 --> 00:06.000\nlast \n";
    let (cues, errors) = parse(input);
    assert_eq!(errors.len(), 2);
    let numbers: Vec<u32> = cues.iter().map(|c| c.number).collect();
    assert_eq!(numbers, vec![1, 2, 3]);
    assert_eq!(cues[0].text, vec!["hi".to_string(), "  there".to_string()]);
    assert_eq!(cues[2].text, vec!["last".to_string()]);
    assert!(srt_toolkit::srt::validate_numbering(&cues).is_empty());
    assert!(srt_toolkit::srt::validate(&cues).iter().all(|i| i.message != "duplicate cue number"));
}
