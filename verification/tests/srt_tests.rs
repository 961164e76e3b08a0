use srt_toolkit::srt;
use srt_toolkit::srt::{fix, parse, validate, validate_numbering, Cue, Timecode};

#[test]
fn parses_a_well_formed_timecode() {
    let tc = Timecode::parse("01:02:03,456").unwrap();
    assert_eq!(tc.hours, 1);
    assert_eq!(tc.minutes, 2);
    assert_eq!(tc.seconds, 3);
    assert_eq!(tc.millis, 456);
}

#[test]
fn parses_zero_timecode() {
    let tc = Timecode::parse("00:00:00,000").unwrap();
    assert_eq!(tc.to_millis(), 0);
}

#[test]
fn accepts_hours_past_24() {
    // Nothing in the format caps hours at 24 - a long compilation reel
    // can legitimately run past a day of accumulated runtime.
    let tc = Timecode::parse("30:00:00,000").unwrap();
    assert_eq!(tc.hours, 30);
}

#[test]
fn rejects_minutes_at_60() {
    assert!(Timecode::parse("00:60:00,000").is_err());
}

#[test]
fn rejects_seconds_at_60() {
    assert!(Timecode::parse("00:00:60,000").is_err());
}

#[test]
fn rejects_millis_over_999() {
    assert!(Timecode::parse("00:00:00,1000").is_err());
}

#[test]
fn accepts_millis_at_max() {
    let tc = Timecode::parse("00:00:00,999").unwrap();
    assert_eq!(tc.millis, 999);
}

#[test]
fn rejects_missing_comma() {
    assert!(Timecode::parse("00:00:00.500").is_err());
}

#[test]
fn rejects_wrong_field_count() {
    assert!(Timecode::parse("00:00,000").is_err());
    assert!(Timecode::parse("00:00:00:00,000").is_err());
}

#[test]
fn rejects_non_numeric_fields() {
    assert!(Timecode::parse("aa:00:00,000").is_err());
    assert!(Timecode::parse("00:00:00,abc").is_err());
}

#[test]
fn to_millis_round_trip() {
    let tc = Timecode {
        hours: 2,
        minutes: 15,
        seconds: 37,
        millis: 89,
    };
    let total = tc.to_millis();
    assert_eq!(total, 8_137_089);
    assert_eq!(Timecode::from_millis(total), tc);
}

#[test]
fn from_millis_rolls_over_seconds_and_minutes() {
    // 1 minute, 0 seconds, 0 millis - carries should propagate cleanly
    // across every field boundary at once.
    let tc = Timecode::from_millis(60_000);
    assert_eq!(tc.minutes, 1);
    assert_eq!(tc.seconds, 0);
    assert_eq!(tc.millis, 0);
}

#[test]
fn from_millis_zero() {
    let tc = Timecode::from_millis(0);
    assert_eq!(tc, Timecode { hours: 0, minutes: 0, seconds: 0, millis: 0 });
}

#[test]
fn format_zero_pads_every_field() {
    let tc = Timecode { hours: 1, minutes: 2, seconds: 3, millis: 4 };
    assert_eq!(tc.format(), "01:02:03,004");
}

#[test]
fn format_does_not_truncate_hours_past_two_digits() {
    let tc = Timecode { hours: 100, minutes: 0, seconds: 0, millis: 0 };
    assert_eq!(tc.format(), "100:00:00,000");
}

#[test]
fn format_vtt_uses_a_dot_before_milliseconds() {
    let tc = Timecode { hours: 1, minutes: 2, seconds: 3, millis: 4 };
    assert_eq!(tc.format_vtt(), "01:02:03.004");
}

fn cue(number: u32) -> Cue {
    Cue {
        number,
        start: Timecode { hours: 0, minutes: 0, seconds: 0, millis: 0 },
        end: Timecode { hours: 0, minutes: 0, seconds: 1, millis: 0 },
        text: vec!["x".to_string()],
        identifier: None,
    }
}

#[test]
fn numbering_gap_none_for_sequential_cues() {
    let cues = vec![cue(1), cue(2), cue(3)];
    assert!(validate_numbering(&cues).is_empty());
}

#[test]
fn numbering_gap_flags_skipped_number() {
    let cues = vec![cue(1), cue(3)];
    let issues = validate_numbering(&cues);
    assert_eq!(issues.len(), 1);
    assert_eq!(issues[0].cue_number, 3);
    assert_eq!(issues[0].message, "numbering gap: expected 2, found 3");
}

#[test]
fn numbering_gap_allows_starting_above_one() {
    // Nothing requires the first cue to be numbered 1 - only that
    // numbering is sequential from wherever it starts.
    let cues = vec![cue(5), cue(6)];
    assert!(validate_numbering(&cues).is_empty());
}

#[test]
fn numbering_gap_flags_duplicate_as_a_gap_too() {
    let cues = vec![cue(1), cue(1)];
    let issues = validate_numbering(&cues);
    assert_eq!(issues.len(), 1);
    assert_eq!(issues[0].message, "numbering gap: expected 2, found 1");
}

#[test]
fn numbering_gap_flags_backwards_numbering() {
    let cues = vec![cue(2), cue(1)];
    let issues = validate_numbering(&cues);
    assert_eq!(issues.len(), 1);
    assert_eq!(issues[0].message, "numbering gap: expected 3, found 1");
}

// ---- further cases ----

fn tc(h: u32, m: u32, s: u32, ms: u32) -> Timecode {
    Timecode { hours: h, minutes: m, seconds: s, millis: ms }
}

fn timed(number: u32, start: Timecode, end: Timecode) -> Cue {
    Cue { number, start, end, text: vec!["line".to_string()], identifier: None }
}

#[test]
fn timecode_error_messages_name_the_failing_part() {
    assert_eq!(
        Timecode::parse("00:00:00.500").unwrap_err(),
        "timecode '00:00:00.500' is missing the ',mmm' millisecond part"
    );
    assert_eq!(
        Timecode::parse("00:00,000").unwrap_err(),
        "timecode '00:00,000' must look like HH:MM:SS,mmm"
    );
    assert_eq!(Timecode::parse("aa:00:00,000").unwrap_err(), "invalid hours in timecode 'aa:00:00,000'");
    assert_eq!(Timecode::parse("00:bb:00,000").unwrap_err(), "invalid minutes in timecode '00:bb:00,000'");
    assert_eq!(Timecode::parse("00:00:cc,000").unwrap_err(), "invalid seconds in timecode '00:00:cc,000'");
    assert_eq!(
        Timecode::parse("00:00:00,abc").unwrap_err(),
        "invalid milliseconds in timecode '00:00:00,abc'"
    );
    assert_eq!(Timecode::parse("00:60:00,000").unwrap_err(), "minutes must be 0-59 in timecode '00:60:00,000'");
    assert_eq!(Timecode::parse("00:00:60,000").unwrap_err(), "seconds must be 0-59 in timecode '00:00:60,000'");
    assert_eq!(
        Timecode::parse("00:00:00,1000").unwrap_err(),
        "milliseconds must be 0-999 in timecode '00:00:00,1000'"
    );
}

#[test]
fn timecode_fields_accept_a_plus_sign_and_reject_a_minus_sign() {
    assert_eq!(Timecode::parse("+1:02:03,004").unwrap(), tc(1, 2, 3, 4));
    assert!(Timecode::parse("-1:02:03,004").is_err());
    assert!(Timecode::parse("4294967296:00:00,000").is_err());
    assert_eq!(Timecode::parse("4294967295:00:00,000").unwrap().hours, 4294967295);
}

#[test]
fn to_millis_weighs_every_field() {
    assert_eq!(tc(1, 1, 1, 1).to_millis(), 3_661_001);
    assert_eq!(tc(u32::MAX, 0, 0, 0).to_millis(), 4_294_967_295u64 * 3_600_000);
}

#[test]
fn from_millis_splits_into_fields() {
    assert_eq!(Timecode::from_millis(3_723_004), tc(1, 2, 3, 4));
    assert_eq!(Timecode::from_millis(59_999), tc(0, 0, 59, 999));
    // Hours beyond u32 wrap, as an `as u32` cast does.
    assert_eq!(Timecode::from_millis(4_294_967_296u64 * 3_600_000).hours, 0);
}

#[test]
fn parses_the_readme_example() {
    let input = "1\n00:00:01,000 --> 00:00:04,000\nHello there.\n\n2\n00:00:03,500 --> 00:00:06,000\nThis overlaps the previous cue.\n";
    let (cues, errors) = parse(input);
    assert!(errors.is_empty());
    assert_eq!(cues.len(), 2);
    assert_eq!(cues[0].number, 1);
    assert_eq!(cues[0].start, tc(0, 0, 1, 0));
    assert_eq!(cues[0].end, tc(0, 0, 4, 0));
    assert_eq!(cues[0].text, vec!["Hello there.".to_string()]);
    assert_eq!(cues[0].identifier, None);
    assert_eq!(cues[1].start, tc(0, 0, 3, 500));
    let issues = validate(&cues);
    assert_eq!(issues.len(), 1);
    assert_eq!(issues[0].cue_number, 2);
    assert_eq!(issues[0].message, "starts before the previous cue ends");
}

#[test]
fn parse_accepts_crlf_and_trims_text_ends() {
    let input = "  7  \r\n00:00:01,000   -->   00:00:02,000\r\nfirst   \r\n  second\r\n\r\n\r\n";
    let (cues, errors) = parse(input);
    assert!(errors.is_empty());
    assert_eq!(cues.len(), 1);
    assert_eq!(cues[0].number, 7);
    assert_eq!(cues[0].text, vec!["first".to_string(), "  second".to_string()]);
}

#[test]
fn parse_reports_a_bad_cue_number_and_resyncs() {
    let input = "one\n00:00:01,000 --> 00:00:02,000\nx\n\n2\n00:00:03,000 --> 00:00:04,000\ny\n";
    let (cues, errors) = parse(input);
    assert_eq!(errors.len(), 1);
    assert_eq!(errors[0].line, 1);
    assert_eq!(errors[0].message, "expected a cue number, found 'one'");
    assert_eq!(cues.len(), 1);
    assert_eq!(cues[0].number, 2);
}

#[test]
fn parse_reports_a_missing_arrow() {
    let (cues, errors) = parse("1\n00:00:01,000 00:00:02,000\nx\n");
    assert!(cues.is_empty());
    assert_eq!(errors.len(), 1);
    assert_eq!(errors[0].line, 2);
    assert_eq!(errors[0].message, "expected a timing line with '-->', found '00:00:01,000 00:00:02,000'");
}

#[test]
fn parse_reports_both_bad_timecodes_on_the_timing_line() {
    let (cues, errors) = parse("1\n00:00:01 --> 00:61:00,000\nx\n");
    assert!(cues.is_empty());
    assert_eq!(errors.len(), 2);
    assert_eq!(errors[0].line, 2);
    assert_eq!(errors[0].message, "timecode '00:00:01' is missing the ',mmm' millisecond part");
    assert_eq!(errors[1].line, 2);
    assert_eq!(errors[1].message, "minutes must be 0-59 in timecode '00:61:00,000'");
}

#[test]
fn parse_reports_a_cue_without_text_but_keeps_it() {
    let (cues, errors) = parse("3\n00:00:01,000 --> 00:00:02,000\n\n");
    assert_eq!(cues.len(), 1);
    assert!(cues[0].text.is_empty());
    assert_eq!(errors.len(), 1);
    assert_eq!(errors[0].line, 1);
    assert_eq!(errors[0].message, "cue 3 has a timing line but no text");
}

#[test]
fn parse_reports_a_file_ending_after_a_cue_number() {
    let (cues, errors) = parse("\n\n5");
    assert!(cues.is_empty());
    assert_eq!(errors.len(), 1);
    assert_eq!(errors[0].line, 4);
    assert_eq!(errors[0].message, "file ends after a cue number, expected a timing line");
}

#[test]
fn parse_of_empty_input_gives_nothing() {
    let (cues, errors) = parse("");
    assert!(cues.is_empty());
    assert!(errors.is_empty());
}

#[test]
fn validate_reports_each_issue_kind_in_order() {
    let cues = vec![
        timed(1, tc(0, 0, 5, 0), tc(0, 0, 5, 0)),
        timed(1, tc(0, 0, 4, 0), tc(0, 0, 6, 0)),
    ];
    let issues = validate(&cues);
    assert_eq!(issues.len(), 3);
    assert_eq!(issues[0].cue_number, 1);
    assert_eq!(issues[0].message, "start time is not before end time");
    assert_eq!(issues[1].message, "starts before the previous cue ends");
    assert_eq!(issues[2].message, "duplicate cue number");
}

#[test]
fn validate_accepts_touching_cues() {
    let cues = vec![timed(1, tc(0, 0, 1, 0), tc(0, 0, 2, 0)), timed(2, tc(0, 0, 2, 0), tc(0, 0, 3, 0))];
    assert!(validate(&cues).is_empty());
}

#[test]
fn fix_cascades_overlap_pushes_in_one_pass() {
    let mut cues = vec![
        timed(1, tc(0, 0, 1, 0), tc(0, 0, 10, 0)),
        timed(2, tc(0, 0, 2, 0), tc(0, 0, 3, 0)),
        timed(3, tc(0, 0, 4, 0), tc(0, 0, 12, 0)),
    ];
    let fixes = fix(&mut cues);
    assert_eq!(cues[1].start, tc(0, 0, 10, 0));
    assert_eq!(cues[1].end, tc(0, 0, 10, 1));
    assert_eq!(cues[2].start, tc(0, 0, 10, 1));
    assert_eq!(cues[2].end, tc(0, 0, 12, 0));
    assert_eq!(fixes.len(), 3);
    assert_eq!(fixes[0].cue_number, 2);
    assert_eq!(fixes[0].message, "moved start to the end of the previous cue to remove overlap");
    assert_eq!(fixes[1].cue_number, 2);
    assert_eq!(fixes[1].message, "extended end time to be after start time");
    assert_eq!(fixes[2].cue_number, 3);
    // After fixing, only duplicate numbering could remain.
    assert!(validate(&cues).is_empty());
    // Fixing again changes nothing.
    let before: Vec<(Timecode, Timecode)> = cues.iter().map(|c| (c.start, c.end)).collect();
    assert!(fix(&mut cues).is_empty());
    let after: Vec<(Timecode, Timecode)> = cues.iter().map(|c| (c.start, c.end)).collect();
    assert_eq!(before, after);
}

#[test]
fn fix_leaves_duplicate_numbers_alone() {
    let mut cues = vec![timed(1, tc(0, 0, 1, 0), tc(0, 0, 2, 0)), timed(1, tc(0, 0, 3, 0), tc(0, 0, 4, 0))];
    assert!(fix(&mut cues).is_empty());
    let issues = validate(&cues);
    assert_eq!(issues.len(), 1);
    assert_eq!(issues[0].message, "duplicate cue number");
}

#[test]
fn format_renumbers_and_normalizes() {
    let cues = vec![
        Cue {
            number: 9,
            start: tc(0, 0, 1, 0),
            end: tc(0, 0, 4, 0),
            text: vec!["a".to_string(), "b".to_string()],
            identifier: Some("x".to_string()),
        },
        timed(3, tc(1, 2, 3, 4), tc(100, 0, 0, 5)),
    ];
    assert_eq!(
        srt::format(&cues),
        "1\n00:00:01,000 --> 00:00:04,000\na\nb\n\n2\n01:02:03,004 --> 100:00:00,005\nline\n\n"
    );
    assert_eq!(srt::format(&[]), "");
}

#[test]
fn format_round_trips_through_srt_parse() {
    let cues = vec![timed(4, tc(0, 0, 1, 250), tc(0, 0, 2, 0)), timed(8, tc(2, 0, 0, 0), tc(2, 0, 1, 0))];
    let out = srt::format(&cues);
    let (reparsed, errors) = parse(&out);
    assert!(errors.is_empty());
    assert_eq!(reparsed.len(), 2);
    for (i, (a, b)) in reparsed.iter().zip(cues.iter()).enumerate() {
        assert_eq!(a.number as usize, i + 1);
        assert_eq!(a.start, b.start);
        assert_eq!(a.end, b.end);
        assert_eq!(a.text, b.text);
    }
}

#[test]
fn fix_reports_each_change_in_cue_order() {
    let mut cues = vec![
        timed(1, tc(0, 0, 5, 0), tc(0, 0, 5, 0)),
        timed(2, tc(0, 0, 4, 0), tc(0, 0, 5, 0)),
        timed(3, tc(0, 0, 9, 0), tc(0, 0, 10, 0)),
    ];
    let fixes = fix(&mut cues);
    let seen: Vec<(u32, &str)> = fixes.iter().map(|f| (f.cue_number, f.message.as_str())).collect();
    assert_eq!(
        seen,
        vec![
            (1, "extended end time to be after start time"),
            (2, "moved start to the end of the previous cue to remove overlap"),
            (2, "extended end time to be after start time"),
        ]
    );
    assert_eq!(cues[0].end, tc(0, 0, 5, 1));
    assert_eq!(cues[1].start, tc(0, 0, 5, 1));
    assert_eq!(cues[1].end, tc(0, 0, 5, 2));
    assert_eq!(cues[2].start, tc(0, 0, 9, 0));
    assert_eq!(cues[2].end, tc(0, 0, 10, 0));
}

#[test]
fn fix_keeps_numbers_text_and_identifiers() {
    let mut cues = vec![
        Cue {
            number: 7,
            start: tc(0, 0, 2, 0),
            end: tc(0, 0, 1, 0),
            text: vec!["a".to_string(), "b".to_string()],
            identifier: Some("intro".to_string()),
        },
        timed(7, tc(0, 0, 0, 500), tc(0, 0, 3, 0)),
    ];
    let before = cues.clone();
    fix(&mut cues);
    assert_eq!(cues.len(), 2);
    for (after, old) in cues.iter().zip(before.iter()) {
        assert_eq!(after.number, old.number);
        assert_eq!(after.text, old.text);
        assert_eq!(after.identifier, old.identifier);
        assert!(after.start.to_millis() >= old.start.to_millis());
        assert!(after.end.to_millis() >= old.end.to_millis());
    }
    assert_eq!(cues[1].start, tc(0, 0, 2, 1));
}
