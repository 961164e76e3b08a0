use srt_toolkit::report::{format_output, is_vtt_input, parse_input, refusal_message, validate_output};

const MOVIE: &str = "1\n00:00:01,000 --> 00:00:04,000\nHello there.\n\n2\n00:00:03,500 --> 00:00:06,000\nThis overlaps the previous cue.\n";

#[test]
fn input_format_follows_override_then_extension() {
    assert!(is_vtt_input("a.vtt", None));
    assert!(is_vtt_input("a.srt.VtT", None));
    assert!(!is_vtt_input("a.srt", None));
    assert!(!is_vtt_input("vtt", None));
    assert!(!is_vtt_input("<stdin>", None));
    assert!(is_vtt_input("<stdin>", Some("vtt")));
    assert!(!is_vtt_input("a.vtt", Some("srt")));
}

#[test]
fn parse_input_picks_the_parser() {
    let (cues, errors) = parse_input("x.vtt", "WEBVTT\n\n00:01.000 --> 00:02.000\nhi\n", None);
    assert!(errors.is_empty());
    assert_eq!(cues.len(), 1);
    let (cues, errors) = parse_input("x.srt", "WEBVTT\n", None);
    assert!(cues.is_empty());
    assert_eq!(errors[0].message, "expected a cue number, found 'WEBVTT'");
}

#[test]
fn validate_text_output_matches_the_readme() {
    let (cues, errors) = parse_input("movie.srt", MOVIE, None);
    let (out, ok) = validate_output("movie.srt", &cues, &errors, false, false);
    assert!(!ok);
    assert_eq!(out, "movie.srt: 0 error(s), 1 issue(s)\n  cue 2: starts before the previous cue ends\n");
}

#[test]
fn validate_json_output_matches_the_readme() {
    let (cues, errors) = parse_input("movie.srt", MOVIE, None);
    let (out, ok) = validate_output("movie.srt", &cues, &errors, true, false);
    assert!(!ok);
    assert_eq!(
        out,
        "{\n  \"file\": \"movie.srt\",\n  \"valid\": false,\n  \"cue_count\": 2,\n  \"errors\": [\n  ],\n  \"issues\": [\n    { \"cue\": 2, \"message\": \"starts before the previous cue ends\" }\n  ]\n}\n"
    );
}

#[test]
fn validate_reports_a_valid_file() {
    let input = "1\n00:00:01,000 --> 00:00:02,000\na\n";
    let (cues, errors) = parse_input("ok.srt", input, None);
    let (out, ok) = validate_output("ok.srt", &cues, &errors, false, true);
    assert!(ok);
    assert_eq!(out, "ok.srt: valid (1 cues)\n");
}

#[test]
fn validate_lists_errors_and_skips_issues_when_parsing_failed() {
    let input = "x\n\n1\n00:00:05,000 --> 00:00:01,000\na\n";
    let (cues, errors) = parse_input("bad.srt", input, None);
    let (out, ok) = validate_output("bad.srt", &cues, &errors, false, false);
    assert!(!ok);
    assert_eq!(out, "bad.srt: 1 error(s), 0 issue(s)\n  line 1: expected a cue number, found 'x'\n");
    let (out, _) = validate_output("bad.srt", &cues, &errors, true, false);
    assert_eq!(
        out,
        "{\n  \"file\": \"bad.srt\",\n  \"valid\": false,\n  \"cue_count\": 1,\n  \"errors\": [\n    { \"line\": 1, \"message\": \"expected a cue number, found 'x'\" }\n  ],\n  \"issues\": [\n  ]\n}\n"
    );
}

#[test]
fn strict_validation_adds_numbering_gaps() {
    let input = "1\n00:00:01,000 --> 00:00:02,000\na\n\n3\n00:00:03,000 --> 00:00:04,000\nb\n";
    let (cues, errors) = parse_input("gap.srt", input, None);
    let (_, ok) = validate_output("gap.srt", &cues, &errors, false, false);
    assert!(ok);
    let (out, ok) = validate_output("gap.srt", &cues, &errors, false, true);
    assert!(!ok);
    assert_eq!(out, "gap.srt: 0 error(s), 1 issue(s)\n  cue 3: numbering gap: expected 2, found 3\n");
}

#[test]
fn format_refuses_files_with_parse_errors() {
    let (_, errors) = parse_input("bad.srt", "x\n", None);
    assert_eq!(
        refusal_message("bad.srt", &errors),
        "bad.srt has 1 parse error(s), refusing to format:\n  line 1: expected a cue number, found 'x'\n"
    );
}

#[test]
fn format_output_matches_the_readme() {
    let (cues, _) = parse_input("movie.srt", MOVIE, None);
    let (out, err) = format_output("movie.srt", cues.clone(), false, false, None);
    assert_eq!(out, "1\n00:00:01,000 --> 00:00:04,000\nHello there.\n\n2\n00:00:03,500 --> 00:00:06,000\nThis overlaps the previous cue.\n\n");
    assert_eq!(err, "");
    let (out, _) = format_output("movie.srt", cues, false, false, Some("vtt"));
    assert_eq!(out, "WEBVTT\n\n1\n00:00:01.000 --> 00:00:04.000\nHello there.\n\n2\n00:00:03.500 --> 00:00:06.000\nThis overlaps the previous cue.\n\n");
}

#[test]
fn format_fix_reports_on_stderr_or_in_json() {
    let (cues, _) = parse_input("movie.srt", MOVIE, None);
    let (out, err) = format_output("movie.srt", cues.clone(), false, true, Some("srt"));
    assert_eq!(out, "1\n00:00:01,000 --> 00:00:04,000\nHello there.\n\n2\n00:00:04,000 --> 00:00:06,000\nThis overlaps the previous cue.\n\n");
    assert_eq!(err, "movie.srt: fixed 1 timing issue(s):\n  cue 2: moved start to the end of the previous cue to remove overlap\n");
    let (out, err) = format_output("movie.srt", cues, true, true, None);
    assert_eq!(err, "");
    assert_eq!(
        out,
        "{\n  \"file\": \"movie.srt\",\n  \"cues\": [\n    { \"index\": 1, \"start\": \"00:00:01,000\", \"end\": \"00:00:04,000\", \"text\": [\"Hello there.\"], \"identifier\": null },\n    { \"index\": 2, \"start\": \"00:00:04,000\", \"end\": \"00:00:06,000\", \"text\": [\"This overlaps the previous cue.\"], \"identifier\": null }\n  ],\n  \"fixes\": [\n    { \"cue\": 2, \"message\": \"moved start to the end of the previous cue to remove overlap\" }\n  ]\n}\n"
    );
}

#[test]
fn format_json_carries_the_webvtt_identifier() {
    let (cues, errors) = parse_input("a.vtt", "WEBVTT\n\nintro\n00:01.000 --> 00:02.000\nhi\n", None);
    assert!(errors.is_empty());
    let (out, _) = format_output("a.vtt", cues, true, false, Some("vtt"));
    assert_eq!(
        out,
        "{\n  \"file\": \"a.vtt\",\n  \"cues\": [\n    { \"index\": 1, \"start\": \"00:00:01.000\", \"end\": \"00:00:02.000\", \"text\": [\"hi\"], \"identifier\": \"intro\" }\n  ],\n  \"fixes\": [\n  ]\n}\n"
    );
}

#[test]
fn try_parse_input_gives_what_parse_input_gives() {
    let (cues, errors) = srt_toolkit::report::try_parse_input("movie.srt", MOVIE, None).unwrap();
    assert_eq!(cues.len(), 2);
    assert!(errors.is_empty());
    let (cues, errors) =
        srt_toolkit::report::try_parse_input("<stdin>", "WEBVTT\n\n00:01.000 --> 00:02.000\nhi\n", Some("vtt"))
            .unwrap();
    assert_eq!(cues.len(), 1);
    assert!(errors.is_empty());
}

#[test]
fn format_command_refuses_a_file_with_parse_errors() {
    let (cues, errors) = parse_input("bad.srt", "x\n", None);
    let (out, err, ok) = srt_toolkit::report::format_command("bad.srt", cues, &errors, false, true, None);
    assert!(!ok);
    assert_eq!(out, "");
    assert_eq!(err, "bad.srt has 1 parse error(s), refusing to format:\n  line 1: expected a cue number, found 'x'\n");
}

#[test]
fn format_command_formats_a_clean_file() {
    let (cues, errors) = parse_input("movie.srt", MOVIE, None);
    let (out, err, ok) = srt_toolkit::report::format_command("movie.srt", cues, &errors, false, true, None);
    assert!(ok);
    assert_eq!(out, "1\n00:00:01,000 --> 00:00:04,000\nHello there.\n\n2\n00:00:04,000 --> 00:00:06,000\nThis overlaps the previous cue.\n\n");
    assert_eq!(err, "movie.srt: fixed 1 timing issue(s):\n  cue 2: moved start to the end of the previous cue to remove overlap\n");
}

#[test]
fn strict_mode_only_adds_numbering_gaps() {
    let input = "1\n00:00:01,000 --> 00:00:02,000\na\n\n3\n00:00:01,500 --> 00:00:04,000\nb\n";
    let (cues, errors) = parse_input("g.srt", input, None);
    let (plain, _) = validate_output("g.srt", &cues, &errors, false, false);
    let (strict, _) = validate_output("g.srt", &cues, &errors, false, true);
    assert_eq!(plain, "g.srt: 0 error(s), 1 issue(s)\n  cue 3: starts before the previous cue ends\n");
    assert_eq!(
        strict,
        "g.srt: 0 error(s), 2 issue(s)\n  cue 3: starts before the previous cue ends\n  cue 3: numbering gap: expected 2, found 3\n"
    );
}
