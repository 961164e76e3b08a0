//! WebVTT (`.vtt`) input parsing and output.
//!
//! WebVTT and SubRip agree on the shape that matters here - a timing line
//! with "-->" followed by one or more lines of text, blocks separated by
//! blank lines - so this parser produces the same `Cue` and `ParseError`
//! types as `srt` does. The differences: a required "WEBVTT" signature line,
//! an optional non-numeric cue identifier before the timing line, "." instead
//! of "," before milliseconds, an optional hours field, and optional cue
//! settings (e.g. "align:start") after the end timecode. NOTE and STYLE blocks
//! are skipped. Cues are numbered from 1 in the order they appear; a cue's
//! identifier is kept on `Cue::identifier`.

use vstd::prelude::*;
use crate::srt::{
    arrow, check_timecode_fields, collect_text, cues_text, cues_view, error_at, errors_view,
    input_lines, is_blank, lemma_next_blank, line_is_blank, lines_of, next_blank, skip_to_blank,
    text_lines, timecode_errors, timecode_from_fields, timecode_result, write_cues, Cue, CueView,
    ErrorView, ParseError, Step, Timecode,
};
use crate::text::{
    chars_of, concat3, contains, contains_exec, decimal, decimal_exec, first_word, first_word_exec,
    parse_u32, parse_u32_exec, split, split_exec, split_once, split_once_exec, starts_with,
    starts_with_exec, string_from, string_of, trim, trim_start, trimmed, trimmed_start, views,
};

verus! {

/// A WebVTT timecode `[HH:]MM:SS.mmm`, or the reason it is not one.
pub open spec fn vtt_timecode(raw: Seq<char>) -> Result<Timecode, Seq<char>> {
    match split_once(raw, seq!['.']) {
        None => Err("timecode '"@ + raw + "' is missing the '.mmm' millisecond part"@),
        Some((time_part, millis_part)) => {
            let fields = split(time_part, seq![':']);
            if fields.len() == 3 {
                timecode_from_fields(
                    raw,
                    parse_u32(fields[0]),
                    parse_u32(fields[1]),
                    parse_u32(fields[2]),
                    parse_u32(millis_part),
                )
            } else if fields.len() == 2 {
                timecode_from_fields(
                    raw,
                    Some(0),
                    parse_u32(fields[0]),
                    parse_u32(fields[1]),
                    parse_u32(millis_part),
                )
            } else {
                Err("timecode '"@ + raw + "' must look like [HH:]MM:SS.mmm"@)
            }
        },
    }
}

/// `vtt_timecode`, computed.
fn parse_timecode(raw: &Vec<char>) -> (r: Result<Timecode, String>)
    ensures
        timecode_result(r) == vtt_timecode(raw@),
{
    let dot = vec!['.'];
    assert(dot@ =~= seq!['.']);
    match split_once_exec(raw, &dot) {
        None => Err(concat3("timecode '", raw, "' is missing the '.mmm' millisecond part")),
        Some((time_part, millis_part)) => {
            let fields = split_exec(&time_part, ':');
            let ms = parse_u32_exec(&millis_part);
            if fields.len() == 3 {
                assert(fields@[0]@ == split(time_part@, seq![':'])[0]);
                assert(fields@[1]@ == split(time_part@, seq![':'])[1]);
                assert(fields@[2]@ == split(time_part@, seq![':'])[2]);
                let h = parse_u32_exec(&fields[0]);
                let m = parse_u32_exec(&fields[1]);
                let s = parse_u32_exec(&fields[2]);
                check_timecode_fields(raw, h, m, s, ms)
            } else if fields.len() == 2 {
                assert(fields@[0]@ == split(time_part@, seq![':'])[0]);
                assert(fields@[1]@ == split(time_part@, seq![':'])[1]);
                let m = parse_u32_exec(&fields[0]);
                let s = parse_u32_exec(&fields[1]);
                check_timecode_fields(raw, Some(0), m, s, ms)
            } else {
                Err(concat3("timecode '", raw, "' must look like [HH:]MM:SS.mmm"))
            }
        },
    }
}


/// Reading a cue whose timing line is at index `t`, labelled `identifier`,
/// as cue number `number`.
#[verifier::opaque]
pub open spec fn vtt_timing(
    lines: Seq<Seq<char>>,
    t: int,
    identifier: Option<Seq<char>>,
    number: nat,
) -> Step {
    let timing = trim(lines[t]);
    match split_once(timing, arrow()) {
        None => Step {
            next: next_blank(lines, t),
            cues: seq![],
            errors: seq![
                error_at(t + 1, "expected a timing line with '-->', found '"@ + timing + "'"@),
            ],
            stop: false,
        },
        Some((start_raw, rest)) => {
            let start = vtt_timecode(trim(start_raw));
            let end = vtt_timecode(first_word(trim(rest)));
            if start is Ok && end is Ok {
                let text = text_lines(lines, t + 1);
                Step {
                    next: next_blank(lines, t + 1),
                    cues: seq![
                        CueView {
                            number: number as u32,
                            start: start->Ok_0,
                            end: end->Ok_0,
                            text,
                            identifier,
                        },
                    ],
                    errors: if text.len() == 0 {
                        seq![
                            error_at(
                                t + 1,
                                "cue at line "@ + decimal((t + 1) as nat)
                                    + " has a timing line but no text"@,
                            ),
                        ]
                    } else {
                        seq![]
                    },
                    stop: false,
                }
            } else {
                Step {
                    next: next_blank(lines, t + 1),
                    cues: seq![],
                    errors: timecode_errors(start, t + 1) + timecode_errors(end, t + 1),
                    stop: false,
                }
            }
        },
    }
}

/// Reading the WebVTT block that starts at line index `i`, whose cue (if
/// any) is numbered `number`.
#[verifier::opaque]
pub open spec fn vtt_block(lines: Seq<Seq<char>>, i: int, number: nat) -> Step {
    if is_blank(lines[i]) {
        Step { next: i + 1, cues: seq![], errors: seq![], stop: false }
    } else {
        let first = trim(lines[i]);
        if starts_with(first, "NOTE"@) || starts_with(first, "STYLE"@) {
            Step { next: next_blank(lines, i), cues: seq![], errors: seq![], stop: false }
        } else if !contains(first, arrow()) {
            if i + 1 >= lines.len() {
                Step {
                    next: i + 1,
                    cues: seq![],
                    errors: seq![
                        error_at(i + 1, "cue identifier is not followed by a timing line"@),
                    ],
                    stop: true,
                }
            } else {
                vtt_timing(lines, i + 1, Some(first), number)
            }
        } else {
            vtt_timing(lines, i, None, number)
        }
    }
}

/// Reading a block moves forward, not past the end, and yields at most one
/// cue, numbered `number`.
pub proof fn lemma_vtt_block(lines: Seq<Seq<char>>, i: int, number: nat)
    requires
        0 <= i < lines.len(),
    ensures
        i < vtt_block(lines, i, number).next <= lines.len(),
        vtt_block(lines, i, number).cues.len() <= 1,
        vtt_block(lines, i, number).cues.len() == 1 ==> vtt_block(lines, i, number).cues[0].number
            == number as u32,
        vtt_block(lines, i, number).stop ==> vtt_block(lines, i, number).cues.len() == 0,
{
    reveal(vtt_block);
    reveal(vtt_timing);
    lemma_next_blank(lines, i);
    lemma_next_blank(lines, i + 1);
    if i + 2 <= lines.len() {
        lemma_next_blank(lines, i + 2);
    }
}

/// Reading WebVTT blocks from line index `i` to the end of `lines`, the next
/// cue being number `number`.
pub open spec fn vtt_blocks(lines: Seq<Seq<char>>, i: int, number: nat) -> (
    Seq<CueView>,
    Seq<ErrorView>,
)
    decreases lines.len() - i,
{
    if i < 0 || i >= lines.len() {
        (seq![], seq![])
    } else {
        let step = vtt_block(lines, i, number);
        if step.stop {
            (step.cues, step.errors)
        } else {
            proof {
                lemma_vtt_block(lines, i, number);
            }
            let rest = vtt_blocks(lines, step.next, number + step.cues.len());
            (step.cues + rest.0, step.errors + rest.1)
        }
    }
}

/// The first line at or after `i` that is not blank, or the end of `lines`.
pub open spec fn first_nonblank(lines: Seq<Seq<char>>, i: int) -> int
    decreases lines.len() - i,
{
    if 0 <= i < lines.len() && is_blank(lines[i]) {
        first_nonblank(lines, i + 1)
    } else {
        i
    }
}

/// The cues and the errors that parsing the WebVTT text `input` gives.
pub open spec fn vtt_parse(input: Seq<char>) -> (Seq<CueView>, Seq<ErrorView>) {
    let lines = input_lines(input);
    let h = first_nonblank(lines, 0);
    if h >= lines.len() || !starts_with(trim_start(lines[h]), "WEBVTT"@) {
        (seq![], seq![error_at(h + 1, "file does not start with a WEBVTT signature"@)])
    } else {
        vtt_blocks(lines, h + 1, 1)
    }
}

/// The characters of an optional identifier.
pub open spec fn label_view(o: Option<Vec<char>>) -> Option<Seq<char>> {
    match o {
        Some(v) => Some(v@),
        None => None,
    }
}

/// Reads a cue whose timing line is at index `t`.
fn vtt_parse_timing(
    lines: &Vec<Vec<char>>,
    t: usize,
    identifier: Option<Vec<char>>,
    number: u32,
) -> (r: (usize, Vec<Cue>, Vec<ParseError>, bool))
    requires
        t < lines.len(),
        lines.len() < usize::MAX,
    ensures
        ({
            let step = vtt_timing(
                views(lines@),
                t as int,
                label_view(identifier),
                number as nat,
            );
            &&& r.0 == step.next
            &&& cues_view(r.1@) == step.cues
            &&& errors_view(r.2@) == step.errors
            &&& r.3 == step.stop
        }),
{
    reveal(vtt_timing);
    let ghost l = views(lines@);
    let ghost id = label_view(identifier);
    let ghost step = vtt_timing(l, t as int, id, number as nat);
    let mut cues: Vec<Cue> = Vec::new();
    let mut errors: Vec<ParseError> = Vec::new();
    assert(l[t as int] == lines@[t as int]@);
    let timing = trimmed(&lines[t]);
    let arrow_chars = vec!['-', '-', '>'];
    assert(arrow_chars@ =~= arrow());
    let (start_raw, rest) = match split_once_exec(&timing, &arrow_chars) {
        Some(parts) => parts,
        None => {
            errors.push(ParseError {
                line: t + 1,
                message: concat3("expected a timing line with '-->', found '", &timing, "'"),
            });
            let next = skip_to_blank(lines, t);
            assert(cues_view(cues@) =~= step.cues);
            assert(errors_view(errors@) =~= step.errors);
            return (next, cues, errors, false);
        },
    };
    let end_raw = first_word_exec(&trimmed(&rest));
    let start = parse_timecode(&trimmed(&start_raw));
    let end = parse_timecode(&end_raw);
    match (start, end) {
        (Ok(s), Ok(e)) => {
            let (text, next) = collect_text(lines, t + 1);
            if text.len() == 0 {
                let digits = decimal_exec((t + 1) as u64);
                errors.push(ParseError {
                    line: t + 1,
                    message: concat3("cue at line ", &digits, " has a timing line but no text"),
                });
            }
            let label = match &identifier {
                Some(v) => Some(string_of(v)),
                None => None,
            };
            cues.push(Cue { number, start: s, end: e, text, identifier: label });
            assert(cues_view(cues@) =~= step.cues);
            assert(errors_view(errors@) =~= step.errors);
            (next, cues, errors, false)
        },
        (s, e) => {
            if let Err(message) = s {
                errors.push(ParseError { line: t + 1, message });
            }
            if let Err(message) = e {
                errors.push(ParseError { line: t + 1, message });
            }
            let next = skip_to_blank(lines, t + 1);
            assert(cues_view(cues@) =~= step.cues);
            assert(errors_view(errors@) =~= step.errors);
            (next, cues, errors, false)
        },
    }
}

/// Reads the WebVTT block that starts at line index `i`.
fn vtt_parse_block(lines: &Vec<Vec<char>>, i: usize, number: u32) -> (r: (
    usize,
    Vec<Cue>,
    Vec<ParseError>,
    bool,
))
    requires
        i < lines.len(),
        lines.len() < usize::MAX,
    ensures
        ({
            let step = vtt_block(views(lines@), i as int, number as nat);
            &&& r.0 == step.next
            &&& cues_view(r.1@) == step.cues
            &&& errors_view(r.2@) == step.errors
            &&& r.3 == step.stop
        }),
{
    reveal(vtt_block);
    let ghost l = views(lines@);
    assert(l[i as int] == lines@[i as int]@);
    if line_is_blank(&lines[i]) {
        let cues: Vec<Cue> = Vec::new();
        let errors: Vec<ParseError> = Vec::new();
        assert(cues_view(cues@) =~= Seq::<CueView>::empty());
        assert(errors_view(errors@) =~= Seq::<ErrorView>::empty());
        return (i + 1, cues, errors, false);
    }
    let first = trimmed(&lines[i]);
    let note = chars_of("NOTE");
    let style = chars_of("STYLE");
    if starts_with_exec(&first, &note) || starts_with_exec(&first, &style) {
        let cues: Vec<Cue> = Vec::new();
        let errors: Vec<ParseError> = Vec::new();
        assert(cues_view(cues@) =~= Seq::<CueView>::empty());
        assert(errors_view(errors@) =~= Seq::<ErrorView>::empty());
        return (skip_to_blank(lines, i), cues, errors, false);
    }
    let arrow_chars = vec!['-', '-', '>'];
    assert(arrow_chars@ =~= arrow());
    if !contains_exec(&first, &arrow_chars) {
        if i + 1 >= lines.len() {
            let cues: Vec<Cue> = Vec::new();
            let mut errors: Vec<ParseError> = Vec::new();
            errors.push(ParseError {
                line: i + 1,
                message: string_from("cue identifier is not followed by a timing line"),
            });
            assert(cues_view(cues@) =~= Seq::<CueView>::empty());
            assert(errors_view(errors@) =~= vtt_block(l, i as int, number as nat).errors);
            return (i + 1, cues, errors, true);
        }
        vtt_parse_timing(lines, i + 1, Some(first), number)
    } else {
        vtt_parse_timing(lines, i, None, number)
    }
}


/// Parses WebVTT file contents as `parse` does, or gives `None` when the
/// file holds too many cues for a `u32` to number them all, where `parse`
/// cannot go on.
pub fn try_parse(input: &str) -> (r: Option<(Vec<Cue>, Vec<ParseError>)>)
    requires
        input@.len() + 2 <= usize::MAX,
    ensures
        r is None <==> vtt_parse(input@).0.len() >= u32::MAX,
        r matches Some((cues, errors)) ==> cues_view(cues@) == vtt_parse(input@).0
            && errors_view(errors@) == vtt_parse(input@).1,
{
    let lines = lines_of(input);
    let ghost l = views(lines@);
    let mut cues: Vec<Cue> = Vec::new();
    let mut errors: Vec<ParseError> = Vec::new();
    let mut i: usize = 0;
    while i < lines.len() && line_is_blank(&lines[i])
        invariant
            i <= lines.len(),
            l == views(lines@),
            first_nonblank(l, 0) == first_nonblank(l, i as int),
        decreases lines.len() - i,
    {
        assert(l[i as int] == lines@[i as int]@);
        i += 1;
    }
    let signature = chars_of("WEBVTT");
    if i >= lines.len() || !starts_with_exec(&trimmed_start(&lines[i]), &signature) {
        proof {
            if i < lines.len() {
                assert(l[i as int] == lines@[i as int]@);
            }
        }
        errors.push(ParseError {
            line: i + 1,
            message: string_from("file does not start with a WEBVTT signature"),
        });
        assert(cues_view(cues@) =~= vtt_parse(input@).0);
        assert(errors_view(errors@) =~= vtt_parse(input@).1);
        return Some((cues, errors));
    }
    proof {
        assert(l[i as int] == lines@[i as int]@);
    }
    let ghost h = i as int;
    i += 1;
    let mut next_number: u32 = 1;
    proof {
        assert(cues_view(cues@) + vtt_blocks(l, h + 1, 1).0 =~= vtt_blocks(l, h + 1, 1).0);
        assert(errors_view(errors@) + vtt_blocks(l, h + 1, 1).1 =~= vtt_blocks(l, h + 1, 1).1);
    }
    while i < lines.len()
        invariant
            l == views(lines@),
            l == input_lines(input@),
            lines.len() < usize::MAX,
            i <= lines.len(),
            vtt_parse(input@) == vtt_blocks(l, h + 1, 1),
            next_number == cues@.len() + 1,
            vtt_parse(input@).0 == cues_view(cues@) + vtt_blocks(l, i as int, next_number as nat).0,
            vtt_parse(input@).1 == errors_view(errors@) + vtt_blocks(
                l,
                i as int,
                next_number as nat,
            ).1,
        decreases lines.len() - i,
    {
        let (next, mut block_cues, mut block_errors, stop) = vtt_parse_block(
            &lines,
            i,
            next_number,
        );
        proof {
            lemma_vtt_block(l, i as int, next_number as nat);
        }
        let produced = block_cues.len();
        let ghost before_cues = cues@;
        let ghost before_errors = errors@;
        cues.append(&mut block_cues);
        errors.append(&mut block_errors);
        proof {
            let step = vtt_block(l, i as int, next_number as nat);
            assert(cues_view(cues@) =~= cues_view(before_cues) + step.cues);
            assert(errors_view(errors@) =~= errors_view(before_errors) + step.errors);
            if !stop {
                let rest = vtt_blocks(l, next as int, next_number as nat + step.cues.len());
                assert(cues_view(before_cues) + (step.cues + rest.0) =~= cues_view(cues@)
                    + rest.0);
                assert(errors_view(before_errors) + (step.errors + rest.1) =~= errors_view(
                    errors@,
                ) + rest.1);
            }
        }
        if stop {
            proof {
                assert(cues_view(cues@) =~= vtt_parse(input@).0);
                assert(errors_view(errors@) =~= vtt_parse(input@).1);
                assert(cues@.len() < u32::MAX);
                assert(vtt_parse(input@).0.len() == cues_view(cues@).len());
            }
            return Some((cues, errors));
        }
        if produced > 0 {
            if next_number == u32::MAX {
                proof {
                    let rest = vtt_blocks(l, next as int, next_number as nat + 1);
                    assert(cues@.len() == u32::MAX);
                    assert(vtt_parse(input@).0.len() >= cues_view(cues@).len());
                }
                return None;
            }
            next_number += 1;
        }
        i = next;
    }
    proof {
        assert(cues_view(cues@) + vtt_blocks(l, i as int, next_number as nat).0 =~= cues_view(
            cues@,
        ));
        assert(errors_view(errors@) + vtt_blocks(l, i as int, next_number as nat).1
            =~= errors_view(errors@));
    }
    Some((cues, errors))
}

/// Parses WebVTT file contents into cues, numbered from 1 in the order they
/// appear, collecting parse errors along the way instead of stopping at the
/// first one. A file without the "WEBVTT" signature yields no cues and that
/// one error.
pub fn parse(input: &str) -> (r: (Vec<Cue>, Vec<ParseError>))
    requires
        input@.len() + 2 <= usize::MAX,
        vtt_parse(input@).0.len() < u32::MAX,
    ensures
        cues_view(r.0@) == vtt_parse(input@).0,
        errors_view(r.1@) == vtt_parse(input@).1,
{
    match try_parse(input) {
        Some(r) => r,
        None => {
            assert(false);
            (Vec::new(), Vec::new())
        },
    }
}

/// Rewrites cues as a normalized WebVTT document: the required "WEBVTT"
/// signature, sequential cue identifiers, zero-padded timestamps with the
/// '.' millisecond separator, LF line endings, one blank line between cues.
pub fn format(cues: &[Cue]) -> (r: String)
    ensures
        r@ == "WEBVTT\n\n"@ + cues_text(cues_view(cues@), '.'),
{
    let mut out = string_from("WEBVTT\n\n");
    write_cues(&mut out, cues, '.');
    out
}

} // verus!
