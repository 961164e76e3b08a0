//! SubRip (`.srt`) cues: timecodes, parsing, validation, fixing and printing.
//!
//! A file is a sequence of blocks separated by one or more blank lines: a cue
//! number, a timing line `HH:MM:SS,mmm --> HH:MM:SS,mmm`, then one or more
//! lines of text. The parser collects errors instead of stopping at the first
//! one: a block that fails to parse is skipped and reading resumes at the next
//! blank line.

use vstd::prelude::*;
use crate::text::{
    chars_of, concat3, decimal, decimal_exec, lemma_split_len, normalize_newlines,
    normalize_newlines_exec, parse_u32, parse_u32_exec, push_all, push_char, push_decimal,
    push_str, push_zero_padded, split, split_exec, split_once, split_once_exec, string_from,
    string_of, trim, trim_end, trimmed, trimmed_end, views, zero_padded,
};

verus! {

/// A point in time, in hours, minutes, seconds and milliseconds.
#[derive(Debug, Clone, Copy, PartialEq, Eq, Structural)]
pub struct Timecode {
    pub hours: u32,
    pub minutes: u32,
    pub seconds: u32,
    pub millis: u32,
}

/// The timecode `t` milliseconds after zero, with the hour count cut to a
/// `u32` as `from_millis` does.
pub open spec fn timecode_at(t: nat) -> Timecode {
    Timecode {
        hours: (t / 3_600_000) as u32,
        minutes: ((t / 60_000) % 60) as u32,
        seconds: ((t / 1000) % 60) as u32,
        millis: (t % 1000) as u32,
    }
}

/// `n` zero-padded to two digits.
pub open spec fn pad2(n: u32) -> Seq<char> {
    zero_padded(n as nat, 2)
}

/// `HH:MM:SS<sep>mmm`, each field zero-padded, hours to at least two digits.
pub open spec fn timecode_text(tc: Timecode, sep: char) -> Seq<char> {
    pad2(tc.hours) + seq![':'] + pad2(tc.minutes) + seq![':'] + pad2(tc.seconds) + seq![sep]
        + zero_padded(tc.millis as nat, 3)
}

impl Timecode {
    /// The number of milliseconds this timecode stands for.
    pub open spec fn total_millis(self) -> nat {
        self.hours as nat * 3_600_000 + self.minutes as nat * 60_000 + self.seconds as nat * 1000
            + self.millis as nat
    }

    /// Minutes and seconds below 60, milliseconds below 1000.
    pub open spec fn is_canonical(self) -> bool {
        self.minutes < 60 && self.seconds < 60 && self.millis < 1000
    }

    /// The number of milliseconds since zero.
    pub fn to_millis(&self) -> (r: u64)
        ensures
            r == self.total_millis(),
    {
        proof {
            assert(self.hours as nat * 3_600_000 <= 0xffff_ffff * 3_600_000) by (nonlinear_arith);
            assert(self.minutes as nat * 60_000 <= 0xffff_ffff * 60_000) by (nonlinear_arith);
            assert(self.seconds as nat * 1000 <= 0xffff_ffff * 1000) by (nonlinear_arith);
        }
        (self.hours as u64) * 3_600_000 + (self.minutes as u64) * 60_000 + (self.seconds as u64)
            * 1_000 + self.millis as u64
    }

    /// Formats as `HH:MM:SS,mmm` (SubRip).
    pub fn format(&self) -> (r: String)
        ensures
            r@ == timecode_text(*self, ','),
    {
        let v = self.format_with(',');
        string_of(&v)
    }

    /// Same as `format`, but with the '.' millisecond separator WebVTT uses
    /// instead of SubRip's ','.
    pub fn format_vtt(&self) -> (r: String)
        ensures
            r@ == timecode_text(*self, '.'),
    {
        let v = self.format_with('.');
        string_of(&v)
    }

    /// Parses `HH:MM:SS,mmm`, with minutes and seconds below 60 and
    /// milliseconds below 1000; hours are not capped.
    pub fn parse(raw: &str) -> (r: Result<Timecode, String>)
        ensures
            timecode_result(r) == srt_timecode(raw@),
    {
        let v = chars_of(raw);
        parse_srt_timecode(&v)
    }

    /// `timecode_text(*self, sep)` as characters.
    pub(crate) fn format_with(&self, sep: char) -> (r: Vec<char>)
        ensures
            r@ == timecode_text(*self, sep),
    {
        let mut v: Vec<char> = Vec::new();
        push_zero_padded(&mut v, self.hours as u64, 2);
        v.push(':');
        push_zero_padded(&mut v, self.minutes as u64, 2);
        v.push(':');
        push_zero_padded(&mut v, self.seconds as u64, 2);
        v.push(sep);
        push_zero_padded(&mut v, self.millis as u64, 3);
        assert(v@ =~= timecode_text(*self, sep));
        v
    }

    /// The timecode `total` milliseconds after zero; an hour count past
    /// `u32::MAX` wraps, as an `as u32` cast does.
    pub fn from_millis(total: u64) -> (r: Timecode)
        ensures
            r == timecode_at(total as nat),
    {
        let millis = (total % 1_000) as u32;
        let total_seconds = total / 1_000;
        let seconds = (total_seconds % 60) as u32;
        let total_minutes = total_seconds / 60;
        let minutes = (total_minutes % 60) as u32;
        let hours = (total_minutes / 60) as u32;
        proof {
            vstd::arithmetic::div_mod::lemma_div_denominator(total as int, 1000, 60);
            vstd::arithmetic::div_mod::lemma_div_denominator(total as int, 60_000, 60);
        }
        Timecode { hours, minutes, seconds, millis }
    }
}

/// The `Err` text or the `Ok` timecode of a timecode parse, as plain values.
pub open spec fn timecode_result(r: Result<Timecode, String>) -> Result<Timecode, Seq<char>> {
    match r {
        Ok(tc) => Ok(tc),
        Err(m) => Err(m@),
    }
}

/// Checks the parsed fields of the timecode `raw`, in the order SubRip and
/// WebVTT both check them: each field must be a number, then minutes and
/// seconds must be below 60 and milliseconds below 1000.
pub open spec fn timecode_from_fields(
    raw: Seq<char>,
    hours: Option<u32>,
    minutes: Option<u32>,
    seconds: Option<u32>,
    millis: Option<u32>,
) -> Result<Timecode, Seq<char>> {
    if hours is None {
        Err("invalid hours in timecode '"@ + raw + "'"@)
    } else if minutes is None {
        Err("invalid minutes in timecode '"@ + raw + "'"@)
    } else if seconds is None {
        Err("invalid seconds in timecode '"@ + raw + "'"@)
    } else if millis is None {
        Err("invalid milliseconds in timecode '"@ + raw + "'"@)
    } else if minutes->0 >= 60 {
        Err("minutes must be 0-59 in timecode '"@ + raw + "'"@)
    } else if seconds->0 >= 60 {
        Err("seconds must be 0-59 in timecode '"@ + raw + "'"@)
    } else if millis->0 > 999 {
        Err("milliseconds must be 0-999 in timecode '"@ + raw + "'"@)
    } else {
        Ok(Timecode { hours: hours->0, minutes: minutes->0, seconds: seconds->0, millis: millis->0 })
    }
}

/// A SubRip timecode `HH:MM:SS,mmm`, or the reason it is not one.
pub open spec fn srt_timecode(raw: Seq<char>) -> Result<Timecode, Seq<char>> {
    match split_once(raw, seq![',']) {
        None => Err("timecode '"@ + raw + "' is missing the ',mmm' millisecond part"@),
        Some((time_part, millis_part)) => {
            let fields = split(time_part, seq![':']);
            if fields.len() != 3 {
                Err("timecode '"@ + raw + "' must look like HH:MM:SS,mmm"@)
            } else {
                timecode_from_fields(
                    raw,
                    parse_u32(fields[0]),
                    parse_u32(fields[1]),
                    parse_u32(fields[2]),
                    parse_u32(millis_part),
                )
            }
        },
    }
}

/// `timecode_from_fields`, computed.
pub(crate) fn check_timecode_fields(
    raw: &Vec<char>,
    hours: Option<u32>,
    minutes: Option<u32>,
    seconds: Option<u32>,
    millis: Option<u32>,
) -> (r: Result<Timecode, String>)
    ensures
        timecode_result(r) == timecode_from_fields(raw@, hours, minutes, seconds, millis),
{
    match (hours, minutes, seconds, millis) {
        (Some(h), Some(m), Some(s), Some(ms)) => {
            if m >= 60 {
                Err(concat3("minutes must be 0-59 in timecode '", raw, "'"))
            } else if s >= 60 {
                Err(concat3("seconds must be 0-59 in timecode '", raw, "'"))
            } else if ms > 999 {
                Err(concat3("milliseconds must be 0-999 in timecode '", raw, "'"))
            } else {
                Ok(Timecode { hours: h, minutes: m, seconds: s, millis: ms })
            }
        },
        _ => {
            if hours.is_none() {
                Err(concat3("invalid hours in timecode '", raw, "'"))
            } else if minutes.is_none() {
                Err(concat3("invalid minutes in timecode '", raw, "'"))
            } else if seconds.is_none() {
                Err(concat3("invalid seconds in timecode '", raw, "'"))
            } else {
                Err(concat3("invalid milliseconds in timecode '", raw, "'"))
            }
        },
    }
}

/// `srt_timecode`, computed.
pub(crate) fn parse_srt_timecode(raw: &Vec<char>) -> (r: Result<Timecode, String>)
    ensures
        timecode_result(r) == srt_timecode(raw@),
{
    let comma = vec![','];
    assert(comma@ =~= seq![',']);
    match split_once_exec(raw, &comma) {
        None => Err(concat3("timecode '", raw, "' is missing the ',mmm' millisecond part")),
        Some((time_part, millis_part)) => {
            let fields = split_exec(&time_part, ':');
            if fields.len() != 3 {
                return Err(concat3("timecode '", raw, "' must look like HH:MM:SS,mmm"));
            }
            assert(fields@[0]@ == split(time_part@, seq![':'])[0]);
            assert(fields@[1]@ == split(time_part@, seq![':'])[1]);
            assert(fields@[2]@ == split(time_part@, seq![':'])[2]);
            let h = parse_u32_exec(&fields[0]);
            let m = parse_u32_exec(&fields[1]);
            let s = parse_u32_exec(&fields[2]);
            let ms = parse_u32_exec(&millis_part);
            check_timecode_fields(raw, h, m, s, ms)
        },
    }
}

/// One subtitle: its number, when it shows, its lines of text, and the
/// WebVTT identifier it was labelled with, if any.
#[derive(Debug, Clone)]
pub struct Cue {
    pub number: u32,
    pub start: Timecode,
    pub end: Timecode,
    pub text: Vec<String>,
    pub identifier: Option<String>,
}

/// A cue as plain values.
pub struct CueView {
    pub number: u32,
    pub start: Timecode,
    pub end: Timecode,
    pub text: Seq<Seq<char>>,
    pub identifier: Option<Seq<char>>,
}

/// The characters of each string.
pub open spec fn strings_view(v: Seq<String>) -> Seq<Seq<char>> {
    v.map_values(|s: String| s@)
}

/// The characters of an optional string.
pub open spec fn option_string_view(o: Option<String>) -> Option<Seq<char>> {
    match o {
        Some(s) => Some(s@),
        None => None,
    }
}

impl View for Cue {
    type V = CueView;

    open spec fn view(&self) -> CueView {
        CueView {
            number: self.number,
            start: self.start,
            end: self.end,
            text: strings_view(self.text@),
            identifier: option_string_view(self.identifier),
        }
    }
}

/// Cues as plain values.
pub open spec fn cues_view(cues: Seq<Cue>) -> Seq<CueView> {
    cues.map_values(|c: Cue| c@)
}

/// A structural problem at a line of the input (counted from 1).
#[derive(Debug, Clone)]
pub struct ParseError {
    pub line: usize,
    pub message: String,
}

/// A parse error as plain values.
pub struct ErrorView {
    pub line: int,
    pub message: Seq<char>,
}

impl View for ParseError {
    type V = ErrorView;

    open spec fn view(&self) -> ErrorView {
        ErrorView { line: self.line as int, message: self.message@ }
    }
}

/// Parse errors as plain values.
pub open spec fn errors_view(errors: Seq<ParseError>) -> Seq<ErrorView> {
    errors.map_values(|e: ParseError| e@)
}

/// The parse error `message` at line `line`.
pub open spec fn error_at(line: int, message: Seq<char>) -> ErrorView {
    ErrorView { line, message }
}

/// A semantic problem with a cue.
#[derive(Debug, Clone)]
pub struct Issue {
    pub cue_number: u32,
    pub message: String,
}

/// A remark about one cue: an issue found, or a fix made.
pub struct NoteView {
    pub cue_number: u32,
    pub message: Seq<char>,
}

impl View for Issue {
    type V = NoteView;

    open spec fn view(&self) -> NoteView {
        NoteView { cue_number: self.cue_number, message: self.message@ }
    }
}

/// Issues as plain values.
pub open spec fn issues_view(issues: Seq<Issue>) -> Seq<NoteView> {
    issues.map_values(|i: Issue| i@)
}

/// A remark `message` about cue `cue_number`.
pub open spec fn note(cue_number: u32, message: Seq<char>) -> NoteView {
    NoteView { cue_number, message }
}

/// The lines of a file: split on `'\n'` after every `"\r\n"` became `"\n"`.
pub open spec fn input_lines(input: Seq<char>) -> Seq<Seq<char>> {
    split(normalize_newlines(input), seq!['\n'])
}

/// A line that is empty or only whitespace.
pub open spec fn is_blank(line: Seq<char>) -> bool {
    trim(line).len() == 0
}

/// The first blank line at or after `i`, or the end of `lines`.
pub open spec fn next_blank(lines: Seq<Seq<char>>, i: int) -> int
    decreases lines.len() - i,
{
    if 0 <= i < lines.len() && !is_blank(lines[i]) {
        next_blank(lines, i + 1)
    } else {
        i
    }
}

/// `next_blank` lies between `i` and the end, with no blank line before
/// it.
pub proof fn lemma_next_blank(lines: Seq<Seq<char>>, i: int)
    requires
        0 <= i <= lines.len(),
    ensures
        i <= next_blank(lines, i) <= lines.len(),
        forall|k: int| i <= k < next_blank(lines, i) ==> !is_blank(#[trigger] lines[k]),
        next_blank(lines, i) < lines.len() ==> is_blank(lines[next_blank(lines, i)]),
    decreases lines.len() - i,
{
    if i < lines.len() && !is_blank(lines[i]) {
        lemma_next_blank(lines, i + 1);
    }
}

/// The text lines of a cue that start at `from`: every line up to the next
/// blank one, without trailing whitespace.
pub open spec fn text_lines(lines: Seq<Seq<char>>, from: int) -> Seq<Seq<char>> {
    lines.subrange(from, next_blank(lines, from)).map_values(|l: Seq<char>| trim_end(l))
}

/// `-->`, which separates the two timecodes of a timing line.
pub open spec fn arrow() -> Seq<char> {
    seq!['-', '-', '>']
}

/// What reading one block of lines gives: where reading goes on, the cues and
/// errors found, and whether reading stops there.
pub struct Step {
    pub next: int,
    pub cues: Seq<CueView>,
    pub errors: Seq<ErrorView>,
    pub stop: bool,
}

/// The error of a failed timecode parse, at `line`; none for a success.
pub open spec fn timecode_errors(r: Result<Timecode, Seq<char>>, line: int) -> Seq<ErrorView> {
    match r {
        Ok(_) => seq![],
        Err(m) => seq![error_at(line, m)],
    }
}

/// Reading the SubRip block that starts at line index `i`.
#[verifier::opaque]
pub open spec fn srt_block(lines: Seq<Seq<char>>, i: int) -> Step {
    if is_blank(lines[i]) {
        Step { next: i + 1, cues: seq![], errors: seq![], stop: false }
    } else {
        let head = trim(lines[i]);
        match parse_u32(head) {
            None => Step {
                next: next_blank(lines, i),
                cues: seq![],
                errors: seq![
                    error_at(i + 1, "expected a cue number, found '"@ + head + "'"@),
                ],
                stop: false,
            },
            Some(number) => if i + 1 >= lines.len() {
                Step {
                    next: i + 1,
                    cues: seq![],
                    errors: seq![
                        error_at(i + 2, "file ends after a cue number, expected a timing line"@),
                    ],
                    stop: true,
                }
            } else {
                let timing = trim(lines[i + 1]);
                match split_once(timing, arrow()) {
                    None => Step {
                        next: next_blank(lines, i + 1),
                        cues: seq![],
                        errors: seq![
                            error_at(
                                i + 2,
                                "expected a timing line with '-->', found '"@ + timing + "'"@,
                            ),
                        ],
                        stop: false,
                    },
                    Some((start_raw, end_raw)) => {
                        let start = srt_timecode(trim(start_raw));
                        let end = srt_timecode(trim(end_raw));
                        if start is Ok && end is Ok {
                            let text = text_lines(lines, i + 2);
                            Step {
                                next: next_blank(lines, i + 2),
                                cues: seq![
                                    CueView {
                                        number,
                                        start: start->Ok_0,
                                        end: end->Ok_0,
                                        text,
                                        identifier: None,
                                    },
                                ],
                                errors: if text.len() == 0 {
                                    seq![
                                        error_at(
                                            i + 1,
                                            "cue "@ + decimal(number as nat)
                                                + " has a timing line but no text"@,
                                        ),
                                    ]
                                } else {
                                    seq![]
                                },
                                stop: false,
                            }
                        } else {
                            Step {
                                next: next_blank(lines, i + 2),
                                cues: seq![],
                                errors: timecode_errors(start, i + 2) + timecode_errors(end, i + 2),
                                stop: false,
                            }
                        }
                    },
                }
            },
        }
    }
}

/// Reading a block moves forward, and not past the end.
pub proof fn lemma_srt_block_advances(lines: Seq<Seq<char>>, i: int)
    requires
        0 <= i < lines.len(),
    ensures
        i < srt_block(lines, i).next <= lines.len(),
{
    reveal(srt_block);
    lemma_next_blank(lines, i);
    lemma_next_blank(lines, i + 1);
    if i + 2 <= lines.len() {
        lemma_next_blank(lines, i + 2);
    }
}

/// Reading SubRip blocks from line index `i` to the end of `lines`.
pub open spec fn srt_blocks(lines: Seq<Seq<char>>, i: int) -> (Seq<CueView>, Seq<ErrorView>)
    decreases lines.len() - i,
{
    if i < 0 || i >= lines.len() {
        (seq![], seq![])
    } else {
        let step = srt_block(lines, i);
        if step.stop {
            (step.cues, step.errors)
        } else {
            proof {
                lemma_srt_block_advances(lines, i);
            }
            let rest = srt_blocks(lines, step.next);
            (step.cues + rest.0, step.errors + rest.1)
        }
    }
}

/// The cues and the errors that parsing the SubRip text `input` gives.
pub open spec fn srt_parse(input: Seq<char>) -> (Seq<CueView>, Seq<ErrorView>) {
    srt_blocks(input_lines(input), 0)
}

/// Whether `line` is empty or only whitespace.
pub(crate) fn line_is_blank(line: &Vec<char>) -> (b: bool)
    ensures
        b == is_blank(line@),
{
    let t = trimmed(line);
    t.len() == 0
}

/// The first blank line at or after `i`, or the end of `lines`.
pub(crate) fn skip_to_blank(lines: &Vec<Vec<char>>, i: usize) -> (r: usize)
    requires
        i <= lines.len(),
    ensures
        r == next_blank(views(lines@), i as int),
{
    let ghost l = views(lines@);
    let mut k = i;
    while k < lines.len() && !line_is_blank(&lines[k])
        invariant
            i <= k <= lines.len(),
            l == views(lines@),
            next_blank(l, i as int) == next_blank(l, k as int),
        decreases lines.len() - k,
    {
        k += 1;
    }
    k
}

/// The text lines of the cue that starts at `from`, and the index of the
/// line after them.
pub(crate) fn collect_text(lines: &Vec<Vec<char>>, from: usize) -> (r: (Vec<String>, usize))
    requires
        from <= lines.len(),
    ensures
        strings_view(r.0@) == text_lines(views(lines@), from as int),
        r.1 == next_blank(views(lines@), from as int),
{
    let ghost l = views(lines@);
    let mut text: Vec<String> = Vec::new();
    let mut k = from;
    proof {
        lemma_next_blank(l, from as int);
    }
    while k < lines.len() && !line_is_blank(&lines[k])
        invariant
            from <= k <= lines.len(),
            l == views(lines@),
            next_blank(l, from as int) == next_blank(l, k as int),
            from <= next_blank(l, from as int) <= l.len(),
            k <= next_blank(l, from as int),
            strings_view(text@) == l.subrange(from as int, k as int).map_values(
                |x: Seq<char>| trim_end(x),
            ),
        decreases lines.len() - k,
    {
        let t = trimmed_end(&lines[k]);
        let s = string_of(&t);
        proof {
            assert(l[k as int] == lines@[k as int]@);
            lemma_next_blank(l, k + 1);
            assert(l.subrange(from as int, k + 1).map_values(|x: Seq<char>| trim_end(x))
                =~= l.subrange(from as int, k as int).map_values(|x: Seq<char>| trim_end(x)).push(
                trim_end(l[k as int])));
        }
        text.push(s);
        k += 1;
        proof {
            assert(strings_view(text@) =~= l.subrange(from as int, k as int).map_values(
                |x: Seq<char>| trim_end(x),
            ));
        }
    }
    (text, k)
}

/// The errors of a failed timecode parse, at line `line`.
fn push_timecode_error(errors: &mut Vec<ParseError>, r: Result<Timecode, String>, line: usize)
    ensures
        errors_view(final(errors)@) == errors_view(old(errors)@) + timecode_errors(
            timecode_result(r),
            line as int,
        ),
{
    match r {
        Ok(_) => {
            assert(errors_view(errors@) =~= errors_view(old(errors)@) + timecode_errors(
                timecode_result(r),
                line as int,
            ));
        },
        Err(message) => {
            errors.push(ParseError { line, message });
            assert(errors_view(errors@) =~= errors_view(old(errors)@) + timecode_errors(
                timecode_result(r),
                line as int,
            ));
        },
    }
}

/// Reads the SubRip block that starts at line index `i`.
fn srt_parse_block(lines: &Vec<Vec<char>>, i: usize) -> (r: (usize, Vec<Cue>, Vec<ParseError>, bool))
    requires
        i < lines.len(),
        lines.len() < usize::MAX,
    ensures
        r.0 == srt_block(views(lines@), i as int).next,
        cues_view(r.1@) == srt_block(views(lines@), i as int).cues,
        errors_view(r.2@) == srt_block(views(lines@), i as int).errors,
        r.3 == srt_block(views(lines@), i as int).stop,
{
    reveal(srt_block);
    let ghost l = views(lines@);
    let ghost step = srt_block(l, i as int);
    let mut cues: Vec<Cue> = Vec::new();
    let mut errors: Vec<ParseError> = Vec::new();
    assert(l[i as int] == lines@[i as int]@);
    if line_is_blank(&lines[i]) {
        assert(cues_view(cues@) =~= step.cues);
        assert(errors_view(errors@) =~= step.errors);
        return (i + 1, cues, errors, false);
    }
    let head = trimmed(&lines[i]);
    let number = match parse_u32_exec(&head) {
        Some(n) => n,
        None => {
            errors.push(ParseError {
                line: i + 1,
                message: concat3("expected a cue number, found '", &head, "'"),
            });
            let next = skip_to_blank(lines, i);
            assert(cues_view(cues@) =~= step.cues);
            assert(errors_view(errors@) =~= step.errors);
            return (next, cues, errors, false);
        },
    };
    if i + 1 >= lines.len() {
        errors.push(ParseError {
            line: i + 2,
            message: string_from("file ends after a cue number, expected a timing line"),
        });
        assert(cues_view(cues@) =~= step.cues);
        assert(errors_view(errors@) =~= step.errors);
        return (i + 1, cues, errors, true);
    }
    assert(l[i + 1] == lines@[i + 1]@);
    let timing = trimmed(&lines[i + 1]);
    let arrow_chars = vec!['-', '-', '>'];
    assert(arrow_chars@ =~= arrow());
    let (start_raw, end_raw) = match split_once_exec(&timing, &arrow_chars) {
        Some(parts) => parts,
        None => {
            errors.push(ParseError {
                line: i + 2,
                message: concat3("expected a timing line with '-->', found '", &timing, "'"),
            });
            let next = skip_to_blank(lines, i + 1);
            assert(cues_view(cues@) =~= step.cues);
            assert(errors_view(errors@) =~= step.errors);
            return (next, cues, errors, false);
        },
    };
    let start = parse_srt_timecode(&trimmed(&start_raw));
    let end = parse_srt_timecode(&trimmed(&end_raw));
    match (start, end) {
        (Ok(s), Ok(e)) => {
            let (text, next) = collect_text(lines, i + 2);
            if text.len() == 0 {
                let digits = decimal_exec(number as u64);
                errors.push(ParseError {
                    line: i + 1,
                    message: concat3("cue ", &digits, " has a timing line but no text"),
                });
            }
            cues.push(Cue { number, start: s, end: e, text, identifier: None });
            assert(cues_view(cues@) =~= step.cues);
            assert(errors_view(errors@) =~= step.errors);
            (next, cues, errors, false)
        },
        (s, e) => {
            push_timecode_error(&mut errors, s, i + 2);
            push_timecode_error(&mut errors, e, i + 2);
            let next = skip_to_blank(lines, i + 2);
            assert(cues_view(cues@) =~= step.cues);
            assert(errors_view(errors@) =~= step.errors);
            (next, cues, errors, false)
        },
    }
}


/// The lines of `input`, and proof that there are fewer than `usize::MAX`.
pub(crate) fn lines_of(input: &str) -> (r: Vec<Vec<char>>)
    requires
        input@.len() + 2 <= usize::MAX,
    ensures
        views(r@) == input_lines(input@),
        r.len() + 1 <= input@.len() + 2,
{
    let chars = chars_of(input);
    let normalized = normalize_newlines_exec(&chars);
    let lines = split_exec(&normalized, '\n');
    proof {
        lemma_split_len(normalized@, seq!['\n']);
    }
    lines
}

/// Parses raw file contents into cues, collecting parse errors along the
/// way instead of stopping at the first one. A block that fails to parse
/// is skipped and the reader resyncs at the next blank line.
pub fn parse(input: &str) -> (r: (Vec<Cue>, Vec<ParseError>))
    requires
        input@.len() + 2 <= usize::MAX,
    ensures
        cues_view(r.0@) == srt_parse(input@).0,
        errors_view(r.1@) == srt_parse(input@).1,
{
    let lines = lines_of(input);
    let ghost l = views(lines@);
    let mut cues: Vec<Cue> = Vec::new();
    let mut errors: Vec<ParseError> = Vec::new();
    let mut i: usize = 0;
    proof {
        assert(cues_view(cues@) + srt_blocks(l, 0).0 =~= srt_blocks(l, 0).0);
        assert(errors_view(errors@) + srt_blocks(l, 0).1 =~= srt_blocks(l, 0).1);
    }
    while i < lines.len()
        invariant
            l == views(lines@),
            l == input_lines(input@),
            lines.len() < usize::MAX,
            i <= lines.len(),
            srt_blocks(l, 0).0 == cues_view(cues@) + srt_blocks(l, i as int).0,
            srt_blocks(l, 0).1 == errors_view(errors@) + srt_blocks(l, i as int).1,
        decreases lines.len() - i,
    {
        let (next, mut block_cues, mut block_errors, stop) = srt_parse_block(&lines, i);
        proof {
            lemma_srt_block_advances(l, i as int);
        }
        let ghost before_cues = cues@;
        let ghost before_errors = errors@;
        cues.append(&mut block_cues);
        errors.append(&mut block_errors);
        proof {
            let step = srt_block(l, i as int);
            assert(cues_view(cues@) =~= cues_view(before_cues) + step.cues);
            assert(errors_view(errors@) =~= errors_view(before_errors) + step.errors);
            if !stop {
                let rest = srt_blocks(l, next as int);
                assert(cues_view(before_cues) + (step.cues + rest.0) =~= cues_view(cues@)
                    + rest.0);
                assert(errors_view(before_errors) + (step.errors + rest.1) =~= errors_view(
                    errors@,
                ) + rest.1);
            }
        }
        if stop {
            return (cues, errors);
        }
        i = next;
    }
    proof {
        assert(cues_view(cues@) + srt_blocks(l, i as int).0 =~= cues_view(cues@));
        assert(errors_view(errors@) + srt_blocks(l, i as int).1 =~= errors_view(errors@));
    }
    (cues, errors)
}


/// The issues of the cue at index `i`, in the order `validate` reports them:
/// an end that is not after the start, a start before the previous cue's end,
/// and a number that an earlier cue already has.
pub open spec fn cue_issues(cues: Seq<CueView>, i: int) -> Seq<NoteView> {
    let c = cues[i];
    (if c.start.total_millis() >= c.end.total_millis() {
        seq![note(c.number, "start time is not before end time"@)]
    } else {
        seq![]
    }) + (if i > 0 && c.start.total_millis() < cues[i - 1].end.total_millis() {
        seq![note(c.number, "starts before the previous cue ends"@)]
    } else {
        seq![]
    }) + (if exists|j: int| 0 <= j < i && #[trigger] cues[j].number == c.number {
        seq![note(c.number, "duplicate cue number"@)]
    } else {
        seq![]
    })
}

/// The issues of every cue, cue by cue.
pub open spec fn validation_issues(cues: Seq<CueView>) -> Seq<NoteView>
    decreases cues.len(),
{
    if cues.len() == 0 {
        seq![]
    } else {
        validation_issues(cues.drop_last()) + cue_issues(cues, cues.len() - 1)
    }
}

/// Semantic checks that only make sense once every cue has parsed cleanly:
/// ordering, overlap, and duplicate numbering. Structural problems belong
/// in `ParseError`, not here.
pub fn validate(cues: &[Cue]) -> (r: Vec<Issue>)
    ensures
        issues_view(r@) == validation_issues(cues_view(cues@)),
{
    broadcast use vstd::std_specs::hash::group_hash_axioms;

    let ghost cv = cues_view(cues@);
    let mut issues: Vec<Issue> = Vec::new();
    let mut seen_numbers: std::collections::HashSet<u32> = std::collections::HashSet::new();
    let mut previous_end: Option<u64> = None;
    let mut i: usize = 0;
    assert(cv.take(0) =~= Seq::<CueView>::empty());
    while i < cues.len()
        invariant
            i <= cues.len(),
            cv == cues_view(cues@),
            cv.len() == cues@.len(),
            issues_view(issues@) == validation_issues(cv.take(i as int)),
            i == 0 ==> previous_end is None,
            i > 0 ==> previous_end == Some(cv[i - 1].end.total_millis() as u64),
            forall|n: u32|
                seen_numbers@.contains(n) <==> exists|j: int| 0 <= j < i && #[trigger] cv[j].number
                    == n,
        decreases cues.len() - i,
    {
        let cue = &cues[i];
        let ghost before = issues@;
        assert(cv[i as int] == cue@);
        let start = cue.start.to_millis();
        let end = cue.end.to_millis();
        if start >= end {
            issues.push(
                Issue { cue_number: cue.number, message: string_from("start time is not before end time") },
            );
        }
        let ghost mid1 = issues@;
        if let Some(prev_end) = previous_end {
            if start < prev_end {
                issues.push(
                    Issue {
                        cue_number: cue.number,
                        message: string_from("starts before the previous cue ends"),
                    },
                );
            }
        }
        let ghost mid2 = issues@;
        let fresh = seen_numbers.insert(cue.number);
        if !fresh {
            issues.push(Issue { cue_number: cue.number, message: string_from("duplicate cue number") });
        }
        previous_end = Some(end);
        proof {
            let t = cv.take(i + 1);
            assert(t.drop_last() =~= cv.take(i as int));
            assert(t[i as int] == cv[i as int]);
            if i > 0 {
                assert(t[i - 1] == cv[i - 1]);
            }
            assert((exists|j: int| 0 <= j < i && #[trigger] t[j].number == t[i as int].number)
                == (exists|j: int| 0 <= j < i && #[trigger] cv[j].number == cue.number)) by {
                if exists|j: int| 0 <= j < i && #[trigger] cv[j].number == cue.number {
                    let j = choose|j: int| 0 <= j < i && #[trigger] cv[j].number == cue.number;
                    assert(t[j] == cv[j]);
                }
                if exists|j: int| 0 <= j < i && #[trigger] t[j].number == t[i as int].number {
                    let j = choose|j: int| 0 <= j < i && #[trigger] t[j].number == t[i as int].number;
                    assert(t[j] == cv[j]);
                }
            }
            assert(issues_view(issues@) =~= issues_view(before) + cue_issues(t, i as int));
            assert forall|n: u32|
                seen_numbers@.contains(n) <==> exists|j: int|
                    0 <= j < i + 1 && #[trigger] cv[j].number == n by {
                if n == cue.number {
                    assert(cv[i as int].number == n);
                }
            }
        }
        i += 1;
    }
    assert(cv.take(i as int) =~= cv);
    issues
}


/// The numbering issue of the cue at index `i > 0`: its number is not one
/// more than the number before it.
pub open spec fn numbering_issue(cues: Seq<CueView>, i: int) -> Seq<NoteView> {
    let expected = cues[i - 1].number as nat + 1;
    let found = cues[i].number;
    if found != expected {
        seq![
            note(found, "numbering gap: expected "@ + decimal(expected) + ", found "@ + decimal(
                found as nat,
            )),
        ]
    } else {
        seq![]
    }
}

/// The numbering issues of every cue after the first, cue by cue.
pub open spec fn numbering_issues(cues: Seq<CueView>) -> Seq<NoteView>
    decreases cues.len(),
{
    if cues.len() <= 1 {
        seq![]
    } else {
        numbering_issues(cues.drop_last()) + numbering_issue(cues, cues.len() - 1)
    }
}

/// Flags gaps in cue numbering - a cue whose number isn't one more than the
/// previous cue's. Separate from `validate` because most players don't care
/// about numbering at all (they use timing to find the cue to display), so
/// this is opt-in via `--strict` rather than a default issue.
pub fn validate_numbering(cues: &[Cue]) -> (r: Vec<Issue>)
    requires
        forall|i: int| 0 <= i < cues@.len() ==> #[trigger] cues@[i].number < u32::MAX,
    ensures
        issues_view(r@) == numbering_issues(cues_view(cues@)),
{
    let ghost cv = cues_view(cues@);
    let mut issues: Vec<Issue> = Vec::new();
    let mut expected: Option<u32> = None;
    let mut i: usize = 0;
    while i < cues.len()
        invariant
            i <= cues.len(),
            cv == cues_view(cues@),
            cv.len() == cues@.len(),
            forall|k: int| 0 <= k < cues@.len() ==> #[trigger] cues@[k].number < u32::MAX,
            issues_view(issues@) == numbering_issues(cv.take(i as int)),
            i == 0 ==> expected is None,
            i > 0 ==> expected == Some((cv[i - 1].number + 1) as u32),
        decreases cues.len() - i,
    {
        let cue = &cues[i];
        let ghost before = issues@;
        assert(cv[i as int] == cue@);
        if let Some(exp) = expected {
            if cue.number != exp {
                let mut message = string_from("numbering gap: expected ");
                let mut digits: Vec<char> = Vec::new();
                push_decimal(&mut digits, exp as u64);
                push_all(&mut message, &digits);
                push_str(&mut message, ", found ");
                let mut found: Vec<char> = Vec::new();
                push_decimal(&mut found, cue.number as u64);
                push_all(&mut message, &found);
                issues.push(Issue { cue_number: cue.number, message });
            }
        }
        expected = Some(cue.number + 1);
        proof {
            let t = cv.take(i + 1);
            assert(t.drop_last() =~= cv.take(i as int));
            if i > 0 {
                assert(t[i - 1] == cv[i - 1]);
                assert(t[i as int] == cv[i as int]);
                assert(issues_view(issues@) =~= issues_view(before) + numbering_issue(t, i as int));
            } else {
                assert(issues_view(issues@) =~= issues_view(before));
            }
        }
        i += 1;
    }
    assert(cv.take(i as int) =~= cv);
    issues
}


/// A timing change that `fix` made to a cue.
#[derive(Debug, Clone)]
pub struct Fix {
    pub cue_number: u32,
    pub message: String,
}

impl View for Fix {
    type V = NoteView;

    open spec fn view(&self) -> NoteView {
        NoteView { cue_number: self.cue_number, message: self.message@ }
    }
}

/// Fixes as plain values.
pub open spec fn fixes_view(fixes: Seq<Fix>) -> Seq<NoteView> {
    fixes.map_values(|f: Fix| f@)
}

/// `c` with its start moved to `prev_end` when it starts before it, then
/// with its end moved one millisecond past its start when it does not end
/// after it; and the notes of what moved.
pub open spec fn fix_cue(c: CueView, prev_end: Option<nat>) -> (CueView, Seq<NoteView>) {
    let moved = prev_end is Some && c.start.total_millis() < prev_end->0;
    let c1 = if moved {
        CueView { start: timecode_at(prev_end->0), ..c }
    } else {
        c
    };
    let extended = c1.start.total_millis() >= c1.end.total_millis();
    let c2 = if extended {
        CueView { end: timecode_at(c1.start.total_millis() + 1), ..c1 }
    } else {
        c1
    };
    (
        c2,
        (if moved {
            seq![note(c.number, "moved start to the end of the previous cue to remove overlap"@)]
        } else {
            seq![]
        }) + (if extended {
            seq![note(c.number, "extended end time to be after start time"@)]
        } else {
            seq![]
        }),
    )
}

/// Fixing `cues` in order, each after a cue that ended at `prev_end`: the
/// fixed cues and the notes of every fix.
pub open spec fn fix_from(cues: Seq<CueView>, prev_end: Option<nat>) -> (
    Seq<CueView>,
    Seq<NoteView>,
)
    decreases cues.len(),
{
    if cues.len() == 0 {
        (seq![], seq![])
    } else {
        let (c, notes) = fix_cue(cues[0], prev_end);
        let rest = fix_from(cues.drop_first(), Some(c.end.total_millis()));
        (seq![c] + rest.0, notes + rest.1)
    }
}

/// `fix_cue`, applied to `cue` in place; the fixes made.
fn fix_cue_exec(cue: &mut Cue, previous_end: Option<u64>) -> (r: Vec<Fix>)
    ensures
        final(cue)@ == fix_cue(
            old(cue)@,
            match previous_end {
                Some(p) => Some(p as nat),
                None => None,
            },
        ).0,
        fixes_view(r@) == fix_cue(
            old(cue)@,
            match previous_end {
                Some(p) => Some(p as nat),
                None => None,
            },
        ).1,
{
    let mut fixes: Vec<Fix> = Vec::new();
    if let Some(prev_end) = previous_end {
        if cue.start.to_millis() < prev_end {
            cue.start = Timecode::from_millis(prev_end);
            fixes.push(
                Fix {
                    cue_number: cue.number,
                    message: string_from(
                        "moved start to the end of the previous cue to remove overlap",
                    ),
                },
            );
        }
    }
    let ghost mid = fixes@;
    if cue.start.to_millis() >= cue.end.to_millis() {
        cue.end = Timecode::from_millis(cue.start.to_millis() + 1);
        fixes.push(
            Fix {
                cue_number: cue.number,
                message: string_from("extended end time to be after start time"),
            },
        );
    }
    proof {
        let prev = match previous_end {
            Some(p) => Some(p as nat),
            None => None::<nat>,
        };
        assert(fixes_view(fixes@) =~= fix_cue(old(cue)@, prev).1);
        assert(cue@ == fix_cue(old(cue)@, prev).0);
    }
    fixes
}

/// Adjusts cue timings in place to remove the two timing problems
/// `validate` flags that have an unambiguous mechanical fix: an overlap
/// with the previous cue, and a non-positive duration. Duplicate numbering
/// isn't handled here - `format` always renumbers sequentially, so by the
/// time a fixed file is written there's nothing left to fix.
///
/// Fixes are applied in cue order, and each fix feeds into the next: an
/// overlap fix moves `previous_end` forward, which can turn a later cue's
/// start into a new overlap, so cascading pushes resolve in one pass.
pub fn fix(cues: &mut [Cue]) -> (r: Vec<Fix>)
    ensures
        cues_view(final(cues)@) == fix_from(cues_view(old(cues)@), None).0,
        fixes_view(r@) == fix_from(cues_view(old(cues)@), None).1,
{
    let ghost orig = cues_view(cues@);
    let mut fixes: Vec<Fix> = Vec::new();
    let mut previous_end: Option<u64> = None;
    let mut i: usize = 0;
    proof {
        assert(orig.skip(0) =~= orig);
        assert(cues_view(cues@).take(0) + fix_from(orig, None).0 =~= fix_from(orig, None).0);
        assert(fixes_view(fixes@) + fix_from(orig, None).1 =~= fix_from(orig, None).1);
    }
    while i < cues.len()
        invariant
            i <= cues@.len(),
            cues@.len() == orig.len(),
            forall|j: int| i <= j < orig.len() ==> #[trigger] cues@[j]@ == orig[j],
            i == 0 ==> previous_end is None,
            i > 0 ==> previous_end == Some(cues@[i - 1].end.total_millis() as u64),
            fix_from(orig, None).0 == cues_view(cues@).take(i as int) + fix_from(
                orig.skip(i as int),
                match previous_end {
                    Some(p) => Some(p as nat),
                    None => None,
                },
            ).0,
            fix_from(orig, None).1 == fixes_view(fixes@) + fix_from(
                orig.skip(i as int),
                match previous_end {
                    Some(p) => Some(p as nat),
                    None => None,
                },
            ).1,
        decreases orig.len() - i,
    {
        let ghost prev_spec = match previous_end {
            Some(p) => Some(p as nat),
            None => None::<nat>,
        };
        let ghost before_cues = cues@;
        let ghost before_fixes = fixes@;
        let ghost rest = orig.skip(i as int);
        assert(rest[0] == orig[i as int]);
        let mut cue_fixes = fix_cue_exec(&mut cues[i], previous_end);
        fixes.append(&mut cue_fixes);
        previous_end = Some(cues[i].end.to_millis());
        proof {
            let (c, notes) = fix_cue(orig[i as int], prev_spec);
            assert(cues@[i as int]@ == c);
            assert(rest.drop_first() =~= orig.skip(i + 1));
            assert(fixes_view(fixes@) =~= fixes_view(before_fixes) + notes);
            assert(cues_view(cues@).take(i + 1) =~= cues_view(before_cues).take(i as int).push(
                c,
            ));
            assert forall|j: int| i + 1 <= j < orig.len() implies #[trigger] cues@[j]@ == orig[j] by {
                assert(cues@[j] == before_cues[j]);
            }
        }
        i += 1;
    }
    proof {
        assert(orig.skip(i as int) =~= Seq::<CueView>::empty());
        assert(cues_view(cues@).take(i as int) =~= cues_view(cues@));
    }
    fixes
}


/// Lines of text, each followed by `'\n'`.
pub open spec fn text_block(lines: Seq<Seq<char>>) -> Seq<char>
    decreases lines.len(),
{
    if lines.len() == 0 {
        seq![]
    } else {
        text_block(lines.drop_last()) + lines.last() + seq!['\n']
    }
}

/// The printed form of a cue at 1-based `position`: the position, the
/// timing line with `sep` before the milliseconds, the text lines, and a
/// blank line.
pub open spec fn cue_text(position: nat, c: CueView, sep: char) -> Seq<char> {
    decimal(position) + seq!['\n'] + timecode_text(c.start, sep) + " --> "@ + timecode_text(
        c.end,
        sep,
    ) + seq!['\n'] + text_block(c.text) + seq!['\n']
}

/// The printed forms of `cues`, numbered from 1.
pub open spec fn cues_text(cues: Seq<CueView>, sep: char) -> Seq<char>
    decreases cues.len(),
{
    if cues.len() == 0 {
        seq![]
    } else {
        cues_text(cues.drop_last(), sep) + cue_text(cues.len() as nat, cues.last(), sep)
    }
}

/// Appends each of `lines` and a `'\n'` to `out`.
fn write_text_lines(out: &mut String, lines: &Vec<String>)
    ensures
        final(out)@ == old(out)@ + text_block(strings_view(lines@)),
{
    let ghost tv = strings_view(lines@);
    let ghost mid = out@;
    let mut k: usize = 0;
    assert(tv.take(0) =~= Seq::<Seq<char>>::empty());
    while k < lines.len()
        invariant
            k <= lines.len(),
            tv == strings_view(lines@),
            tv.len() == lines@.len(),
            out@ == mid + text_block(tv.take(k as int)),
        decreases lines.len() - k,
    {
        let line = chars_of(lines[k].as_str());
        push_all(out, &line);
        push_char(out, '\n');
        proof {
            assert(tv.take(k + 1).drop_last() =~= tv.take(k as int));
            assert(tv[k as int] == lines@[k as int]@);
            assert(out@ =~= mid + text_block(tv.take(k + 1)));
        }
        k += 1;
    }
    assert(tv.take(k as int) =~= tv);
}

/// Appends the printed form of `cue` at 1-based `position` to `out`.
fn write_cue(out: &mut String, cue: &Cue, position: u64, sep: char)
    ensures
        final(out)@ == old(out)@ + cue_text(position as nat, cue@, sep),
{
    let mut head: Vec<char> = Vec::new();
    push_decimal(&mut head, position);
    head.push('\n');
    push_all(out, &head);
    let s = cue.start.format_with(sep);
    push_all(out, &s);
    push_str(out, " --> ");
    let e = cue.end.format_with(sep);
    push_all(out, &e);
    push_char(out, '\n');
    write_text_lines(out, &cue.text);
    push_char(out, '\n');
    assert(out@ =~= old(out)@ + cue_text(position as nat, cue@, sep));
}

/// Appends the printed forms of `cues` to `out`.
pub(crate) fn write_cues(out: &mut String, cues: &[Cue], sep: char)
    ensures
        final(out)@ == old(out)@ + cues_text(cues_view(cues@), sep),
{
    let ghost cv = cues_view(cues@);
    let ghost start = out@;
    let mut position: usize = 0;
    assert(cv.take(0) =~= Seq::<CueView>::empty());
    while position < cues.len()
        invariant
            position <= cues.len(),
            cv == cues_view(cues@),
            cv.len() == cues@.len(),
            out@ == start + cues_text(cv.take(position as int), sep),
        decreases cues.len() - position,
    {
        assert(cv[position as int] == cues@[position as int]@);
        write_cue(out, &cues[position], (position + 1) as u64, sep);
        proof {
            let t = cv.take(position + 1);
            assert(t.drop_last() =~= cv.take(position as int));
            assert(t.last() == cv[position as int]);
            assert(out@ =~= start + cues_text(cv.take(position + 1), sep));
        }
        position += 1;
    }
    assert(cv.take(position as int) =~= cv);
}

/// Rewrites cues as a normalized .srt document: sequential numbering,
/// zero-padded timestamps, LF line endings, one blank line between cues.
pub fn format(cues: &[Cue]) -> (r: String)
    ensures
        r@ == cues_text(cues_view(cues@), ','),
{
    let mut out = String::new();
    write_cues(&mut out, cues, ',');
    assert(out@ =~= cues_text(cues_view(cues@), ','));
    out
}

} // verus!
