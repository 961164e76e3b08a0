//! What the `validate` and `format` commands compute: which parser reads a
//! file, and the exact text they print, as JSON or for a reader.

use vstd::prelude::*;
use crate::json::{
    opt_string, opt_string_text, push_quoted, quoted, string_array,
    string_array_text,
};
use crate::srt::{
    self, cues_text, cues_view, strings_view, errors_view, fix_from, fixes_view, issues_view, numbering_issues,
    srt_parse, timecode_text, validation_issues, Cue, CueView, ErrorView, Fix, Issue, NoteView,
    ParseError,
};
use crate::text::{chars_of, decimal, push_all, push_number, push_str};
use crate::vtt::{self, vtt_parse};

verus! {

/// `c` with ASCII uppercase letters made lowercase.
pub open spec fn ascii_lower(c: char) -> char {
    if 65 <= c as u32 <= 90 {
        (c as u32 + 32) as char
    } else {
        c
    }
}

/// `str::eq_ignore_ascii_case`.
pub open spec fn eq_ignore_ascii_case(a: Seq<char>, b: Seq<char>) -> bool {
    a.len() == b.len() && forall|i: int| 0 <= i < a.len() ==> ascii_lower(#[trigger] a[i])
        == ascii_lower(b[i])
}

/// The position of the last `c` in `s` (`str::rfind`).
pub open spec fn rfind_char(s: Seq<char>, c: char) -> Option<int>
    decreases s.len(),
{
    if s.len() == 0 {
        None
    } else if s.last() == c {
        Some(s.len() - 1)
    } else {
        rfind_char(s.drop_last(), c)
    }
}

/// The input is WebVTT when `--format vtt` says so, or, without `--format`,
/// when the path's extension is "vtt" in any case. Anything else, stdin
/// included, is SubRip.
pub open spec fn reads_as_vtt(path: Seq<char>, format_override: Option<Seq<char>>) -> bool {
    match format_override {
        Some(f) => f == "vtt"@,
        None => match rfind_char(path, '.') {
            Some(k) => eq_ignore_ascii_case(path.skip(k + 1), "vtt"@),
            None => false,
        },
    }
}

/// The characters of an optional string slice.
pub open spec fn str_option_view(o: Option<&str>) -> Option<Seq<char>> {
    match o {
        Some(s) => Some(s@),
        None => None,
    }
}

/// The cues and errors of `contents`, read as `reads_as_vtt` picks.
pub open spec fn input_parse(
    path: Seq<char>,
    contents: Seq<char>,
    format_override: Option<Seq<char>>,
) -> (Seq<CueView>, Seq<ErrorView>) {
    if reads_as_vtt(path, format_override) {
        vtt_parse(contents)
    } else {
        srt_parse(contents)
    }
}

/// Whether `a` and `b` hold the same characters.
pub fn chars_eq(a: &Vec<char>, b: &Vec<char>) -> (r: bool)
    ensures
        r == (a@ == b@),
{
    if a.len() != b.len() {
        return false;
    }
    let mut k: usize = 0;
    while k < a.len()
        invariant
            k <= a.len() == b.len(),
            forall|j: int| 0 <= j < k ==> a@[j] == b@[j],
        decreases a.len() - k,
    {
        if a[k] != b[k] {
            return false;
        }
        k += 1;
    }
    assert(a@ =~= b@);
    true
}

fn ascii_lower_exec(c: char) -> (r: char)
    ensures
        r == ascii_lower(c),
{
    let u = c as u32;
    if 65 <= u && u <= 90 {
        ((u as u8) + 32) as char
    } else {
        c
    }
}

/// Whether `v[from..]` equals `word` ignoring ASCII case.
fn tail_eq_ignore_ascii_case(v: &Vec<char>, from: usize, word: &Vec<char>) -> (r: bool)
    requires
        from <= v.len(),
    ensures
        r == eq_ignore_ascii_case(v@.skip(from as int), word@),
{
    let ghost t = v@.skip(from as int);
    if v.len() - from != word.len() {
        return false;
    }
    let mut k: usize = 0;
    while k < word.len()
        invariant
            k <= word.len(),
            from + word.len() == v.len(),
            t == v@.skip(from as int),
            forall|j: int| 0 <= j < k ==> ascii_lower(#[trigger] t[j]) == ascii_lower(word@[j]),
        decreases word.len() - k,
    {
        if ascii_lower_exec(v[from + k]) != ascii_lower_exec(word[k]) {
            assert(t[k as int] == v@[from + k]);
            return false;
        }
        assert(t[k as int] == v@[from + k]);
        k += 1;
    }
    true
}

/// The position of the last `c` in `v`.
fn rfind_char_exec(v: &Vec<char>, c: char) -> (r: Option<usize>)
    ensures
        match rfind_char(v@, c) {
            Some(k) => 0 <= k < v@.len() && r == Some(k as usize),
            None => r is None,
        },
{
    let mut k: usize = v.len();
    assert(v@.take(k as int) =~= v@);
    while k > 0
        invariant
            k <= v.len(),
            rfind_char(v@, c) == rfind_char(v@.take(k as int), c),
        decreases k,
    {
        assert(v@.take(k as int).drop_last() =~= v@.take(k - 1));
        if v[k - 1] == c {
            return Some(k - 1);
        }
        k -= 1;
    }
    None
}

/// Whether the input should be read as WebVTT.
pub fn is_vtt_input(path: &str, format_override: Option<&str>) -> (r: bool)
    ensures
        r == reads_as_vtt(path@, str_option_view(format_override)),
{
    let vtt_word = chars_of("vtt");
    match format_override {
        Some(f) => {
            let fv = chars_of(f);
            chars_eq(&fv, &vtt_word)
        },
        None => {
            let p = chars_of(path);
            match rfind_char_exec(&p, '.') {
                Some(idx) => {
                    let len = p.len();
                    assert(idx < len);
                    tail_eq_ignore_ascii_case(&p, idx + 1, &vtt_word)
                },
                None => false,
            }
        },
    }
}

/// Input format is picked from `--format` if given, otherwise from the file
/// extension: ".vtt" parses as WebVTT, anything else (including no
/// extension, e.g. stdin) parses as SubRip.
pub fn parse_input(path: &str, contents: &str, format_override: Option<&str>) -> (r: (
    Vec<Cue>,
    Vec<ParseError>,
))
    requires
        contents@.len() + 2 <= usize::MAX,
        reads_as_vtt(path@, str_option_view(format_override)) ==> vtt_parse(contents@).0.len()
            < u32::MAX,
    ensures
        cues_view(r.0@) == input_parse(path@, contents@, str_option_view(format_override)).0,
        errors_view(r.1@) == input_parse(path@, contents@, str_option_view(format_override)).1,
{
    if is_vtt_input(path, format_override) {
        vtt::parse(contents)
    } else {
        srt::parse(contents)
    }
}

/// Parses the input as `parse_input` does, or gives `None` when it is read as
/// WebVTT and holds more cues than a `u32` can number, where `parse_input`
/// cannot go on.
pub fn try_parse_input(path: &str, contents: &str, format_override: Option<&str>) -> (r: Option<
    (Vec<Cue>, Vec<ParseError>),
>)
    requires
        contents@.len() + 2 <= usize::MAX,
    ensures
        r is None <==> reads_as_vtt(path@, str_option_view(format_override)) && vtt_parse(
            contents@,
        ).0.len() >= u32::MAX,
        r matches Some((cues, errors)) ==> cues_view(cues@) == input_parse(
            path@,
            contents@,
            str_option_view(format_override),
        ).0 && errors_view(errors@) == input_parse(path@, contents@, str_option_view(format_override)).1,
{
    if is_vtt_input(path, format_override) {
        vtt::try_parse(contents)
    } else {
        Some(srt::parse(contents))
    }
}


/// Rows each on their own line, indented by four spaces, each followed by a
/// comma.
pub open spec fn rows_with_commas(rows: Seq<Seq<char>>) -> Seq<char>
    decreases rows.len(),
{
    if rows.len() == 0 {
        seq![]
    } else {
        rows_with_commas(rows.drop_last()) + "    "@ + rows.last() + ",\n"@
    }
}

/// Rows of a JSON array, each on its own line indented by four spaces, with
/// a comma after every row but the last.
pub open spec fn json_rows(rows: Seq<Seq<char>>) -> Seq<char> {
    if rows.len() == 0 {
        seq![]
    } else {
        rows_with_commas(rows.drop_last()) + "    "@ + rows.last() + "\n"@
    }
}

/// A parse error as a JSON object.
pub open spec fn error_json(e: ErrorView) -> Seq<char> {
    "{ \"line\": "@ + decimal(e.line as nat) + ", \"message\": "@ + quoted(e.message) + " }"@
}

/// An issue or a fix as a JSON object.
pub open spec fn note_json(n: NoteView) -> Seq<char> {
    "{ \"cue\": "@ + decimal(n.cue_number as nat) + ", \"message\": "@ + quoted(n.message)
        + " }"@
}

/// A cue at 1-based `index` as a JSON object, its timecodes with `sep`
/// before the milliseconds.
pub open spec fn cue_json(index: nat, c: CueView, sep: char) -> Seq<char> {
    "{ \"index\": "@ + decimal(index) + ", \"start\": \""@ + timecode_text(c.start, sep)
        + "\", \"end\": \""@ + timecode_text(c.end, sep) + "\", \"text\": "@ + string_array_text(
        c.text,
    ) + ", \"identifier\": "@ + opt_string_text(c.identifier) + " }"@
}

/// Parse errors for a reader, one `"  line L: message"` line each.
pub open spec fn error_lines(errors: Seq<ErrorView>) -> Seq<char>
    decreases errors.len(),
{
    if errors.len() == 0 {
        seq![]
    } else {
        error_lines(errors.drop_last()) + "  line "@ + decimal(errors.last().line as nat) + ": "@
            + errors.last().message + "\n"@
    }
}

/// Issues or fixes for a reader, one `"  cue N: message"` line each.
pub open spec fn note_lines(notes: Seq<NoteView>) -> Seq<char>
    decreases notes.len(),
{
    if notes.len() == 0 {
        seq![]
    } else {
        note_lines(notes.drop_last()) + "  cue "@ + decimal(notes.last().cue_number as nat) + ": "@
            + notes.last().message + "\n"@
    }
}

/// Appends `json_rows` of `rows` to `out`.
fn push_json_rows(out: &mut String, rows: &Vec<String>)
    ensures
        final(out)@ == old(out)@ + json_rows(strings_view(rows@)),
{
    let ghost rv = strings_view(rows@);
    let ghost start = out@;
    if rows.len() == 0 {
        assert(out@ =~= start + json_rows(rv));
        return;
    }
    let last = rows.len() - 1;
    let mut k: usize = 0;
    assert(rv.take(0) =~= Seq::<Seq<char>>::empty());
    while k < last
        invariant
            k <= last,
            last + 1 == rows.len(),
            rv == strings_view(rows@),
            rv.len() == rows@.len(),
            out@ == start + rows_with_commas(rv.take(k as int)),
        decreases last - k,
    {
        push_str(out, "    ");
        push_all(out, &chars_of(rows[k].as_str()));
        push_str(out, ",\n");
        proof {
            let t = rv.take(k + 1);
            assert(t.drop_last() =~= rv.take(k as int));
            assert(t.last() == rows@[k as int]@);
            assert(out@ =~= start + rows_with_commas(rv.take(k + 1)));
        }
        k += 1;
    }
    push_str(out, "    ");
    push_all(out, &chars_of(rows[last].as_str()));
    push_str(out, "\n");
    proof {
        assert(rv.drop_last() =~= rv.take(last as int));
        assert(rv.last() == rows@[last as int]@);
        assert(out@ =~= start + json_rows(rv));
    }
}


/// A parse error as a JSON object.
fn error_row(e: &ParseError) -> (r: String)
    ensures
        r@ == error_json(e@),
{
    let mut out = String::new();
    push_str(&mut out, "{ \"line\": ");
    push_number(&mut out, e.line as u64);
    push_str(&mut out, ", \"message\": ");
    push_quoted(&mut out, e.message.as_str());
    push_str(&mut out, " }");
    assert(out@ =~= error_json(e@));
    out
}

/// An issue or a fix as a JSON object.
fn note_row(cue_number: u32, message: &String) -> (r: String)
    ensures
        r@ == note_json(NoteView { cue_number, message: message@ }),
{
    let mut out = String::new();
    push_str(&mut out, "{ \"cue\": ");
    push_number(&mut out, cue_number as u64);
    push_str(&mut out, ", \"message\": ");
    push_quoted(&mut out, message.as_str());
    push_str(&mut out, " }");
    assert(out@ =~= note_json(NoteView { cue_number, message: message@ }));
    out
}

/// A cue at 1-based `index` as a JSON object.
fn cue_row(index: u64, cue: &Cue, sep: char) -> (r: String)
    ensures
        r@ == cue_json(index as nat, cue@, sep),
{
    let mut out = String::new();
    push_str(&mut out, "{ \"index\": ");
    push_number(&mut out, index);
    push_str(&mut out, ", \"start\": \"");
    push_all(&mut out, &cue.start.format_with(sep));
    push_str(&mut out, "\", \"end\": \"");
    push_all(&mut out, &cue.end.format_with(sep));
    push_str(&mut out, "\", \"text\": ");
    let text = string_array(cue.text.as_slice());
    push_all(&mut out, &chars_of(text.as_str()));
    push_str(&mut out, ", \"identifier\": ");
    let label = opt_string(&cue.identifier);
    push_all(&mut out, &chars_of(label.as_str()));
    push_str(&mut out, " }");
    assert(out@ =~= cue_json(index as nat, cue@, sep));
    out
}

/// Every parse error as a JSON object.
fn error_rows(errors: &[ParseError]) -> (r: Vec<String>)
    ensures
        strings_view(r@) == errors_view(errors@).map_values(|e: ErrorView| error_json(e)),
{
    let ghost ev = errors_view(errors@).map_values(|e: ErrorView| error_json(e));
    let mut rows: Vec<String> = Vec::new();
    let mut k: usize = 0;
    while k < errors.len()
        invariant
            k <= errors.len(),
            ev == errors_view(errors@).map_values(|e: ErrorView| error_json(e)),
            ev.len() == errors@.len(),
            strings_view(rows@) == ev.take(k as int),
        decreases errors.len() - k,
    {
        assert(ev[k as int] == error_json(errors@[k as int]@));
        let row = error_row(&errors[k]);
        let ghost before = rows@;
        rows.push(row);
        proof {
            assert(strings_view(rows@) =~= strings_view(before).push(row@));
            assert(ev.take(k + 1) =~= ev.take(k as int).push(ev[k as int]));
        }
        k += 1;
    }
    assert(ev.take(k as int) =~= ev);
    rows
}

/// Every issue as a JSON object.
fn issue_rows(issues: &[Issue]) -> (r: Vec<String>)
    ensures
        strings_view(r@) == issues_view(issues@).map_values(|n: NoteView| note_json(n)),
{
    let ghost nv = issues_view(issues@).map_values(|n: NoteView| note_json(n));
    let mut rows: Vec<String> = Vec::new();
    let mut k: usize = 0;
    while k < issues.len()
        invariant
            k <= issues.len(),
            nv == issues_view(issues@).map_values(|n: NoteView| note_json(n)),
            nv.len() == issues@.len(),
            strings_view(rows@) == nv.take(k as int),
        decreases issues.len() - k,
    {
        assert(nv[k as int] == note_json(issues@[k as int]@));
        let row = note_row(issues[k].cue_number, &issues[k].message);
        let ghost before = rows@;
        rows.push(row);
        proof {
            assert(strings_view(rows@) =~= strings_view(before).push(row@));
            assert(nv.take(k + 1) =~= nv.take(k as int).push(nv[k as int]));
        }
        k += 1;
    }
    assert(nv.take(k as int) =~= nv);
    rows
}

/// Every fix as a JSON object.
fn fix_rows(fixes: &[Fix]) -> (r: Vec<String>)
    ensures
        strings_view(r@) == fixes_view(fixes@).map_values(|n: NoteView| note_json(n)),
{
    let ghost nv = fixes_view(fixes@).map_values(|n: NoteView| note_json(n));
    let mut rows: Vec<String> = Vec::new();
    let mut k: usize = 0;
    while k < fixes.len()
        invariant
            k <= fixes.len(),
            nv == fixes_view(fixes@).map_values(|n: NoteView| note_json(n)),
            nv.len() == fixes@.len(),
            strings_view(rows@) == nv.take(k as int),
        decreases fixes.len() - k,
    {
        assert(nv[k as int] == note_json(fixes@[k as int]@));
        let row = note_row(fixes[k].cue_number, &fixes[k].message);
        let ghost before = rows@;
        rows.push(row);
        proof {
            assert(strings_view(rows@) =~= strings_view(before).push(row@));
            assert(nv.take(k + 1) =~= nv.take(k as int).push(nv[k as int]));
        }
        k += 1;
    }
    assert(nv.take(k as int) =~= nv);
    rows
}

/// The JSON objects of `cues`, at 1-based indices.
pub open spec fn cue_rows_text(cues: Seq<CueView>, sep: char) -> Seq<Seq<char>> {
    Seq::new(cues.len(), |i: int| cue_json((i + 1) as nat, cues[i], sep))
}

/// Every cue as a JSON object.
fn cue_rows(cues: &[Cue], sep: char) -> (r: Vec<String>)
    ensures
        strings_view(r@) == cue_rows_text(cues_view(cues@), sep),
{
    let ghost cv = cue_rows_text(cues_view(cues@), sep);
    let mut rows: Vec<String> = Vec::new();
    let mut k: usize = 0;
    while k < cues.len()
        invariant
            k <= cues.len(),
            cv == cue_rows_text(cues_view(cues@), sep),
            cv.len() == cues@.len(),
            strings_view(rows@) == cv.take(k as int),
        decreases cues.len() - k,
    {
        assert(cv[k as int] == cue_json((k + 1) as nat, cues@[k as int]@, sep));
        let row = cue_row((k + 1) as u64, &cues[k], sep);
        let ghost before = rows@;
        rows.push(row);
        proof {
            assert(strings_view(rows@) =~= strings_view(before).push(row@));
            assert(cv.take(k + 1) =~= cv.take(k as int).push(cv[k as int]));
        }
        k += 1;
    }
    assert(cv.take(k as int) =~= cv);
    rows
}

/// Appends `error_lines` of `errors` to `out`.
fn push_error_lines(out: &mut String, errors: &[ParseError])
    ensures
        final(out)@ == old(out)@ + error_lines(errors_view(errors@)),
{
    let ghost ev = errors_view(errors@);
    let ghost start = out@;
    let mut k: usize = 0;
    assert(ev.take(0) =~= Seq::<ErrorView>::empty());
    while k < errors.len()
        invariant
            k <= errors.len(),
            ev == errors_view(errors@),
            ev.len() == errors@.len(),
            out@ == start + error_lines(ev.take(k as int)),
        decreases errors.len() - k,
    {
        push_str(out, "  line ");
        push_number(out, errors[k].line as u64);
        push_str(out, ": ");
        push_all(out, &chars_of(errors[k].message.as_str()));
        push_str(out, "\n");
        proof {
            let t = ev.take(k + 1);
            assert(t.drop_last() =~= ev.take(k as int));
            assert(t.last() == errors@[k as int]@);
            assert(out@ =~= start + error_lines(ev.take(k + 1)));
        }
        k += 1;
    }
    assert(ev.take(k as int) =~= ev);
}

/// Appends `"  cue N: message"` for one issue or fix to `out`.
fn push_note_line(out: &mut String, cue_number: u32, message: &String)
    ensures
        final(out)@ == old(out)@ + "  cue "@ + decimal(cue_number as nat) + ": "@ + message@
            + "\n"@,
{
    push_str(out, "  cue ");
    push_number(out, cue_number as u64);
    push_str(out, ": ");
    push_all(out, &chars_of(message.as_str()));
    push_str(out, "\n");
}

/// Appends `note_lines` of `issues` to `out`.
fn push_issue_lines(out: &mut String, issues: &[Issue])
    ensures
        final(out)@ == old(out)@ + note_lines(issues_view(issues@)),
{
    let ghost nv = issues_view(issues@);
    let ghost start = out@;
    let mut k: usize = 0;
    assert(nv.take(0) =~= Seq::<NoteView>::empty());
    while k < issues.len()
        invariant
            k <= issues.len(),
            nv == issues_view(issues@),
            nv.len() == issues@.len(),
            out@ == start + note_lines(nv.take(k as int)),
        decreases issues.len() - k,
    {
        push_note_line(out, issues[k].cue_number, &issues[k].message);
        proof {
            let t = nv.take(k + 1);
            assert(t.drop_last() =~= nv.take(k as int));
            assert(t.last() == issues@[k as int]@);
            assert(out@ =~= start + note_lines(nv.take(k + 1)));
        }
        k += 1;
    }
    assert(nv.take(k as int) =~= nv);
}

/// Appends `note_lines` of `fixes` to `out`.
fn push_fix_lines(out: &mut String, fixes: &[Fix])
    ensures
        final(out)@ == old(out)@ + note_lines(fixes_view(fixes@)),
{
    let ghost nv = fixes_view(fixes@);
    let ghost start = out@;
    let mut k: usize = 0;
    assert(nv.take(0) =~= Seq::<NoteView>::empty());
    while k < fixes.len()
        invariant
            k <= fixes.len(),
            nv == fixes_view(fixes@),
            nv.len() == fixes@.len(),
            out@ == start + note_lines(nv.take(k as int)),
        decreases fixes.len() - k,
    {
        push_note_line(out, fixes[k].cue_number, &fixes[k].message);
        proof {
            let t = nv.take(k + 1);
            assert(t.drop_last() =~= nv.take(k as int));
            assert(t.last() == fixes@[k as int]@);
            assert(out@ =~= start + note_lines(nv.take(k + 1)));
        }
        k += 1;
    }
    assert(nv.take(k as int) =~= nv);
}


/// The issues `validate` reports: none when the file has parse errors,
/// otherwise the semantic issues, then (with `--strict`) the numbering gaps.
pub open spec fn found_issues(cues: Seq<CueView>, errors: Seq<ErrorView>, strict: bool) -> Seq<
    NoteView,
> {
    if errors.len() == 0 {
        validation_issues(cues) + if strict {
            numbering_issues(cues)
        } else {
            seq![]
        }
    } else {
        seq![]
    }
}

/// `--strict` only adds the numbering gaps, after the other issues; a file
/// with parse errors gets no issues either way.
pub proof fn strict_adds_only_numbering_gaps(cues: Seq<CueView>, errors: Seq<ErrorView>)
    ensures
        found_issues(cues, errors, false) == (if errors.len() == 0 {
            validation_issues(cues)
        } else {
            Seq::<NoteView>::empty()
        }),
        found_issues(cues, errors, true) == found_issues(cues, errors, false) + (if errors.len()
            == 0 {
            numbering_issues(cues)
        } else {
            Seq::<NoteView>::empty()
        }),
{
    assert(validation_issues(cues) + Seq::<NoteView>::empty() =~= validation_issues(cues));
    assert(Seq::<NoteView>::empty() + Seq::<NoteView>::empty() =~= Seq::<NoteView>::empty());
}

/// A file is valid when it has neither parse errors nor issues.
pub open spec fn is_valid(cues: Seq<CueView>, errors: Seq<ErrorView>, strict: bool) -> bool {
    errors.len() == 0 && found_issues(cues, errors, strict).len() == 0
}

/// `true` or `false`, as JSON writes them.
pub open spec fn bool_text(b: bool) -> Seq<char> {
    if b {
        "true"@
    } else {
        "false"@
    }
}

/// What `validate` prints for the file at `path`.
pub open spec fn validate_text(
    path: Seq<char>,
    cues: Seq<CueView>,
    errors: Seq<ErrorView>,
    json: bool,
    strict: bool,
) -> Seq<char> {
    let issues = found_issues(cues, errors, strict);
    let ok = is_valid(cues, errors, strict);
    if json {
        "{\n  \"file\": "@ + quoted(path) + ",\n  \"valid\": "@ + bool_text(ok)
            + ",\n  \"cue_count\": "@ + decimal(cues.len()) + ",\n  \"errors\": [\n"@ + json_rows(
            errors.map_values(|e: ErrorView| error_json(e)),
        ) + "  ],\n  \"issues\": [\n"@ + json_rows(
            issues.map_values(|n: NoteView| note_json(n)),
        ) + "  ]\n}\n"@
    } else if ok {
        path + ": valid ("@ + decimal(cues.len()) + " cues)\n"@
    } else {
        path + ": "@ + decimal(errors.len()) + " error(s), "@ + decimal(issues.len())
            + " issue(s)\n"@ + error_lines(errors) + note_lines(issues)
    }
}

/// The report of the `validate` command for `path`, whose parse gave `cues`
/// and `errors`: the text to print, and whether the file is valid.
pub fn validate_output(
    path: &str,
    cues: &[Cue],
    errors: &[ParseError],
    json_mode: bool,
    strict_mode: bool,
) -> (r: (String, bool))
    requires
        strict_mode && errors@.len() == 0 ==> forall|i: int|
            0 <= i < cues@.len() ==> #[trigger] cues@[i].number < u32::MAX,
    ensures
        r.0@ == validate_text(path@, cues_view(cues@), errors_view(errors@), json_mode, strict_mode),
        r.1 == is_valid(cues_view(cues@), errors_view(errors@), strict_mode),
{
    let ghost cv = cues_view(cues@);
    let ghost ev = errors_view(errors@);
    let mut issues: Vec<Issue> = if errors.len() == 0 {
        srt::validate(cues)
    } else {
        Vec::new()
    };
    if errors.len() == 0 && strict_mode {
        let mut gaps = srt::validate_numbering(cues);
        let ghost before = issues@;
        issues.append(&mut gaps);
        assert(issues_view(issues@) =~= issues_view(before) + numbering_issues(cv));
    }
    let ghost iv = issues_view(issues@);
    assert(iv =~= found_issues(cv, ev, strict_mode));
    let ok = errors.len() == 0 && issues.len() == 0;
    let mut out = String::new();
    if json_mode {
        push_str(&mut out, "{\n  \"file\": ");
        push_quoted(&mut out, path);
        push_str(&mut out, ",\n  \"valid\": ");
        if ok {
            push_str(&mut out, "true");
        } else {
            push_str(&mut out, "false");
        }
        push_str(&mut out, ",\n  \"cue_count\": ");
        push_number(&mut out, cues.len() as u64);
        push_str(&mut out, ",\n  \"errors\": [\n");
        push_json_rows(&mut out, &error_rows(errors));
        push_str(&mut out, "  ],\n  \"issues\": [\n");
        push_json_rows(&mut out, &issue_rows(issues.as_slice()));
        push_str(&mut out, "  ]\n}\n");
    } else if ok {
        push_all(&mut out, &chars_of(path));
        push_str(&mut out, ": valid (");
        push_number(&mut out, cues.len() as u64);
        push_str(&mut out, " cues)\n");
    } else {
        push_all(&mut out, &chars_of(path));
        push_str(&mut out, ": ");
        push_number(&mut out, errors.len() as u64);
        push_str(&mut out, " error(s), ");
        push_number(&mut out, issues.len() as u64);
        push_str(&mut out, " issue(s)\n");
        push_error_lines(&mut out, errors);
        push_issue_lines(&mut out, issues.as_slice());
    }
    assert(out@ =~= validate_text(path@, cv, ev, json_mode, strict_mode));
    (out, ok)
}

/// What `format` prints on stderr when the file has parse errors.
pub open spec fn refusal_text(path: Seq<char>, errors: Seq<ErrorView>) -> Seq<char> {
    path + " has "@ + decimal(errors.len()) + " parse error(s), refusing to format:\n"@
        + error_lines(errors)
}

/// The message of the `format` command when it refuses a file with parse
/// errors.
pub fn refusal_message(path: &str, errors: &[ParseError]) -> (r: String)
    ensures
        r@ == refusal_text(path@, errors_view(errors@)),
{
    let mut out = String::new();
    push_all(&mut out, &chars_of(path));
    push_str(&mut out, " has ");
    push_number(&mut out, errors.len() as u64);
    push_str(&mut out, " parse error(s), refusing to format:\n");
    push_error_lines(&mut out, errors);
    assert(out@ =~= refusal_text(path@, errors_view(errors@)));
    out
}

/// Whether `--to` asks for WebVTT output.
pub open spec fn wants_vtt(output_format: Option<Seq<char>>) -> bool {
    output_format == Some("vtt"@)
}

/// The cues that `format` writes and the fixes it made: fixed with `--fix`,
/// as parsed otherwise.
pub open spec fn formatted_cues(cues: Seq<CueView>, fix_mode: bool) -> (
    Seq<CueView>,
    Seq<NoteView>,
) {
    if fix_mode {
        fix_from(cues, None)
    } else {
        (cues, seq![])
    }
}

/// What `format` prints on stdout.
pub open spec fn format_stdout(
    path: Seq<char>,
    cues: Seq<CueView>,
    json: bool,
    fix_mode: bool,
    to_vtt: bool,
) -> Seq<char> {
    let (fixed, fixes) = formatted_cues(cues, fix_mode);
    if json {
        "{\n  \"file\": "@ + quoted(path) + ",\n  \"cues\": [\n"@ + json_rows(
            cue_rows_text(fixed, if to_vtt { '.' } else { ',' }),
        ) + "  ],\n  \"fixes\": [\n"@ + json_rows(fixes.map_values(|n: NoteView| note_json(n)))
            + "  ]\n}\n"@
    } else if to_vtt {
        "WEBVTT\n\n"@ + cues_text(fixed, '.')
    } else {
        cues_text(fixed, ',')
    }
}

/// What `format` prints on stderr: the fixes it made, unless it writes JSON.
pub open spec fn format_stderr(path: Seq<char>, cues: Seq<CueView>, json: bool, fix_mode: bool) -> Seq<
    char,
> {
    let fixes = formatted_cues(cues, fix_mode).1;
    if json || fixes.len() == 0 {
        seq![]
    } else {
        path + ": fixed "@ + decimal(fixes.len()) + " timing issue(s):\n"@ + note_lines(fixes)
    }
}

/// The output of the `format` command for `path`, whose parse gave `cues`
/// and no errors: what it prints on stdout, then on stderr.
pub fn format_output(
    path: &str,
    cues: Vec<Cue>,
    json_mode: bool,
    fix_mode: bool,
    output_format: Option<&str>,
) -> (r: (String, String))
    ensures
        r.0@ == format_stdout(
            path@,
            cues_view(cues@),
            json_mode,
            fix_mode,
            wants_vtt(str_option_view(output_format)),
        ),
        r.1@ == format_stderr(path@, cues_view(cues@), json_mode, fix_mode),
{
    let ghost original = cues_view(cues@);
    let mut cues = cues;
    let fixes = if fix_mode {
        srt::fix(cues.as_mut_slice())
    } else {
        Vec::new()
    };
    assert(cues_view(cues@) == formatted_cues(original, fix_mode).0);
    assert(fixes_view(fixes@) =~= formatted_cues(original, fix_mode).1);
    let to_vtt = match output_format {
        Some(f) => chars_eq(&chars_of(f), &chars_of("vtt")),
        None => false,
    };
    assert(to_vtt == wants_vtt(str_option_view(output_format)));
    let mut out = String::new();
    let mut err = String::new();
    if json_mode {
        let sep = if to_vtt {
            '.'
        } else {
            ','
        };
        push_str(&mut out, "{\n  \"file\": ");
        push_quoted(&mut out, path);
        push_str(&mut out, ",\n  \"cues\": [\n");
        push_json_rows(&mut out, &cue_rows(cues.as_slice(), sep));
        push_str(&mut out, "  ],\n  \"fixes\": [\n");
        push_json_rows(&mut out, &fix_rows(fixes.as_slice()));
        push_str(&mut out, "  ]\n}\n");
    } else {
        if fixes.len() > 0 {
            push_all(&mut err, &chars_of(path));
            push_str(&mut err, ": fixed ");
            push_number(&mut err, fixes.len() as u64);
            push_str(&mut err, " timing issue(s):\n");
            push_fix_lines(&mut err, fixes.as_slice());
        }
        if to_vtt {
            out = vtt::format(cues.as_slice());
        } else {
            out = srt::format(cues.as_slice());
        }
    }
    assert(out@ =~= format_stdout(
        path@,
        original,
        json_mode,
        fix_mode,
        wants_vtt(str_option_view(output_format)),
    ));
    assert(err@ =~= format_stderr(path@, original, json_mode, fix_mode));
    (out, err)
}

/// What the `format` command prints for `path`, whose parse gave `cues` and
/// `errors`: on stdout, on stderr, and whether it succeeded. A file with
/// parse errors is refused: nothing on stdout, the errors on stderr.
pub open spec fn format_command_text(
    path: Seq<char>,
    cues: Seq<CueView>,
    errors: Seq<ErrorView>,
    json: bool,
    fix_mode: bool,
    to_vtt: bool,
) -> (Seq<char>, Seq<char>, bool) {
    if errors.len() > 0 {
        (seq![], refusal_text(path, errors), false)
    } else {
        (format_stdout(path, cues, json, fix_mode, to_vtt), format_stderr(path, cues, json, fix_mode), true)
    }
}

/// The `format` command for `path`, whose parse gave `cues` and `errors`:
/// what it prints on stdout, then on stderr, and whether it succeeded.
pub fn format_command(
    path: &str,
    cues: Vec<Cue>,
    errors: &[ParseError],
    json_mode: bool,
    fix_mode: bool,
    output_format: Option<&str>,
) -> (r: (String, String, bool))
    ensures
        (r.0@, r.1@, r.2) == format_command_text(
            path@,
            cues_view(cues@),
            errors_view(errors@),
            json_mode,
            fix_mode,
            wants_vtt(str_option_view(output_format)),
        ),
{
    if errors.len() > 0 {
        (String::new(), refusal_message(path, errors), false)
    } else {
        let (out, err) = format_output(path, cues, json_mode, fix_mode, output_format);
        (out, err, true)
    }
}

} // verus!
