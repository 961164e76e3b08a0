//! Printing cues and reading the text back gives the same cues.

use vstd::prelude::*;
use crate::srt::{
    arrow, cue_text, cues_text, input_lines, is_blank, next_blank, pad2, srt_block, srt_blocks,
    srt_parse, srt_timecode, text_block, text_lines, timecode_text, CueView, ErrorView, Timecode,
};
use crate::text::{
    all_digits, contains, decimal, digit_char, digit_value, digits_value, find, first_word,
    is_digit, is_ws, lemma_find_is, lemma_find_none, lemma_matches_single, lemma_take_until_ws,
    lemma_trim_end_take, lemma_trim_start_skip, matches_at, normalize_newlines, parse_u32, split,
    split_once, starts_with, trim, trim_end, trim_start, unsigned_digits, zero_padded,
};
use crate::vtt::{first_nonblank, vtt_block, vtt_blocks, vtt_parse, vtt_timecode, vtt_timing};

verus! {

proof fn lemma_digit_char(d: nat)
    requires
        d < 10,
    ensures
        is_digit(digit_char(d)),
        digit_value(digit_char(d)) == d,
        !is_ws(digit_char(d)),
{
}

/// The decimal representation of `n` is a non-empty string of digits that
/// spells `n`.
pub proof fn lemma_decimal(n: nat)
    ensures
        decimal(n).len() >= 1,
        all_digits(decimal(n)),
        digits_value(decimal(n)) == n,
    decreases n,
{
    if n < 10 {
        lemma_digit_char(n);
        assert(decimal(n).drop_last() =~= Seq::<char>::empty());
        assert(digits_value(Seq::<char>::empty()) == 0);
        assert(decimal(n).last() == digit_char(n));
        assert(digits_value(decimal(n)) == digits_value(decimal(n).drop_last()) * 10 + digit_value(
            decimal(n).last(),
        ));
    } else {
        lemma_decimal(n / 10);
        lemma_digit_char(n % 10);
        assert(decimal(n).drop_last() =~= decimal(n / 10));
        assert(decimal(n).last() == digit_char(n % 10));
        assert(n == (n / 10) * 10 + n % 10);
        assert(digits_value(decimal(n)) == digits_value(decimal(n / 10)) * 10 + digit_value(
            digit_char(n % 10),
        ));
        assert forall|i: int| 0 <= i < decimal(n).len() implies is_digit(#[trigger] decimal(n)[i]) by {
            if i < decimal(n).len() - 1 {
                assert(decimal(n)[i] == decimal(n / 10)[i]);
            }
        }
    }
}


proof fn lemma_zeros_value(z: Seq<char>)
    requires
        forall|i: int| 0 <= i < z.len() ==> z[i] == '0',
    ensures
        digits_value(z) == 0,
    decreases z.len(),
{
    if z.len() > 0 {
        lemma_zeros_value(z.drop_last());
    }
}

proof fn lemma_zeros_prefix(z: Seq<char>, d: Seq<char>)
    requires
        forall|i: int| 0 <= i < z.len() ==> z[i] == '0',
    ensures
        digits_value(z + d) == digits_value(d),
    decreases d.len(),
{
    if d.len() == 0 {
        assert(z + d =~= z);
        lemma_zeros_value(z);
    } else {
        lemma_zeros_prefix(z, d.drop_last());
        assert((z + d).drop_last() =~= z + d.drop_last());
        assert((z + d).last() == d.last());
    }
}

/// `n` zero-padded is a non-empty string of digits, at least `width` long,
/// that spells `n`.
pub proof fn lemma_zero_padded(n: nat, width: nat)
    ensures
        zero_padded(n, width).len() >= 1,
        zero_padded(n, width).len() >= width,
        all_digits(zero_padded(n, width)),
        digits_value(zero_padded(n, width)) == n,
{
    lemma_decimal(n);
    let d = decimal(n);
    if d.len() < width {
        let z = Seq::new((width - d.len()) as nat, |_i: int| '0');
        lemma_zeros_prefix(z, d);
        assert forall|i: int| 0 <= i < zero_padded(n, width).len() implies is_digit(
            #[trigger] zero_padded(n, width)[i],
        ) by {
            if i >= z.len() {
                assert(zero_padded(n, width)[i] == d[i - z.len()]);
            }
        }
    }
}

/// A non-empty string of digits reads as the number it spells, when that
/// fits in a `u32`.
pub proof fn lemma_parse_u32_digits(d: Seq<char>)
    requires
        d.len() > 0,
        all_digits(d),
        digits_value(d) <= u32::MAX,
    ensures
        parse_u32(d) == Some(digits_value(d) as u32),
{
    assert(is_digit(d[0]));
    assert(unsigned_digits(d) == d);
}

/// `n` zero-padded reads back as `n`.
pub proof fn lemma_parse_zero_padded(n: u32, width: nat)
    ensures
        parse_u32(zero_padded(n as nat, width)) == Some(n),
{
    lemma_zero_padded(n as nat, width);
    lemma_parse_u32_digits(zero_padded(n as nat, width));
}

/// Text that neither starts nor ends with whitespace is its own trim.
pub proof fn lemma_trim_id(s: Seq<char>)
    requires
        s.len() > 0 ==> !is_ws(s[0]) && !is_ws(s.last()),
    ensures
        trim_start(s) == s,
        trim_end(s) == s,
        trim(s) == s,
{
    lemma_trim_start_skip(s, 0);
    assert(s.skip(0) =~= s);
    lemma_trim_end_take(s, s.len() as int);
    assert(s.take(s.len() as int) =~= s);
}


/// The leftmost `c` in `a + [c] + b`, where `a` has none, is right after `a`.
pub proof fn lemma_find_after(a: Seq<char>, c: char, b: Seq<char>)
    requires
        forall|i: int| 0 <= i < a.len() ==> a[i] != c,
    ensures
        find(a + seq![c] + b, seq![c]) == Some(a.len() as int),
{
    let s = a + seq![c] + b;
    assert forall|j: int| 0 <= j < a.len() implies !matches_at(s, seq![c], j) by {
        lemma_matches_single(s, c, j);
        assert(s[j] == a[j]);
    }
    lemma_matches_single(s, c, a.len() as int);
    lemma_find_is(s, seq![c], a.len() as int);
}

/// Text without `c` splits on `c` into itself alone.
pub proof fn lemma_split_none(a: Seq<char>, c: char)
    requires
        forall|i: int| 0 <= i < a.len() ==> a[i] != c,
    ensures
        split(a, seq![c]) == seq![a],
{
    assert forall|j: int| !matches_at(a, seq![c], j) by {
        lemma_matches_single(a, c, j);
    }
    lemma_find_none(a, seq![c]);
}

/// Splitting `a + [c] + b` on `c`, where `a` has no `c`, gives `a` and then
/// the pieces of `b`.
pub proof fn lemma_split_after(a: Seq<char>, c: char, b: Seq<char>)
    requires
        forall|i: int| 0 <= i < a.len() ==> a[i] != c,
    ensures
        split(a + seq![c] + b, seq![c]) == seq![a] + split(b, seq![c]),
{
    let s = a + seq![c] + b;
    lemma_find_after(a, c, b);
    assert(s.take(a.len() as int) =~= a);
    assert(s.skip(a.len() as int + 1) =~= b);
}

proof fn lemma_digits_avoid(d: Seq<char>, c: char)
    requires
        all_digits(d),
        !is_digit(c),
    ensures
        forall|i: int| 0 <= i < d.len() ==> d[i] != c,
{
    assert forall|i: int| 0 <= i < d.len() implies d[i] != c by {
        assert(is_digit(d[i]));
    }
}

/// The hours, minutes and seconds of a printed timecode.
pub open spec fn hms_text(tc: Timecode) -> Seq<char> {
    pad2(tc.hours) + seq![':'] + pad2(tc.minutes) + seq![':'] + pad2(tc.seconds)
}

proof fn lemma_timecode_text_parts(tc: Timecode, sep: char)
    requires
        !is_digit(sep),
        sep != ':',
    ensures
        timecode_text(tc, sep) == hms_text(tc) + seq![sep] + zero_padded(tc.millis as nat, 3),
        find(timecode_text(tc, sep), seq![sep]) == Some(hms_text(tc).len() as int),
        split(hms_text(tc), seq![':']) == seq![pad2(tc.hours), pad2(tc.minutes), pad2(tc.seconds)],
        parse_u32(pad2(tc.hours)) == Some(tc.hours),
        parse_u32(pad2(tc.minutes)) == Some(tc.minutes),
        parse_u32(pad2(tc.seconds)) == Some(tc.seconds),
        parse_u32(zero_padded(tc.millis as nat, 3)) == Some(tc.millis),
{
    let h = pad2(tc.hours);
    let m = pad2(tc.minutes);
    let s = pad2(tc.seconds);
    lemma_zero_padded(tc.hours as nat, 2);
    lemma_zero_padded(tc.minutes as nat, 2);
    lemma_zero_padded(tc.seconds as nat, 2);
    lemma_parse_zero_padded(tc.hours, 2);
    lemma_parse_zero_padded(tc.minutes, 2);
    lemma_parse_zero_padded(tc.seconds, 2);
    lemma_parse_zero_padded(tc.millis, 3);
    assert(timecode_text(tc, sep) =~= hms_text(tc) + seq![sep] + zero_padded(tc.millis as nat, 3));
    lemma_digits_avoid(h, sep);
    lemma_digits_avoid(m, sep);
    lemma_digits_avoid(s, sep);
    lemma_digits_avoid(h, ':');
    lemma_digits_avoid(m, ':');
    lemma_digits_avoid(s, ':');
    let hms = hms_text(tc);
    assert forall|i: int| 0 <= i < hms.len() implies hms[i] != sep by {
        if i < h.len() {
            assert(hms[i] == h[i]);
        } else if i == h.len() {
        } else if i < h.len() + 1 + m.len() {
            assert(hms[i] == m[i - h.len() - 1]);
        } else if i == h.len() + 1 + m.len() {
        } else {
            assert(hms[i] == s[i - h.len() - 2 - m.len()]);
        }
    }
    lemma_find_after(hms, sep, zero_padded(tc.millis as nat, 3));
    assert(hms =~= h + seq![':'] + (m + seq![':'] + s));
    lemma_split_after(h, ':', m + seq![':'] + s);
    lemma_split_after(m, ':', s);
    lemma_split_none(s, ':');
    assert(seq![h] + (seq![m] + seq![s]) =~= seq![h, m, s]);
}

/// A SubRip timecode printed and read back is unchanged.
pub proof fn lemma_srt_timecode_text(tc: Timecode)
    requires
        tc.is_canonical(),
    ensures
        srt_timecode(timecode_text(tc, ',')) == Ok::<Timecode, Seq<char>>(tc),
{
    lemma_timecode_text_parts(tc, ',');
    let t = timecode_text(tc, ',');
    assert(t.take(hms_text(tc).len() as int) =~= hms_text(tc));
    assert(t.skip(hms_text(tc).len() as int + 1) =~= zero_padded(tc.millis as nat, 3));
}

/// A WebVTT timecode printed and read back is unchanged.
pub proof fn lemma_vtt_timecode_text(tc: Timecode)
    requires
        tc.is_canonical(),
    ensures
        vtt_timecode(timecode_text(tc, '.')) == Ok::<Timecode, Seq<char>>(tc),
{
    lemma_timecode_text_parts(tc, '.');
    let t = timecode_text(tc, '.');
    assert(t.take(hms_text(tc).len() as int) =~= hms_text(tc));
    assert(t.skip(hms_text(tc).len() as int + 1) =~= zero_padded(tc.millis as nat, 3));
}


/// The short WebVTT form `MM:SS.mmm` of `tc`, without hours.
pub open spec fn short_vtt_text(tc: Timecode) -> Seq<char> {
    pad2(tc.minutes) + seq![':'] + pad2(tc.seconds) + seq!['.'] + zero_padded(tc.millis as nat, 3)
}

/// A WebVTT timecode written without hours, `MM:SS.mmm`, reads back with
/// hours 0 and its minutes, seconds and milliseconds.
pub proof fn vtt_short_timecode_round_trip(tc: Timecode)
    requires
        tc.is_canonical(),
    ensures
        vtt_timecode(short_vtt_text(tc)) == Ok::<Timecode, Seq<char>>(Timecode { hours: 0, ..tc }),
{
    let m = pad2(tc.minutes);
    let s = pad2(tc.seconds);
    let ms = zero_padded(tc.millis as nat, 3);
    lemma_zero_padded(tc.minutes as nat, 2);
    lemma_zero_padded(tc.seconds as nat, 2);
    lemma_parse_zero_padded(tc.minutes, 2);
    lemma_parse_zero_padded(tc.seconds, 2);
    lemma_parse_zero_padded(tc.millis, 3);
    lemma_digits_avoid(m, '.');
    lemma_digits_avoid(s, '.');
    lemma_digits_avoid(m, ':');
    lemma_digits_avoid(s, ':');
    let head = m + seq![':'] + s;
    assert forall|i: int| 0 <= i < head.len() implies head[i] != '.' by {
        if i < m.len() {
            assert(head[i] == m[i]);
        } else if i > m.len() {
            assert(head[i] == s[i - m.len() - 1]);
        }
    }
    let t = short_vtt_text(tc);
    assert(t =~= head + seq!['.'] + ms);
    lemma_find_after(head, '.', ms);
    assert(t.take(head.len() as int) =~= head);
    assert(t.skip(head.len() as int + 1) =~= ms);
    lemma_split_after(m, ':', s);
    lemma_split_none(s, ':');
    assert(split(head, seq![':']) =~= seq![m, s]);
}

/// Printing two runs of lines is printing them one after the other.
pub proof fn lemma_text_block_concat(a: Seq<Seq<char>>, b: Seq<Seq<char>>)
    ensures
        text_block(a + b) == text_block(a) + text_block(b),
    decreases b.len(),
{
    if b.len() == 0 {
        assert(a + b =~= a);
        assert(text_block(a) + text_block(b) =~= text_block(a));
    } else {
        lemma_text_block_concat(a, b.drop_last());
        assert((a + b).drop_last() =~= a + b.drop_last());
        assert((a + b).last() == b.last());
        assert(text_block(a + b) =~= text_block(a) + text_block(b));
    }
}

/// A line with no `'\n'` in it.
pub open spec fn no_newline(l: Seq<char>) -> bool {
    forall|i: int| 0 <= i < l.len() ==> l[i] != '\n'
}

/// Splitting printed lines on `'\n'` gives the lines back.
pub proof fn lemma_split_text_block(ls: Seq<Seq<char>>, r: Seq<char>)
    requires
        forall|j: int| 0 <= j < ls.len() ==> no_newline(#[trigger] ls[j]),
    ensures
        split(text_block(ls) + r, seq!['\n']) == ls + split(r, seq!['\n']),
    decreases ls.len(),
{
    if ls.len() == 0 {
        assert(text_block(ls) + r =~= r);
        assert(ls + split(r, seq!['\n']) =~= split(r, seq!['\n']));
    } else {
        let rest = ls.drop_first();
        assert(ls =~= seq![ls[0]] + rest);
        lemma_text_block_concat(seq![ls[0]], rest);
        assert(seq![ls[0]].drop_last() =~= Seq::<Seq<char>>::empty());
        assert(text_block(Seq::<Seq<char>>::empty()) =~= Seq::<char>::empty());
        assert(seq![ls[0]].last() == ls[0]);
        assert(text_block(seq![ls[0]]) =~= ls[0] + seq!['\n']);
        assert forall|j: int| 0 <= j < rest.len() implies no_newline(#[trigger] rest[j]) by {
            assert(rest[j] == ls[j + 1]);
        }
        lemma_split_text_block(rest, r);
        assert(no_newline(ls[0]));
        assert(text_block(ls) + r =~= ls[0] + seq!['\n'] + (text_block(rest) + r));
        lemma_split_after(ls[0], '\n', text_block(rest) + r);
        assert(seq![ls[0]] + (rest + split(r, seq!['\n'])) =~= ls + split(r, seq!['\n']));
    }
}

proof fn lemma_normalize_no_newline(s: Seq<char>)
    requires
        no_newline(s),
    ensures
        normalize_newlines(s) == s,
    decreases s.len(),
{
    if s.len() > 0 {
        let t = s.skip(1);
        assert(no_newline(t)) by {
            assert forall|i: int| 0 <= i < t.len() implies t[i] != '\n' by {
                assert(t[i] == s[i + 1]);
            }
        }
        lemma_normalize_no_newline(t);
        if s.len() >= 2 {
            assert(s[1] != '\n');
        }
        assert(seq![s[0]] + t =~= s);
    }
}

proof fn lemma_normalize_concat(a: Seq<char>, b: Seq<char>)
    requires
        a.len() == 0 || a.last() != '\r',
    ensures
        normalize_newlines(a + b) == normalize_newlines(a) + normalize_newlines(b),
    decreases a.len(),
{
    if a.len() == 0 {
        assert(a + b =~= b);
        assert(normalize_newlines(a) + normalize_newlines(b) =~= normalize_newlines(b));
    } else if a.len() >= 2 && a[0] == '\r' && a[1] == '\n' {
        let t = a.skip(2);
        if t.len() > 0 {
            assert(t.last() == a.last());
        }
        lemma_normalize_concat(t, b);
        assert((a + b).skip(2) =~= t + b);
        assert((a + b)[0] == '\r' && (a + b)[1] == '\n');
        assert(normalize_newlines(a + b) =~= normalize_newlines(a) + normalize_newlines(b));
    } else {
        let t = a.skip(1);
        if t.len() > 0 {
            assert(t.last() == a.last());
        }
        lemma_normalize_concat(t, b);
        assert((a + b).skip(1) =~= t + b);
        assert((a + b)[0] == a[0]);
        if a.len() >= 2 {
            assert((a + b)[1] == a[1]);
        }
        assert(normalize_newlines(a + b) =~= normalize_newlines(a) + normalize_newlines(b));
    }
}

/// A line that prints and reads back unchanged: no `'\n'`, and nothing
/// that trimming would take off its end.
pub open spec fn printable_line(l: Seq<char>) -> bool {
    l.len() > 0 && !is_ws(l.last()) && no_newline(l)
}

/// Printed lines with no `'\n'` in them and no `'\r'` at their ends hold no
/// `"\r\n"` to normalize.
pub proof fn lemma_normalize_text_block(ls: Seq<Seq<char>>)
    requires
        forall|j: int|
            0 <= j < ls.len() ==> no_newline(#[trigger] ls[j]) && (ls[j].len() == 0 || ls[j].last()
                != '\r'),
    ensures
        normalize_newlines(text_block(ls)) == text_block(ls),
    decreases ls.len(),
{
    if ls.len() > 0 {
        let d = ls.drop_last();
        let l = ls.last();
        assert forall|j: int|
            0 <= j < d.len() implies no_newline(#[trigger] d[j]) && (d[j].len() == 0 || d[j].last()
            != '\r') by {
            assert(d[j] == ls[j]);
        }
        lemma_normalize_text_block(d);
        assert(no_newline(ls[ls.len() - 1]));
        assert(text_block(ls) =~= text_block(d) + (l + seq!['\n']));
        if text_block(d).len() > 0 {
            assert(text_block(d).last() == '\n');
        }
        lemma_normalize_concat(text_block(d), l + seq!['\n']);
        lemma_normalize_concat(l, seq!['\n']);
        lemma_normalize_no_newline(l);
        lemma_normalize_no_newline(seq!['\n'].skip(1));
        assert(seq!['\n'].skip(1) =~= Seq::<char>::empty());
        assert(normalize_newlines(seq!['\n']) =~= seq!['\n']);
    }
}


/// A character that a printed timecode can hold.
pub open spec fn timecode_char(c: char) -> bool {
    is_digit(c) || c == ':' || c == ',' || c == '.'
}

proof fn lemma_timecode_text_chars(tc: Timecode, sep: char)
    requires
        sep == ',' || sep == '.',
    ensures
        forall|i: int|
            0 <= i < timecode_text(tc, sep).len() ==> timecode_char(
                #[trigger] timecode_text(tc, sep)[i],
            ),
        timecode_text(tc, sep).len() > 0,
        is_digit(timecode_text(tc, sep)[0]),
        is_digit(timecode_text(tc, sep).last()),
{
    let h = pad2(tc.hours);
    let m = pad2(tc.minutes);
    let s = pad2(tc.seconds);
    let ms = zero_padded(tc.millis as nat, 3);
    lemma_zero_padded(tc.hours as nat, 2);
    lemma_zero_padded(tc.minutes as nat, 2);
    lemma_zero_padded(tc.seconds as nat, 2);
    lemma_zero_padded(tc.millis as nat, 3);
    let t = timecode_text(tc, sep);
    assert(t =~= h + seq![':'] + m + seq![':'] + s + seq![sep] + ms);
    assert forall|i: int| 0 <= i < t.len() implies timecode_char(#[trigger] t[i]) by {
        let a = h.len() as int;
        let b = a + 1 + m.len();
        let c = b + 1 + s.len();
        if i < a {
            assert(t[i] == h[i]);
        } else if i == a {
        } else if i < b {
            assert(t[i] == m[i - a - 1]);
        } else if i == b {
        } else if i < c {
            assert(t[i] == s[i - b - 1]);
        } else if i == c {
        } else {
            assert(t[i] == ms[i - c - 1]);
        }
    }
    assert(t[0] == h[0]);
    assert(t.last() == ms.last());
}

/// The timing line of a printed cue.
pub open spec fn timing_line(c: CueView, sep: char) -> Seq<char> {
    timecode_text(c.start, sep) + " --> "@ + timecode_text(c.end, sep)
}

/// The lines of a printed cue at 1-based `position`: the position, the
/// timing line, the text, and a blank line.
pub open spec fn cue_lines(position: nat, c: CueView, sep: char) -> Seq<Seq<char>> {
    seq![decimal(position), timing_line(c, sep)] + c.text + seq![Seq::<char>::empty()]
}

/// The lines of printed cues, numbered from 1.
pub open spec fn all_lines(cues: Seq<CueView>, sep: char) -> Seq<Seq<char>>
    decreases cues.len(),
{
    if cues.len() == 0 {
        seq![]
    } else {
        all_lines(cues.drop_last(), sep) + cue_lines(cues.len() as nat, cues.last(), sep)
    }
}

proof fn lemma_arrow_text()
    ensures
        " --> "@ == seq![' ', '-', '-', '>', ' '],
{
    reveal_strlit(" --> ");
    assert(" --> "@ =~= seq![' ', '-', '-', '>', ' ']);
}

proof fn lemma_cue_text_lines(position: nat, c: CueView, sep: char)
    ensures
        cue_text(position, c, sep) == text_block(cue_lines(position, c, sep)),
{
    let head = seq![decimal(position), timing_line(c, sep)];
    let tail = seq![Seq::<char>::empty()];
    lemma_text_block_concat(head + c.text, tail);
    lemma_text_block_concat(head, c.text);
    assert(head.drop_last() =~= seq![decimal(position)]);
    assert(seq![decimal(position)].drop_last() =~= Seq::<Seq<char>>::empty());
    assert(text_block(Seq::<Seq<char>>::empty()) =~= Seq::<char>::empty());
    assert(text_block(seq![decimal(position)]) =~= decimal(position) + seq!['\n']);
    assert(text_block(head) =~= decimal(position) + seq!['\n'] + timing_line(c, sep) + seq![
        '\n',
    ]);
    assert(tail.drop_last() =~= Seq::<Seq<char>>::empty());
    assert(text_block(tail) =~= seq!['\n']);
    assert(cue_text(position, c, sep) =~= text_block(cue_lines(position, c, sep)));
}

/// Printed cues are the printed form of their lines.
pub proof fn lemma_cues_text_lines(cues: Seq<CueView>, sep: char)
    ensures
        cues_text(cues, sep) == text_block(all_lines(cues, sep)),
    decreases cues.len(),
{
    if cues.len() > 0 {
        lemma_cues_text_lines(cues.drop_last(), sep);
        lemma_cue_text_lines(cues.len() as nat, cues.last(), sep);
        lemma_text_block_concat(
            all_lines(cues.drop_last(), sep),
            cue_lines(cues.len() as nat, cues.last(), sep),
        );
    } else {
        assert(text_block(Seq::<Seq<char>>::empty()) =~= Seq::<char>::empty());
    }
}


/// A line that prints and reads back unchanged inside a document: no
/// `'\n'`, and no `'\r'` at its end.
pub open spec fn doc_line(l: Seq<char>) -> bool {
    no_newline(l) && (l.len() == 0 || l.last() != '\r')
}

proof fn lemma_digits_line(d: Seq<char>)
    requires
        all_digits(d),
        d.len() > 0,
    ensures
        doc_line(d),
        !is_ws(d[0]),
        !is_ws(d.last()),
        trim(d) == d,
{
    assert forall|i: int| 0 <= i < d.len() implies d[i] != '\n' by {
        assert(is_digit(d[i]));
    }
    assert(is_digit(d[0]));
    assert(is_digit(d[d.len() - 1]));
    lemma_trim_id(d);
}

/// The parts of a timing line around its arrow.
proof fn lemma_timing_line(c: CueView, sep: char)
    requires
        sep == ',' || sep == '.',
    ensures
        doc_line(timing_line(c, sep)),
        trim(timing_line(c, sep)) == timing_line(c, sep),
        find(timing_line(c, sep), seq!['-', '-', '>']) == Some(
            timecode_text(c.start, sep).len() as int + 1,
        ),
        timing_line(c, sep).take(timecode_text(c.start, sep).len() as int + 1) == timecode_text(
            c.start,
            sep,
        ) + seq![' '],
        timing_line(c, sep).skip(timecode_text(c.start, sep).len() as int + 4) == seq![' ']
            + timecode_text(c.end, sep),
{
    let a = timecode_text(c.start, sep);
    let b = timecode_text(c.end, sep);
    let t = timing_line(c, sep);
    let p = seq!['-', '-', '>'];
    lemma_arrow_text();
    lemma_timecode_text_chars(c.start, sep);
    lemma_timecode_text_chars(c.end, sep);
    assert(t =~= a + seq![' ', '-', '-', '>', ' '] + b);
    let n = a.len() as int;
    assert forall|i: int| 0 <= i < t.len() implies t[i] != '\n' by {
        if i < n {
            assert(timecode_char(a[i]));
        } else if i >= n + 5 {
            assert(t[i] == b[i - n - 5]);
            assert(timecode_char(b[i - n - 5]));
        }
    }
    assert(t.last() == b.last());
    assert(t[0] == a[0]);
    lemma_trim_id(t);
    assert(t.subrange(n + 1, n + 4) =~= p);
    assert forall|j: int| 0 <= j < n + 1 implies !matches_at(t, p, j) by {
        if matches_at(t, p, j) {
            assert(t.subrange(j, j + 3)[0] == p[0]);
            if j < n {
                assert(timecode_char(a[j]));
            }
        }
    }
    lemma_find_is(t, p, n + 1);
    assert(t.take(n + 1) =~= a + seq![' ']);
    assert(t.skip(n + 4) =~= seq![' '] + b);
}


/// A cue that prints and reads back unchanged: minutes and seconds below 60
/// and milliseconds below 1000 in both timecodes, and at least one line of
/// text, each printable.
pub open spec fn printable_cue(c: CueView) -> bool {
    &&& c.start.is_canonical()
    &&& c.end.is_canonical()
    &&& c.text.len() > 0
    &&& forall|j: int| 0 <= j < c.text.len() ==> printable_line(#[trigger] c.text[j])
}

/// Every cue prints and reads back unchanged.
pub open spec fn all_printable(cues: Seq<CueView>) -> bool {
    forall|k: int| 0 <= k < cues.len() ==> printable_cue(#[trigger] cues[k])
}

proof fn lemma_cue_lines_ok(position: nat, c: CueView, sep: char)
    requires
        sep == ',' || sep == '.',
        printable_cue(c),
    ensures
        forall|j: int|
            0 <= j < cue_lines(position, c, sep).len() ==> doc_line(
                #[trigger] cue_lines(position, c, sep)[j],
            ),
{
    let ls = cue_lines(position, c, sep);
    lemma_decimal(position);
    lemma_digits_line(decimal(position));
    lemma_timing_line(c, sep);
    assert forall|j: int| 0 <= j < ls.len() implies doc_line(#[trigger] ls[j]) by {
        if j == 0 {
            assert(ls[j] == decimal(position));
        } else if j == 1 {
            assert(ls[j] == timing_line(c, sep));
        } else if j < 2 + c.text.len() {
            assert(ls[j] == c.text[j - 2]);
            assert(printable_line(c.text[j - 2]));
        } else {
            assert(ls[j] == Seq::<char>::empty());
        }
    }
}

proof fn lemma_all_lines_ok(cues: Seq<CueView>, sep: char)
    requires
        sep == ',' || sep == '.',
        all_printable(cues),
    ensures
        forall|j: int|
            0 <= j < all_lines(cues, sep).len() ==> doc_line(#[trigger] all_lines(cues, sep)[j]),
    decreases cues.len(),
{
    if cues.len() > 0 {
        let d = cues.drop_last();
        assert(all_printable(d)) by {
            assert forall|k: int| 0 <= k < d.len() implies printable_cue(#[trigger] d[k]) by {
                assert(d[k] == cues[k]);
            }
        }
        lemma_all_lines_ok(d, sep);
        assert(printable_cue(cues[cues.len() - 1]));
        lemma_cue_lines_ok(cues.len() as nat, cues.last(), sep);
        let a = all_lines(d, sep);
        let b = cue_lines(cues.len() as nat, cues.last(), sep);
        assert forall|j: int|
            0 <= j < all_lines(cues, sep).len() implies doc_line(
            #[trigger] all_lines(cues, sep)[j],
        ) by {
            if j < a.len() {
                assert(all_lines(cues, sep)[j] == a[j]);
            } else {
                assert(all_lines(cues, sep)[j] == b[j - a.len()]);
            }
        }
    }
}

proof fn lemma_lines_of_text_block(ls: Seq<Seq<char>>)
    requires
        forall|j: int| 0 <= j < ls.len() ==> doc_line(#[trigger] ls[j]),
    ensures
        input_lines(text_block(ls)) == ls + seq![Seq::<char>::empty()],
{
    assert forall|j: int|
        0 <= j < ls.len() implies no_newline(#[trigger] ls[j]) && (ls[j].len() == 0
        || ls[j].last() != '\r') by {
        assert(doc_line(ls[j]));
    }
    lemma_normalize_text_block(ls);
    lemma_split_text_block(ls, Seq::<char>::empty());
    assert(text_block(ls) + Seq::<char>::empty() =~= text_block(ls));
    lemma_split_none(Seq::<char>::empty(), '\n');
}

/// The lines of printed SubRip cues, read back.
pub proof fn lemma_srt_doc_lines(cues: Seq<CueView>)
    requires
        all_printable(cues),
    ensures
        input_lines(cues_text(cues, ',')) == all_lines(cues, ',') + seq![Seq::<char>::empty()],
{
    lemma_cues_text_lines(cues, ',');
    lemma_all_lines_ok(cues, ',');
    lemma_lines_of_text_block(all_lines(cues, ','));
}

/// The header lines of a printed WebVTT document.
pub open spec fn vtt_header() -> Seq<Seq<char>> {
    seq!["WEBVTT"@, Seq::<char>::empty()]
}

/// The lines of printed WebVTT cues, read back.
pub proof fn lemma_vtt_doc_lines(cues: Seq<CueView>)
    requires
        all_printable(cues),
    ensures
        input_lines("WEBVTT\n\n"@ + cues_text(cues, '.')) == vtt_header() + all_lines(cues, '.')
            + seq![Seq::<char>::empty()],
{
    reveal_strlit("WEBVTT");
    reveal_strlit("WEBVTT\n\n");
    let h = vtt_header();
    lemma_cues_text_lines(cues, '.');
    lemma_all_lines_ok(cues, '.');
    assert(h.drop_last() =~= seq!["WEBVTT"@]);
    assert(seq!["WEBVTT"@].drop_last() =~= Seq::<Seq<char>>::empty());
    assert(text_block(Seq::<Seq<char>>::empty()) =~= Seq::<char>::empty());
    assert(seq!["WEBVTT"@].last() == "WEBVTT"@);
    assert(text_block(seq!["WEBVTT"@]) =~= "WEBVTT"@ + seq!['\n']);
    assert(h.last() == Seq::<char>::empty());
    assert(text_block(h) =~= "WEBVTT"@ + seq!['\n'] + seq!['\n']);
    assert("WEBVTT"@ =~= seq!['W', 'E', 'B', 'V', 'T', 'T']);
    assert("WEBVTT\n\n"@ =~= seq!['W', 'E', 'B', 'V', 'T', 'T', '\n', '\n']);
    assert(text_block(h) =~= "WEBVTT\n\n"@);
    lemma_text_block_concat(h, all_lines(cues, '.'));
    let ls = h + all_lines(cues, '.');
    assert forall|j: int| 0 <= j < ls.len() implies doc_line(#[trigger] ls[j]) by {
        if j >= 2 {
            assert(ls[j] == all_lines(cues, '.')[j - 2]);
        } else if j == 0 {
            assert(ls[j] == "WEBVTT"@);
            assert(ls[j].last() == 'T');
        }
    }
    lemma_lines_of_text_block(ls);
}


proof fn lemma_trim_start_keeps_last(s: Seq<char>)
    requires
        s.len() > 0,
        !is_ws(s.last()),
    ensures
        trim_start(s).len() > 0,
        trim_start(s).last() == s.last(),
    decreases s.len(),
{
    if is_ws(s[0]) {
        assert(s.len() > 1);
        assert(s.drop_first().last() == s.last());
        lemma_trim_start_keeps_last(s.drop_first());
    }
}

/// A printable line is not blank and is its own `trim_end`.
proof fn lemma_printable_line(l: Seq<char>)
    requires
        printable_line(l),
    ensures
        !is_blank(l),
        trim_end(l) == l,
{
    lemma_trim_end_take(l, l.len() as int);
    assert(l.take(l.len() as int) =~= l);
    lemma_trim_start_keeps_last(l);
    let t = trim_start(l);
    lemma_trim_end_take(t, t.len() as int);
    assert(t.take(t.len() as int) =~= t);
}

proof fn lemma_empty_is_blank()
    ensures
        is_blank(Seq::<char>::empty()),
{
    assert(trim_start(Seq::<char>::empty()) == Seq::<char>::empty());
    assert(trim_end(Seq::<char>::empty()) == Seq::<char>::empty());
}

proof fn lemma_next_blank_at(lines: Seq<Seq<char>>, a: int, b: int)
    requires
        0 <= a <= b < lines.len(),
        forall|x: int| a <= x < b ==> !is_blank(#[trigger] lines[x]),
        is_blank(lines[b]),
    ensures
        next_blank(lines, a) == b,
    decreases b - a,
{
    if a < b {
        lemma_next_blank_at(lines, a + 1, b);
    }
}

/// Where the lines of cue `k` sit among the lines of printed cues.
pub open spec fn cue_start(cues: Seq<CueView>, k: int, sep: char) -> int {
    all_lines(cues.take(k), sep).len() as int
}

proof fn lemma_all_lines_prefix(cues: Seq<CueView>, j: int, sep: char)
    requires
        0 <= j <= cues.len(),
    ensures
        all_lines(cues.take(j), sep).len() <= all_lines(cues, sep).len(),
        forall|x: int|
            0 <= x < all_lines(cues.take(j), sep).len() ==> all_lines(cues, sep)[x] == #[trigger] all_lines(
                cues.take(j),
                sep,
            )[x],
    decreases cues.len(),
{
    if j == cues.len() {
        assert(cues.take(j) =~= cues);
    } else {
        let d = cues.drop_last();
        assert(d.take(j) =~= cues.take(j));
        lemma_all_lines_prefix(d, j, sep);
        let a = all_lines(d, sep);
        assert forall|x: int|
            0 <= x < all_lines(cues.take(j), sep).len() implies all_lines(cues, sep)[x]
            == #[trigger] all_lines(cues.take(j), sep)[x] by {
            assert(all_lines(cues, sep)[x] == a[x]);
        }
    }
}

/// The lines of cue `k` among the lines of printed cues.
proof fn lemma_cue_at(cues: Seq<CueView>, k: int, sep: char)
    requires
        0 <= k < cues.len(),
    ensures
        cue_start(cues, k + 1, sep) == cue_start(cues, k, sep) + cues[k].text.len() + 3,
        cue_start(cues, k + 1, sep) <= all_lines(cues, sep).len(),
        forall|x: int|
            0 <= x < cues[k].text.len() + 3 ==> all_lines(cues, sep)[cue_start(cues, k, sep) + x]
                == #[trigger] cue_lines((k + 1) as nat, cues[k], sep)[x],
{
    let t = cues.take(k + 1);
    assert(t.drop_last() =~= cues.take(k));
    assert(t.last() == cues[k]);
    let c = cue_lines((k + 1) as nat, cues[k], sep);
    assert(all_lines(t, sep) == all_lines(cues.take(k), sep) + c);
    lemma_all_lines_prefix(cues, k + 1, sep);
    let s = cue_start(cues, k, sep);
    assert forall|x: int|
        0 <= x < cues[k].text.len() + 3 implies all_lines(cues, sep)[s + x] == #[trigger] c[x] by {
        assert(all_lines(t, sep)[s + x] == c[x]);
    }
}

proof fn lemma_cue_start_zero(cues: Seq<CueView>, sep: char)
    ensures
        cue_start(cues, 0, sep) == 0,
        cue_start(cues, cues.len() as int, sep) == all_lines(cues, sep).len(),
{
    assert(cues.take(0) =~= Seq::<CueView>::empty());
    assert(cues.take(cues.len() as int) =~= cues);
}

proof fn lemma_trim_pad_right(a: Seq<char>)
    requires
        a.len() > 0,
        !is_ws(a[0]),
        !is_ws(a.last()),
    ensures
        trim(a + seq![' ']) == a,
{
    let s = a + seq![' '];
    lemma_trim_start_skip(s, 0);
    assert(s.skip(0) =~= s);
    assert(is_ws(' '));
    lemma_trim_end_take(s, a.len() as int);
    assert(s.take(a.len() as int) =~= a);
}

proof fn lemma_trim_pad_left(b: Seq<char>)
    requires
        b.len() > 0,
        !is_ws(b[0]),
        !is_ws(b.last()),
    ensures
        trim(seq![' '] + b) == b,
{
    let s = seq![' '] + b;
    assert(is_ws(' '));
    lemma_trim_start_skip(s, 1);
    assert(s.skip(1) =~= b);
    lemma_trim_id(b);
}

/// Facts that line `i` of `lines` begins the printed cue `c` at 1-based
/// `position`.
pub open spec fn cue_lines_at(lines: Seq<Seq<char>>, i: int, position: nat, c: CueView, sep: char) -> bool {
    &&& 0 <= i
    &&& i + c.text.len() + 3 <= lines.len()
    &&& forall|x: int|
        0 <= x < c.text.len() + 3 ==> lines[i + x] == #[trigger] cue_lines(position, c, sep)[x]
}

proof fn lemma_cue_lines_read(lines: Seq<Seq<char>>, i: int, position: nat, c: CueView, sep: char)
    requires
        cue_lines_at(lines, i, position, c, sep),
        printable_cue(c),
        sep == ',' || sep == '.',
    ensures
        lines[i] == decimal(position),
        lines[i + 1] == timing_line(c, sep),
        text_lines(lines, i + 2) == c.text,
        next_blank(lines, i + 2) == i + 2 + c.text.len(),
        is_blank(lines[i + 2 + c.text.len()]),
{
    let cl = cue_lines(position, c, sep);
    let m = c.text.len() as int;
    assert(lines[i] == cl[0]);
    assert(lines[i + 1] == cl[1]);
    assert(lines[i + 2 + m] == cl[2 + m]);
    assert(cl[2 + m] == Seq::<char>::empty());
    lemma_empty_is_blank();
    assert forall|x: int| i + 2 <= x < i + 2 + m implies !is_blank(#[trigger] lines[x]) by {
        assert(lines[x] == cl[x - i]);
        assert(cl[x - i] == c.text[x - i - 2]);
        lemma_printable_line(c.text[x - i - 2]);
    }
    lemma_next_blank_at(lines, i + 2, i + 2 + m);
    assert forall|j: int| 0 <= j < m implies lines.subrange(i + 2, i + 2 + m).map_values(
        |l: Seq<char>| trim_end(l),
    )[j] == c.text[j] by {
        assert(lines[i + 2 + j] == cl[2 + j]);
        assert(cl[2 + j] == c.text[j]);
        lemma_printable_line(c.text[j]);
    }
    assert(text_lines(lines, i + 2) =~= c.text);
}


/// Cue `c` as read back at 1-based `position`, labelled `identifier`.
pub open spec fn read_back(c: CueView, position: nat, identifier: Option<Seq<char>>) -> CueView {
    CueView { number: position as u32, start: c.start, end: c.end, text: c.text, identifier }
}

proof fn lemma_timing_parts_read(c: CueView, sep: char)
    requires
        sep == ',' || sep == '.',
        printable_cue(c),
    ensures
        split_once(trim(timing_line(c, sep)), arrow()) == Some(
            (timecode_text(c.start, sep) + seq![' '], seq![' '] + timecode_text(c.end, sep)),
        ),
        trim(timecode_text(c.start, sep) + seq![' ']) == timecode_text(c.start, sep),
        trim(seq![' '] + timecode_text(c.end, sep)) == timecode_text(c.end, sep),
{
    lemma_timing_line(c, sep);
    lemma_timecode_text_chars(c.start, sep);
    lemma_timecode_text_chars(c.end, sep);
    let a = timecode_text(c.start, sep);
    let b = timecode_text(c.end, sep);
    assert(arrow() == seq!['-', '-', '>']);
    assert(!is_ws(a[0]) && !is_ws(a.last()));
    assert(!is_ws(b[0]) && !is_ws(b.last()));
    lemma_trim_pad_right(a);
    lemma_trim_pad_left(b);
}

proof fn lemma_srt_cue_block(lines: Seq<Seq<char>>, i: int, position: nat, c: CueView)
    requires
        cue_lines_at(lines, i, position, c, ','),
        printable_cue(c),
        1 <= position <= u32::MAX,
    ensures
        srt_block(lines, i).next == i + 2 + c.text.len(),
        srt_block(lines, i).cues == seq![read_back(c, position, None)],
        srt_block(lines, i).errors == Seq::<ErrorView>::empty(),
        !srt_block(lines, i).stop,
        srt_block(lines, i + 2 + c.text.len()).next == i + 3 + c.text.len(),
        srt_block(lines, i + 2 + c.text.len()).cues == Seq::<CueView>::empty(),
        srt_block(lines, i + 2 + c.text.len()).errors == Seq::<ErrorView>::empty(),
        !srt_block(lines, i + 2 + c.text.len()).stop,
{
    reveal(srt_block);
    lemma_cue_lines_read(lines, i, position, c, ',');
    lemma_decimal(position);
    lemma_digits_line(decimal(position));
    lemma_parse_u32_digits(decimal(position));
    lemma_timing_line(c, ',');
    lemma_timing_parts_read(c, ',');
    lemma_srt_timecode_text(c.start);
    lemma_srt_timecode_text(c.end);
    assert(!is_blank(lines[i]));
    assert(srt_block(lines, i).cues =~= seq![read_back(c, position, None)]);
    assert(srt_block(lines, i).errors =~= Seq::<ErrorView>::empty());
}


proof fn lemma_lines_hold_cue(cues: Seq<CueView>, k: int, sep: char, lines: Seq<Seq<char>>, offset: int)
    requires
        0 <= k < cues.len(),
        0 <= offset,
        lines.len() >= offset + all_lines(cues, sep).len(),
        forall|x: int|
            0 <= x < all_lines(cues, sep).len() ==> lines[offset + x] == #[trigger] all_lines(
                cues,
                sep,
            )[x],
    ensures
        cue_lines_at(lines, offset + cue_start(cues, k, sep), (k + 1) as nat, cues[k], sep),
        cue_start(cues, k + 1, sep) == cue_start(cues, k, sep) + cues[k].text.len() + 3,
{
    lemma_cue_at(cues, k, sep);
    lemma_all_lines_prefix(cues, k, sep);
    let i = offset + cue_start(cues, k, sep);
    assert forall|x: int|
        0 <= x < cues[k].text.len() + 3 implies lines[i + x] == #[trigger] cue_lines(
        (k + 1) as nat,
        cues[k],
        sep,
    )[x] by {
        assert(lines[offset + (cue_start(cues, k, sep) + x)] == all_lines(cues, sep)[cue_start(
            cues,
            k,
            sep,
        ) + x]);
    }
}

/// Cues `k..` of `cues` as read back, numbered from `k + 1`.
pub open spec fn read_back_from(cues: Seq<CueView>, k: int, labelled: bool) -> Seq<CueView> {
    Seq::new(
        (cues.len() - k) as nat,
        |j: int|
            read_back(
                cues[k + j],
                (k + j + 1) as nat,
                if labelled {
                    Some(decimal((k + j + 1) as nat))
                } else {
                    None
                },
            ),
    )
}

proof fn lemma_srt_blocks_from(cues: Seq<CueView>, k: int)
    requires
        all_printable(cues),
        cues.len() <= u32::MAX,
        0 <= k <= cues.len(),
    ensures
        srt_blocks(all_lines(cues, ',') + seq![Seq::<char>::empty()], cue_start(cues, k, ','))
            == (read_back_from(cues, k, false), Seq::<ErrorView>::empty()),
    decreases cues.len() - k,
{
    let a = all_lines(cues, ',');
    let lines = a + seq![Seq::<char>::empty()];
    assert forall|x: int| 0 <= x < a.len() implies lines[0 + x] == #[trigger] a[x] by {}
    lemma_cue_start_zero(cues, ',');
    if k == cues.len() {
        let s = a.len() as int;
        reveal(srt_block);
        lemma_empty_is_blank();
        assert(lines[s] == Seq::<char>::empty());
        assert(srt_blocks(lines, s + 1) == (Seq::<CueView>::empty(), Seq::<ErrorView>::empty()));
        assert(read_back_from(cues, k, false) =~= Seq::<CueView>::empty());
        assert(srt_blocks(lines, s).0 =~= Seq::<CueView>::empty());
        assert(srt_blocks(lines, s).1 =~= Seq::<ErrorView>::empty());
    } else {
        lemma_lines_hold_cue(cues, k, ',', lines, 0);
        let i = cue_start(cues, k, ',');
        let m = cues[k].text.len() as int;
        assert(printable_cue(cues[k]));
        lemma_srt_cue_block(lines, i, (k + 1) as nat, cues[k]);
        lemma_srt_blocks_from(cues, k + 1);
        lemma_all_lines_prefix(cues, k + 1, ',');
        let rest = srt_blocks(lines, i + 3 + m);
        assert(srt_blocks(lines, i + 2 + m) == rest) by {
            assert(Seq::<CueView>::empty() + rest.0 =~= rest.0);
            assert(Seq::<ErrorView>::empty() + rest.1 =~= rest.1);
        }
        assert(read_back_from(cues, k, false) =~= seq![read_back(cues[k], (k + 1) as nat, None)]
            + read_back_from(cues, k + 1, false));
        assert(srt_blocks(lines, i).0 =~= read_back_from(cues, k, false));
        assert(srt_blocks(lines, i).1 =~= Seq::<ErrorView>::empty());
    }
}

/// Printing cues as SubRip and parsing the text back gives the cues again,
/// numbered from 1 and without identifiers, and no errors - for cues whose
/// timecodes are canonical and whose text is printable, at least one line per
/// cue.
pub proof fn srt_format_then_parse(cues: Seq<CueView>)
    requires
        all_printable(cues),
        cues.len() <= u32::MAX,
    ensures
        srt_parse(cues_text(cues, ',')).0 == read_back_from(cues, 0, false),
        srt_parse(cues_text(cues, ',')).1 == Seq::<ErrorView>::empty(),
{
    lemma_srt_doc_lines(cues);
    lemma_cue_start_zero(cues, ',');
    lemma_srt_blocks_from(cues, 0);
}


proof fn lemma_first_word_timecode(tc: Timecode, sep: char)
    requires
        sep == ',' || sep == '.',
    ensures
        first_word(timecode_text(tc, sep)) == timecode_text(tc, sep),
{
    let b = timecode_text(tc, sep);
    lemma_timecode_text_chars(tc, sep);
    assert(!is_ws(b[0]) && !is_ws(b.last()));
    lemma_trim_id(b);
    assert forall|j: int| 0 <= j < b.len() implies !is_ws(#[trigger] b[j]) by {
        assert(timecode_char(b[j]));
    }
    lemma_take_until_ws(b, b.len() as int);
    assert(b.take(b.len() as int) =~= b);
}

proof fn lemma_digits_not_block_keyword(d: Seq<char>)
    requires
        all_digits(d),
        d.len() > 0,
    ensures
        !starts_with(d, "NOTE"@),
        !starts_with(d, "STYLE"@),
        !contains(d, arrow()),
{
    reveal_strlit("NOTE");
    reveal_strlit("STYLE");
    assert(is_digit(d[0]));
    if starts_with(d, "NOTE"@) {
        assert(d.take(4)[0] == "NOTE"@[0]);
    }
    if starts_with(d, "STYLE"@) {
        assert(d.take(5)[0] == "STYLE"@[0]);
    }
    assert forall|j: int| !matches_at(d, arrow(), j) by {
        if matches_at(d, arrow(), j) {
            assert(d.subrange(j, j + 3)[0] == arrow()[0]);
            assert(is_digit(d[j]));
        }
    }
    lemma_find_none(d, arrow());
}

proof fn lemma_vtt_cue_block(lines: Seq<Seq<char>>, i: int, position: nat, c: CueView)
    requires
        cue_lines_at(lines, i, position, c, '.'),
        printable_cue(c),
        1 <= position,
    ensures
        vtt_block(lines, i, position).next == i + 2 + c.text.len(),
        vtt_block(lines, i, position).cues == seq![
            read_back(c, position, Some(decimal(position))),
        ],
        vtt_block(lines, i, position).errors == Seq::<ErrorView>::empty(),
        !vtt_block(lines, i, position).stop,
        vtt_block(lines, i + 2 + c.text.len(), position + 1).next == i + 3 + c.text.len(),
        vtt_block(lines, i + 2 + c.text.len(), position + 1).cues == Seq::<CueView>::empty(),
        vtt_block(lines, i + 2 + c.text.len(), position + 1).errors == Seq::<ErrorView>::empty(),
        !vtt_block(lines, i + 2 + c.text.len(), position + 1).stop,
{
    reveal(vtt_block);
    reveal(vtt_timing);
    lemma_cue_lines_read(lines, i, position, c, '.');
    lemma_decimal(position);
    lemma_digits_line(decimal(position));
    lemma_digits_not_block_keyword(decimal(position));
    lemma_timing_line(c, '.');
    lemma_timing_parts_read(c, '.');
    lemma_vtt_timecode_text(c.start);
    lemma_vtt_timecode_text(c.end);
    lemma_first_word_timecode(c.end, '.');
    assert(!is_blank(lines[i]));
    let step = vtt_timing(lines, i + 1, Some(decimal(position)), position);
    assert(vtt_block(lines, i, position) == step);
    assert(step.cues =~= seq![read_back(c, position, Some(decimal(position)))]);
    assert(step.errors =~= Seq::<ErrorView>::empty());
}

proof fn lemma_vtt_blocks_from(cues: Seq<CueView>, k: int)
    requires
        all_printable(cues),
        0 <= k <= cues.len(),
    ensures
        vtt_blocks(
            vtt_header() + all_lines(cues, '.') + seq![Seq::<char>::empty()],
            2 + cue_start(cues, k, '.'),
            (k + 1) as nat,
        ) == (read_back_from(cues, k, true), Seq::<ErrorView>::empty()),
    decreases cues.len() - k,
{
    let a = all_lines(cues, '.');
    let lines = vtt_header() + a + seq![Seq::<char>::empty()];
    assert forall|x: int| 0 <= x < a.len() implies lines[2 + x] == #[trigger] a[x] by {}
    lemma_cue_start_zero(cues, '.');
    if k == cues.len() {
        let s = 2 + a.len() as int;
        reveal(vtt_block);
        lemma_empty_is_blank();
        assert(lines[s] == Seq::<char>::empty());
        assert(vtt_blocks(lines, s + 1, (k + 1) as nat) == (
            Seq::<CueView>::empty(),
            Seq::<ErrorView>::empty(),
        ));
        assert(read_back_from(cues, k, true) =~= Seq::<CueView>::empty());
        assert(vtt_blocks(lines, s, (k + 1) as nat).0 =~= Seq::<CueView>::empty());
        assert(vtt_blocks(lines, s, (k + 1) as nat).1 =~= Seq::<ErrorView>::empty());
    } else {
        lemma_lines_hold_cue(cues, k, '.', lines, 2);
        let i = 2 + cue_start(cues, k, '.');
        let m = cues[k].text.len() as int;
        assert(printable_cue(cues[k]));
        lemma_vtt_cue_block(lines, i, (k + 1) as nat, cues[k]);
        lemma_vtt_blocks_from(cues, k + 1);
        let rest = vtt_blocks(lines, i + 3 + m, (k + 2) as nat);
        assert(vtt_blocks(lines, i + 2 + m, (k + 2) as nat) == rest) by {
            assert(Seq::<CueView>::empty() + rest.0 =~= rest.0);
            assert(Seq::<ErrorView>::empty() + rest.1 =~= rest.1);
        }
        assert(read_back_from(cues, k, true) =~= seq![
            read_back(cues[k], (k + 1) as nat, Some(decimal((k + 1) as nat))),
        ] + read_back_from(cues, k + 1, true));
        assert(vtt_blocks(lines, i, (k + 1) as nat).0 =~= read_back_from(cues, k, true));
        assert(vtt_blocks(lines, i, (k + 1) as nat).1 =~= Seq::<ErrorView>::empty());
    }
}

/// Printing cues as WebVTT and parsing the text back gives the cues again,
/// numbered from 1, each labelled with its number as printed, and no errors
/// - for cues whose timecodes are canonical and whose text is printable, at
/// least one line per cue.
pub proof fn vtt_format_then_parse(cues: Seq<CueView>)
    requires
        all_printable(cues),
        cues.len() <= u32::MAX,
    ensures
        vtt_parse("WEBVTT\n\n"@ + cues_text(cues, '.')).0 == read_back_from(cues, 0, true),
        vtt_parse("WEBVTT\n\n"@ + cues_text(cues, '.')).1 == Seq::<ErrorView>::empty(),
{
    reveal(vtt_block);
    lemma_vtt_doc_lines(cues);
    lemma_cue_start_zero(cues, '.');
    lemma_vtt_blocks_from(cues, 0);
    let a = all_lines(cues, '.');
    let lines = vtt_header() + a + seq![Seq::<char>::empty()];
    reveal_strlit("WEBVTT");
    let w = "WEBVTT"@;
    assert(w =~= seq!['W', 'E', 'B', 'V', 'T', 'T']);
    assert(lines[0] == w);
    assert(lines[1] == Seq::<char>::empty());
    lemma_trim_id(w);
    assert(!is_blank(lines[0]));
    assert(first_nonblank(lines, 0) == 0);
    assert(w.take(6) =~= w);
    assert(starts_with(trim_start(lines[0]), w));
    lemma_empty_is_blank();
    let rest = vtt_blocks(lines, 2, 1);
    assert(vtt_blocks(lines, 1, 1) == rest) by {
        assert(Seq::<CueView>::empty() + rest.0 =~= rest.0);
        assert(Seq::<ErrorView>::empty() + rest.1 =~= rest.1);
    }
}


/// The same cues printed as SubRip and as WebVTT read back as the same cue
/// list - numbers, timings and text - so `validate` and `format` behave the
/// same on either; only the WebVTT identifiers differ.
pub proof fn both_formats_read_back_alike(cues: Seq<CueView>)
    requires
        all_printable(cues),
        cues.len() <= u32::MAX,
    ensures
        ({
            let a = srt_parse(cues_text(cues, ',')).0;
            let b = vtt_parse("WEBVTT\n\n"@ + cues_text(cues, '.')).0;
            &&& a.len() == b.len()
            &&& forall|i: int|
                0 <= i < a.len() ==> (#[trigger] a[i]).number == b[i].number && a[i].start
                    == b[i].start && a[i].end == b[i].end && a[i].text == b[i].text
        }),
{
    srt_format_then_parse(cues);
    vtt_format_then_parse(cues);
}

} // verus!
