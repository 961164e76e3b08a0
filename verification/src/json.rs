//! Hand-rolled JSON output. The schemas emitted are small and fixed, so a
//! couple of string helpers is enough.

use vstd::prelude::*;
use crate::srt::strings_view;
use crate::text::{chars_of, push_char, string_from};

verus! {

/// The lowercase hexadecimal digit for `n < 16`.
pub open spec fn hex_digit(n: nat) -> char {
    if n < 10 {
        (n + 48) as char
    } else {
        (n + 87) as char
    }
}

/// `n` as four lowercase hexadecimal digits (`format!("{:04x}", n)` for
/// `n < 0x10000`).
pub open spec fn hex4(n: nat) -> Seq<char> {
    seq![
        hex_digit((n / 4096) % 16),
        hex_digit((n / 256) % 16),
        hex_digit((n / 16) % 16),
        hex_digit(n % 16),
    ]
}

/// How `c` is written inside a JSON string.
pub open spec fn escape_char(c: char) -> Seq<char> {
    if c == '"' {
        seq!['\\', '"']
    } else if c == '\\' {
        seq!['\\', '\\']
    } else if c == '\n' {
        seq!['\\', 'n']
    } else if c == '\r' {
        seq!['\\', 'r']
    } else if c == '\t' {
        seq!['\\', 't']
    } else if (c as u32) < 0x20 {
        seq!['\\', 'u'] + hex4(c as u32 as nat)
    } else {
        seq![c]
    }
}

/// `s` with every character escaped for a JSON string.
pub open spec fn escaped(s: Seq<char>) -> Seq<char>
    decreases s.len(),
{
    if s.len() == 0 {
        seq![]
    } else {
        escaped(s.drop_last()) + escape_char(s.last())
    }
}

/// `s` as a JSON string literal.
pub open spec fn quoted(s: Seq<char>) -> Seq<char> {
    seq!['"'] + escaped(s) + seq!['"']
}

/// `parts` joined with `sep` between them.
pub open spec fn joined(parts: Seq<Seq<char>>, sep: Seq<char>) -> Seq<char>
    decreases parts.len(),
{
    if parts.len() == 0 {
        seq![]
    } else if parts.len() == 1 {
        parts[0]
    } else {
        joined(parts.drop_last(), sep) + sep + parts.last()
    }
}

/// `items` as a JSON array of strings.
pub open spec fn string_array_text(items: Seq<Seq<char>>) -> Seq<char> {
    seq!['['] + joined(items.map_values(|s: Seq<char>| quoted(s)), seq![',', ' ']) + seq![']']
}

/// `value` as a JSON string, or `null`.
pub open spec fn opt_string_text(value: Option<Seq<char>>) -> Seq<char> {
    match value {
        Some(s) => quoted(s),
        None => "null"@,
    }
}

fn hex_digit_exec(n: u32) -> (c: char)
    requires
        n < 16,
    ensures
        c == hex_digit(n as nat),
{
    if n < 10 {
        ((n as u8) + 48) as char
    } else {
        ((n as u8) + 87) as char
    }
}

/// Appends `escape_char(c)` to `out`.
fn push_escaped(out: &mut String, c: char)
    ensures
        final(out)@ == old(out)@ + escape_char(c),
{
    if c == '"' {
        push_char(out, '\\');
        push_char(out, '"');
    } else if c == '\\' {
        push_char(out, '\\');
        push_char(out, '\\');
    } else if c == '\n' {
        push_char(out, '\\');
        push_char(out, 'n');
    } else if c == '\r' {
        push_char(out, '\\');
        push_char(out, 'r');
    } else if c == '\t' {
        push_char(out, '\\');
        push_char(out, 't');
    } else if (c as u32) < 0x20 {
        let n = c as u32;
        push_char(out, '\\');
        push_char(out, 'u');
        push_char(out, hex_digit_exec((n / 4096) % 16));
        push_char(out, hex_digit_exec((n / 256) % 16));
        push_char(out, hex_digit_exec((n / 16) % 16));
        push_char(out, hex_digit_exec(n % 16));
    } else {
        push_char(out, c);
    }
    assert(out@ =~= old(out)@ + escape_char(c));
}

/// Appends `escaped(v@)` to `out`.
pub fn push_escaped_all(out: &mut String, v: &Vec<char>)
    ensures
        final(out)@ == old(out)@ + escaped(v@),
{
    let ghost start = out@;
    let mut k: usize = 0;
    assert(v@.take(0) =~= Seq::<char>::empty());
    while k < v.len()
        invariant
            k <= v.len(),
            out@ == start + escaped(v@.take(k as int)),
        decreases v.len() - k,
    {
        push_escaped(out, v[k]);
        proof {
            assert(v@.take(k + 1).drop_last() =~= v@.take(k as int));
            assert(out@ =~= start + escaped(v@.take(k + 1)));
        }
        k += 1;
    }
    assert(v@.take(k as int) =~= v@);
}

/// Appends `quoted(s@)` to `out`.
pub fn push_quoted(out: &mut String, s: &str)
    ensures
        final(out)@ == old(out)@ + quoted(s@),
{
    let v = chars_of(s);
    push_char(out, '"');
    push_escaped_all(out, &v);
    push_char(out, '"');
    assert(out@ =~= old(out)@ + quoted(s@));
}

/// Escapes `s` for use inside a JSON string: quotes, backslashes and control
/// characters.
pub fn escape(s: &str) -> (r: String)
    ensures
        r@ == escaped(s@),
{
    let v = chars_of(s);
    let mut out = String::new();
    push_escaped_all(&mut out, &v);
    assert(out@ =~= escaped(s@));
    out
}

/// `items` as a JSON array of strings, `", "` between them.
pub fn string_array(items: &[String]) -> (r: String)
    ensures
        r@ == string_array_text(strings_view(items@)),
{
    let ghost parts = strings_view(items@).map_values(|s: Seq<char>| quoted(s));
    let mut out = String::new();
    push_char(&mut out, '[');
    let mut k: usize = 0;
    assert(parts.take(0) =~= Seq::<Seq<char>>::empty());
    while k < items.len()
        invariant
            k <= items.len(),
            parts == strings_view(items@).map_values(|s: Seq<char>| quoted(s)),
            parts.len() == items@.len(),
            out@ == seq!['['] + joined(parts.take(k as int), seq![',', ' ']),
        decreases items.len() - k,
    {
        if k > 0 {
            push_char(&mut out, ',');
            push_char(&mut out, ' ');
        }
        push_quoted(&mut out, items[k].as_str());
        proof {
            assert(parts[k as int] == quoted(items@[k as int]@));
            assert(parts.take(k + 1).drop_last() =~= parts.take(k as int));
            if k == 0 {
                assert(out@ =~= seq!['['] + joined(parts.take(k + 1), seq![',', ' ']));
            } else {
                assert(out@ =~= seq!['['] + joined(parts.take(k + 1), seq![',', ' ']));
            }
        }
        k += 1;
    }
    push_char(&mut out, ']');
    assert(parts.take(k as int) =~= parts);
    assert(out@ =~= string_array_text(strings_view(items@)));
    out
}

/// `value` as a JSON string, or `null` when it is `None`.
pub fn opt_string(value: &Option<String>) -> (r: String)
    ensures
        r@ == opt_string_text(
            match value {
                Some(s) => Some(s@),
                None => None,
            },
        ),
{
    match value {
        Some(s) => {
            let mut out = String::new();
            push_quoted(&mut out, s.as_str());
            assert(out@ =~= quoted(s@));
            out
        },
        None => string_from("null"),
    }
}

proof fn lemma_escape_char_printable(c: char)
    ensures
        forall|i: int|
            0 <= i < escape_char(c).len() ==> (#[trigger] escape_char(c)[i]) as u32 >= 0x20,
{
    if (c as u32) < 0x20 && c != '\n' && c != '\r' && c != '\t' {
        let n = c as u32 as nat;
        assert forall|d: nat| d < 16 implies (hex_digit(d) as u32) >= 0x30 by {}
        assert(hex4(n)[0] == hex_digit((n / 4096) % 16));
        assert(hex4(n)[1] == hex_digit((n / 256) % 16));
        assert(hex4(n)[2] == hex_digit((n / 16) % 16));
        assert(hex4(n)[3] == hex_digit(n % 16));
        let e = escape_char(c);
        assert forall|i: int| 0 <= i < e.len() implies (#[trigger] e[i]) as u32 >= 0x20 by {
            if i >= 2 {
                assert(e[i] == hex4(n)[i - 2]);
            }
        }
    }
}

/// Escaped text holds no control character below U+0020, so it can stand
/// inside a JSON string.
pub proof fn escaped_has_no_control_characters(s: Seq<char>)
    ensures
        forall|i: int| 0 <= i < escaped(s).len() ==> (#[trigger] escaped(s)[i]) as u32 >= 0x20,
    decreases s.len(),
{
    if s.len() > 0 {
        escaped_has_no_control_characters(s.drop_last());
        lemma_escape_char_printable(s.last());
        let a = escaped(s.drop_last());
        let b = escape_char(s.last());
        assert forall|i: int| 0 <= i < escaped(s).len() implies (#[trigger] escaped(s)[i]) as u32
            >= 0x20 by {
            if i < a.len() {
                assert(escaped(s)[i] == a[i]);
            } else {
                assert(escaped(s)[i] == b[i - a.len()]);
            }
        }
    }
}

/// The value of a hexadecimal digit, either case.
pub open spec fn hex_value(c: char) -> Option<nat> {
    if '0' <= c && c <= '9' {
        Some((c as u32 - 48) as nat)
    } else if 'a' <= c && c <= 'f' {
        Some((c as u32 - 87) as nat)
    } else if 'A' <= c && c <= 'F' {
        Some((c as u32 - 55) as nat)
    } else {
        None
    }
}

/// The value of the four hexadecimal digits that start `s`.
pub open spec fn hex4_value(s: Seq<char>) -> Option<nat> {
    if s.len() < 4 {
        None
    } else {
        match (hex_value(s[0]), hex_value(s[1]), hex_value(s[2]), hex_value(s[3])) {
            (Some(a), Some(b), Some(c), Some(d)) => Some(a * 4096 + b * 256 + c * 16 + d),
            _ => None,
        }
    }
}

/// Whether `v` is a UTF-16 surrogate code unit.
pub open spec fn is_surrogate(v: nat) -> bool {
    0xD800 <= v && v <= 0xDFFF
}

/// The character that a one-letter JSON escape `\e` stands for.
pub open spec fn short_escape(e: char) -> Option<char> {
    if e == '"' {
        Some('"')
    } else if e == '\\' {
        Some('\\')
    } else if e == '/' {
        Some('/')
    } else if e == 'b' {
        Some('\x08')
    } else if e == 'f' {
        Some('\x0c')
    } else if e == 'n' {
        Some('\n')
    } else if e == 'r' {
        Some('\r')
    } else if e == 't' {
        Some('\t')
    } else {
        None
    }
}

/// `c` followed by the decoding of the rest, if the rest decodes.
pub open spec fn decoded_after(c: char, rest: Option<Seq<char>>) -> Option<Seq<char>> {
    match rest {
        Some(r) => Some(seq![c] + r),
        None => None,
    }
}

/// The low surrogate that a `\\uXXXX` escape at index 6 of `s` holds, if it
/// holds one.
pub open spec fn low_surrogate_after(s: Seq<char>) -> Option<nat> {
    if s.len() >= 12 && s[6] == '\\' && s[7] == 'u' {
        match hex4_value(s.subrange(8, s.len() as int)) {
            Some(w) => if 0xDC00 <= w && w <= 0xDFFF {
                Some(w)
            } else {
                None
            },
            None => None,
        }
    } else {
        None
    }
}

/// The characters that `s`, read as the body of a JSON string literal
/// between its quotes, stands for; `None` where `s` is not such a body (a
/// bare quote, a raw control character, or an unknown or cut-off escape).
pub open spec fn unescaped(s: Seq<char>) -> Option<Seq<char>>
    decreases s.len(),
{
    if s.len() == 0 {
        Some(seq![])
    } else if s[0] == '"' || (s[0] as u32) < 0x20 {
        None
    } else if s[0] != '\\' {
        decoded_after(s[0], unescaped(s.drop_first()))
    } else if s.len() < 2 {
        None
    } else if short_escape(s[1]) is Some {
        decoded_after(short_escape(s[1])->0, unescaped(s.subrange(2, s.len() as int)))
    } else if s[1] != 'u' {
        None
    } else {
        match hex4_value(s.subrange(2, s.len() as int)) {
            None => None,
            Some(v) => if !is_surrogate(v) {
                decoded_after(v as char, unescaped(s.subrange(6, s.len() as int)))
            } else {
                match low_surrogate_after(s) {
                    Some(w) if v <= 0xDBFF => decoded_after(
                        (0x10000 + (v - 0xD800) * 1024 + (w - 0xDC00)) as char,
                        unescaped(s.subrange(12, s.len() as int)),
                    ),
                    _ => None,
                }
            },
        }
    }
}

proof fn lemma_escaped_prepend(c: char, s: Seq<char>)
    ensures
        escaped(seq![c] + s) == escape_char(c) + escaped(s),
    decreases s.len(),
{
    let u = seq![c] + s;
    if s.len() == 0 {
        assert(u.drop_last() =~= Seq::<char>::empty());
        assert(u.last() == c);
        assert(escaped(Seq::<char>::empty()) =~= Seq::<char>::empty());
        assert(escaped(u) =~= escape_char(c));
    } else {
        assert(u.drop_last() =~= seq![c] + s.drop_last());
        assert(u.last() == s.last());
        lemma_escaped_prepend(c, s.drop_last());
        assert(escaped(u) =~= escape_char(c) + escaped(s));
    }
}

proof fn lemma_hex_digit_value(d: nat)
    requires
        d < 16,
    ensures
        hex_value(hex_digit(d)) == Some(d),
{
}

proof fn lemma_unescape_char(c: char, t: Seq<char>)
    ensures
        unescaped(escape_char(c) + t) == decoded_after(c, unescaped(t)),
{
    let s = escape_char(c) + t;
    if c == '"' || c == '\\' || c == '\n' || c == '\r' || c == '\t' {
        assert(s.subrange(2, s.len() as int) =~= t);
    } else if (c as u32) < 0x20 {
        let n = c as u32 as nat;
        lemma_hex_digit_value((n / 16) % 16);
        lemma_hex_digit_value(n % 16);
        lemma_hex_digit_value(0);
        assert(n / 4096 == 0 && n / 256 == 0);
        let h = s.subrange(2, s.len() as int);
        assert(h[0] == hex_digit(0) && h[1] == hex_digit(0));
        assert(h[2] == hex_digit((n / 16) % 16) && h[3] == hex_digit(n % 16));
        assert(hex4_value(h) == Some((n / 16) % 16 * 16 + n % 16));
        assert((n / 16) % 16 * 16 + n % 16 == n);
        assert(s.subrange(6, s.len() as int) =~= t);
    } else {
        assert(s.drop_first() =~= t);
    }
}

/// Reading escaped text back as the body of a JSON string literal gives the
/// original text: escaping loses nothing.
pub proof fn unescape_undoes_escape(s: Seq<char>)
    ensures
        unescaped(escaped(s)) == Some(s),
    decreases s.len(),
{
    if s.len() == 0 {
    } else {
        let rest = s.drop_first();
        assert(s =~= seq![s[0]] + rest);
        lemma_escaped_prepend(s[0], rest);
        unescape_undoes_escape(rest);
        lemma_unescape_char(s[0], escaped(rest));
        assert(seq![s[0]] + rest =~= s);
    }
}

/// Text with no double quote, no backslash and no character below U+0020 is
/// left as it is by escaping.
pub proof fn escape_keeps_plain_text(s: Seq<char>)
    requires
        forall|i: int|
            0 <= i < s.len() ==> #[trigger] s[i] != '"' && s[i] != '\\' && (s[i] as u32) >= 0x20,
    ensures
        escaped(s) == s,
    decreases s.len(),
{
    if s.len() > 0 {
        assert forall|i: int| 0 <= i < s.drop_last().len() implies #[trigger] s.drop_last()[i]
            != '"' && s.drop_last()[i] != '\\' && (s.drop_last()[i] as u32) >= 0x20 by {
            assert(s.drop_last()[i] == s[i]);
        }
        escape_keeps_plain_text(s.drop_last());
        let k = s.len() - 1;
        assert(s.last() == s[k]);
        assert(escaped(s) =~= s.drop_last() + seq![s.last()]);
        assert(s.drop_last() + seq![s.last()] =~= s);
    }
}

} // verus!
