//! Character-sequence primitives shared by the subtitle parsers and printers.

use vstd::prelude::*;

verus! {

broadcast use vstd::string::group_string_axioms;

/// Appends one character to a `String` (std's `String::push`).
#[verifier::external_body]
pub fn push_char(s: &mut String, c: char)
    ensures
        final(s)@ == old(s)@.push(c),
{
    s.push(c);
}

/// The characters of `s`, in order.
pub fn chars_of(s: &str) -> (v: Vec<char>)
    ensures
        v@ == s@,
{
    let mut v: Vec<char> = Vec::new();
    for c in it: s.chars()
        invariant
            v@ == it.seq().take(it.index()),
            it.seq() == s@,
    {
        v.push(c);
    }
    v
}


/// Unicode `White_Space`, the set that `char::is_whitespace` tests for.
pub open spec fn is_ws(c: char) -> bool {
    let u = c as u32;
    ||| 9 <= u <= 13
    ||| u == 32
    ||| u == 0x85
    ||| u == 0xA0
    ||| u == 0x1680
    ||| 0x2000 <= u <= 0x200A
    ||| u == 0x2028
    ||| u == 0x2029
    ||| u == 0x202F
    ||| u == 0x205F
    ||| u == 0x3000
}

/// `s` without its leading whitespace.
pub open spec fn trim_start(s: Seq<char>) -> Seq<char>
    decreases s.len(),
{
    if s.len() > 0 && is_ws(s[0]) {
        trim_start(s.drop_first())
    } else {
        s
    }
}

/// `s` without its trailing whitespace.
pub open spec fn trim_end(s: Seq<char>) -> Seq<char>
    decreases s.len(),
{
    if s.len() > 0 && is_ws(s.last()) {
        trim_end(s.drop_last())
    } else {
        s
    }
}

/// `s` without leading or trailing whitespace.
pub open spec fn trim(s: Seq<char>) -> Seq<char> {
    trim_end(trim_start(s))
}

/// Trimming the start drops exactly the leading whitespace.
pub proof fn lemma_trim_start_skip(s: Seq<char>, k: int)
    requires
        0 <= k <= s.len(),
        forall|j: int| 0 <= j < k ==> is_ws(#[trigger] s[j]),
        k < s.len() ==> !is_ws(s[k]),
    ensures
        trim_start(s) == s.skip(k),
    decreases k,
{
    if k == 0 {
        assert(s.skip(0) =~= s);
    } else {
        let t = s.drop_first();
        assert forall|j: int| 0 <= j < k - 1 implies is_ws(#[trigger] t[j]) by {
            assert(t[j] == s[j + 1]);
        }
        lemma_trim_start_skip(t, k - 1);
        assert(t.skip(k - 1) =~= s.skip(k));
    }
}

/// Trimming the end drops exactly the trailing whitespace.
pub proof fn lemma_trim_end_take(s: Seq<char>, k: int)
    requires
        0 <= k <= s.len(),
        forall|j: int| k <= j < s.len() ==> is_ws(#[trigger] s[j]),
        k > 0 ==> !is_ws(s[k - 1]),
    ensures
        trim_end(s) == s.take(k),
    decreases s.len() - k,
{
    if k == s.len() {
        assert(s.take(k) =~= s);
    } else {
        let t = s.drop_last();
        assert forall|j: int| k <= j < t.len() implies is_ws(#[trigger] t[j]) by {
            assert(t[j] == s[j]);
        }
        lemma_trim_end_take(t, k);
        assert(t.take(k) =~= s.take(k));
    }
}

/// Whether `c` is whitespace.
pub fn is_whitespace(c: char) -> (b: bool)
    ensures
        b == is_ws(c),
{
    let u = c as u32;
    (9 <= u && u <= 13) || u == 32 || u == 0x85 || u == 0xA0 || u == 0x1680 || (0x2000 <= u && u
        <= 0x200A) || u == 0x2028 || u == 0x2029 || u == 0x202F || u == 0x205F || u == 0x3000
}

/// The characters of `v[lo..hi]`.
pub fn copy_range(v: &Vec<char>, lo: usize, hi: usize) -> (r: Vec<char>)
    requires
        lo <= hi <= v.len(),
    ensures
        r@ == v@.subrange(lo as int, hi as int),
{
    let mut r: Vec<char> = Vec::new();
    let mut k = lo;
    while k < hi
        invariant
            lo <= k <= hi <= v.len(),
            r@ == v@.subrange(lo as int, k as int),
        decreases hi - k,
    {
        r.push(v[k]);
        k += 1;
        assert(r@ =~= v@.subrange(lo as int, k as int));
    }
    r
}

/// `v` without leading whitespace (`str::trim_start`).
pub fn trimmed_start(v: &Vec<char>) -> (r: Vec<char>)
    ensures
        r@ == trim_start(v@),
{
    let mut k: usize = 0;
    while k < v.len() && is_whitespace(v[k])
        invariant
            k <= v.len(),
            forall|j: int| 0 <= j < k ==> is_ws(#[trigger] v@[j]),
        decreases v.len() - k,
    {
        k += 1;
    }
    proof {
        lemma_trim_start_skip(v@, k as int);
        assert(v@.subrange(k as int, v.len() as int) =~= v@.skip(k as int));
    }
    copy_range(v, k, v.len())
}

/// `v` without trailing whitespace (`str::trim_end`).
pub fn trimmed_end(v: &Vec<char>) -> (r: Vec<char>)
    ensures
        r@ == trim_end(v@),
{
    let mut k: usize = v.len();
    while k > 0 && is_whitespace(v[k - 1])
        invariant
            k <= v.len(),
            forall|j: int| k <= j < v.len() ==> is_ws(#[trigger] v@[j]),
        decreases k,
    {
        k -= 1;
    }
    proof {
        lemma_trim_end_take(v@, k as int);
        assert(v@.subrange(0, k as int) =~= v@.take(k as int));
    }
    copy_range(v, 0, k)
}

/// `v` without leading or trailing whitespace (`str::trim`).
pub fn trimmed(v: &Vec<char>) -> (r: Vec<char>)
    ensures
        r@ == trim(v@),
{
    let t = trimmed_start(v);
    trimmed_end(&t)
}


/// Whether `p` occurs in `s` starting at position `k`.
pub open spec fn matches_at(s: Seq<char>, p: Seq<char>, k: int) -> bool {
    0 <= k && k + p.len() <= s.len() && s.subrange(k, k + p.len()) =~= p
}

/// The position of the leftmost occurrence of `p` in `s`.
pub open spec fn find(s: Seq<char>, p: Seq<char>) -> Option<int>
    decreases s.len(),
{
    if s.len() < p.len() {
        None
    } else if matches_at(s, p, 0) {
        Some(0)
    } else if s.len() == 0 {
        None
    } else {
        match find(s.drop_first(), p) {
            Some(k) => Some(k + 1),
            None => None,
        }
    }
}

proof fn lemma_matches_at_drop_first(s: Seq<char>, p: Seq<char>, k: int)
    requires
        s.len() > 0,
        k >= 0,
    ensures
        matches_at(s.drop_first(), p, k) == matches_at(s, p, k + 1),
{
    if k + 1 + p.len() <= s.len() {
        assert(s.drop_first().subrange(k, k + p.len()) =~= s.subrange(k + 1, k + 1 + p.len()));
    }
}

/// `find` gives the leftmost match, and `None` exactly when there is none.
pub proof fn lemma_find(s: Seq<char>, p: Seq<char>)
    ensures
        match find(s, p) {
            Some(k) => matches_at(s, p, k) && forall|j: int| 0 <= j < k ==> !matches_at(s, p, j),
            None => forall|j: int| !matches_at(s, p, j),
        },
    decreases s.len(),
{
    if s.len() < p.len() {
    } else if matches_at(s, p, 0) {
    } else if s.len() == 0 {
        assert(s.subrange(0, 0) =~= p);
    } else {
        lemma_find(s.drop_first(), p);
        match find(s.drop_first(), p) {
            Some(k) => {
                lemma_matches_at_drop_first(s, p, k);
                assert forall|j: int| 0 <= j < k + 1 implies !matches_at(s, p, j) by {
                    if j > 0 {
                        lemma_matches_at_drop_first(s, p, j - 1);
                    }
                }
            },
            None => {
                assert forall|j: int| !matches_at(s, p, j) by {
                    if j > 0 {
                        lemma_matches_at_drop_first(s, p, j - 1);
                    }
                }
            },
        }
    }
}

/// Conversely, the leftmost match is what `find` gives.
pub proof fn lemma_find_is(s: Seq<char>, p: Seq<char>, k: int)
    requires
        matches_at(s, p, k),
        forall|j: int| 0 <= j < k ==> !matches_at(s, p, j),
    ensures
        find(s, p) == Some(k),
{
    lemma_find(s, p);
}

/// Conversely, no match means `find` gives `None`.
pub proof fn lemma_find_none(s: Seq<char>, p: Seq<char>)
    requires
        forall|j: int| !matches_at(s, p, j),
    ensures
        find(s, p) == None::<int>,
{
    lemma_find(s, p);
}

/// `str::split_once`: the parts before and after the leftmost `p`.
pub open spec fn split_once(s: Seq<char>, p: Seq<char>) -> Option<(Seq<char>, Seq<char>)> {
    match find(s, p) {
        Some(k) => Some((s.take(k), s.skip(k + p.len()))),
        None => None,
    }
}

/// `str::split` on a non-empty separator: the pieces between occurrences of `p`.
pub open spec fn split(s: Seq<char>, p: Seq<char>) -> Seq<Seq<char>>
    decreases s.len(),
    when p.len() > 0
{
    match find(s, p) {
        Some(k) => {
            proof {
                lemma_find(s, p);
            }
            seq![s.take(k)] + split(s.skip(k + p.len()), p)
        },
        None => seq![s],
    }
}

/// Whether `s` contains `p` (`str::contains`).
pub open spec fn contains(s: Seq<char>, p: Seq<char>) -> bool {
    find(s, p) is Some
}

/// Whether `s` begins with `p` (`str::starts_with`).
pub open spec fn starts_with(s: Seq<char>, p: Seq<char>) -> bool {
    p.len() <= s.len() && s.take(p.len() as int) =~= p
}

/// Whether `v[k..]` begins with `p`.
pub fn matches_at_exec(v: &Vec<char>, p: &Vec<char>, k: usize) -> (b: bool)
    requires
        k <= v.len(),
    ensures
        b == matches_at(v@, p@, k as int),
{
    if p.len() > v.len() - k {
        return false;
    }
    let mut j: usize = 0;
    while j < p.len()
        invariant
            j <= p.len(),
            k + p.len() <= v.len(),
            forall|m: int| 0 <= m < j ==> v@[k + m] == p@[m],
        decreases p.len() - j,
    {
        if v[k + j] != p[j] {
            assert(v@.subrange(k as int, k + p.len())[j as int] != p@[j as int]);
            return false;
        }
        j += 1;
    }
    assert(v@.subrange(k as int, k + p.len()) =~= p@);
    true
}

/// The position of the leftmost `p` in `v` (`str::find`).
pub fn find_exec(v: &Vec<char>, p: &Vec<char>) -> (r: Option<usize>)
    ensures
        r matches Some(k) ==> find(v@, p@) == Some(k as int),
        r is None ==> find(v@, p@) == None::<int>,
{
    let mut k: usize = 0;
    loop
        invariant
            k <= v.len(),
            forall|j: int| 0 <= j < k ==> !matches_at(v@, p@, j),
        decreases v.len() - k,
    {
        if matches_at_exec(v, p, k) {
            proof {
                lemma_find_is(v@, p@, k as int);
            }
            return Some(k);
        }
        if k == v.len() {
            proof {
                assert forall|j: int| !matches_at(v@, p@, j) by {
                    if 0 <= j < k {
                    }
                }
                lemma_find_none(v@, p@);
            }
            return None;
        }
        k += 1;
    }
}

/// `str::split_once`.
pub fn split_once_exec(v: &Vec<char>, p: &Vec<char>) -> (r: Option<(Vec<char>, Vec<char>)>)
    ensures
        match split_once(v@, p@) {
            Some((a, b)) => r matches Some((x, y)) && x@ == a && y@ == b,
            None => r is None,
        },
{
    match find_exec(v, p) {
        Some(k) => {
            proof {
                lemma_find(v@, p@);
                assert(matches_at(v@, p@, k as int));
                assert(k + p@.len() <= v@.len());
            }
            let a = copy_range(v, 0, k);
            let pl = p.len();
            let vl = v.len();
            assert(k + pl <= vl);
            let b = copy_range(v, k + pl, vl);
            assert(a@ =~= v@.take(k as int));
            assert(b@ =~= v@.skip(k + p.len()));
            Some((a, b))
        },
        None => None,
    }
}


/// A one-character pattern matches where that character is.
pub proof fn lemma_matches_single(s: Seq<char>, c: char, j: int)
    ensures
        matches_at(s, seq![c], j) <==> (0 <= j < s.len() && s[j] == c),
{
    if 0 <= j < s.len() {
        if s[j] == c {
            assert(s.subrange(j, j + 1) =~= seq![c]);
        } else {
            assert(s.subrange(j, j + 1)[0] != seq![c][0]);
        }
    }
}

/// The views of a sequence of character vectors.
pub open spec fn views(vs: Seq<Vec<char>>) -> Seq<Seq<char>> {
    vs.map_values(|l: Vec<char>| l@)
}

/// `str::split` on the single character `c`.
pub fn split_exec(v: &Vec<char>, c: char) -> (r: Vec<Vec<char>>)
    ensures
        views(r@) == split(v@, seq![c]),
{
    let ghost sep = seq![c];
    let mut pieces: Vec<Vec<char>> = Vec::new();
    let mut cur: Vec<char> = Vec::new();
    let mut start: usize = 0;
    let mut i: usize = 0;
    proof {
        assert(v@.skip(0) =~= v@);
        assert(views(pieces@) =~= Seq::<Seq<char>>::empty());
        assert(Seq::<Seq<char>>::empty() + split(v@, sep) =~= split(v@, sep));
    }
    while i < v.len()
        invariant
            start <= i <= v.len(),
            sep == seq![c],
            cur@ == v@.subrange(start as int, i as int),
            forall|j: int| start <= j < i ==> v@[j] != c,
            split(v@, sep) == views(pieces@) + split(v@.skip(start as int), sep),
        decreases v.len() - i,
    {
        if v[i] == c {
            proof {
                let t = v@.skip(start as int);
                let k = i - start;
                assert forall|j: int| 0 <= j < k implies !matches_at(t, sep, j) by {
                    lemma_matches_single(t, c, j);
                }
                lemma_matches_single(t, c, k as int);
                lemma_find_is(t, sep, k as int);
                assert(t.take(k as int) =~= cur@);
                assert(t.skip(k + 1) =~= v@.skip(i + 1));
                assert(split(t, sep) == seq![t.take(k as int)] + split(t.skip(k + 1), sep));
                assert(views(pieces@.push(cur)) =~= views(pieces@).push(cur@));
                assert(views(pieces@).push(cur@) + split(v@.skip(i + 1), sep) =~= views(pieces@) + (
                seq![cur@] + split(v@.skip(i + 1), sep)));
            }
            pieces.push(cur);
            cur = Vec::new();
            start = i + 1;
        } else {
            cur.push(v[i]);
        }
        i += 1;
        proof {
            assert(cur@ =~= v@.subrange(start as int, i as int));
        }
    }
    proof {
        let t = v@.skip(start as int);
        assert forall|j: int| !matches_at(t, sep, j) by {
            lemma_matches_single(t, c, j);
        }
        lemma_find_none(t, sep);
        assert(t =~= cur@);
        assert(views(pieces@.push(cur)) =~= views(pieces@) + seq![cur@]);
    }
    pieces.push(cur);
    pieces
}

/// `s` with every `"\r\n"` replaced by `"\n"` (`str::replace("\r\n", "\n")`).
pub open spec fn normalize_newlines(s: Seq<char>) -> Seq<char>
    decreases s.len(),
{
    if s.len() == 0 {
        s
    } else if s.len() >= 2 && s[0] == '\r' && s[1] == '\n' {
        seq!['\n'] + normalize_newlines(s.skip(2))
    } else {
        seq![s[0]] + normalize_newlines(s.skip(1))
    }
}

/// `normalize_newlines`, computed.
pub fn normalize_newlines_exec(v: &Vec<char>) -> (r: Vec<char>)
    ensures
        r@ == normalize_newlines(v@),
        r.len() <= v.len(),
{
    let mut r: Vec<char> = Vec::new();
    let mut i: usize = 0;
    proof {
        assert(v@.skip(0) =~= v@);
        assert(r@ + normalize_newlines(v@) =~= normalize_newlines(v@));
    }
    while i < v.len()
        invariant
            i <= v.len(),
            r.len() <= i,
            normalize_newlines(v@) == r@ + normalize_newlines(v@.skip(i as int)),
        decreases v.len() - i,
    {
        let ghost t = v@.skip(i as int);
        if i + 1 < v.len() && v[i] == '\r' && v[i + 1] == '\n' {
            proof {
                assert(t.skip(2) =~= v@.skip(i + 2));
                assert(r@.push('\n') + normalize_newlines(v@.skip(i + 2)) =~= r@ + (seq!['\n']
                    + normalize_newlines(t.skip(2))));
            }
            r.push('\n');
            i += 2;
        } else {
            proof {
                assert(t.skip(1) =~= v@.skip(i + 1));
                assert(r@.push(v@[i as int]) + normalize_newlines(v@.skip(i + 1)) =~= r@ + (seq![
                    t[0]] + normalize_newlines(t.skip(1))));
            }
            r.push(v[i]);
            i += 1;
        }
    }
    proof {
        assert(v@.skip(i as int) =~= Seq::<char>::empty());
        assert(r@ + Seq::<char>::empty() =~= r@);
    }
    r
}


/// An ASCII decimal digit.
pub open spec fn is_digit(c: char) -> bool {
    48 <= c as u32 <= 57
}

/// The value of a decimal digit.
pub open spec fn digit_value(c: char) -> nat {
    (c as u32 - 48) as nat
}

/// The number that a string of decimal digits spells, most significant first.
pub open spec fn digits_value(d: Seq<char>) -> nat
    decreases d.len(),
{
    if d.len() == 0 {
        0
    } else {
        digits_value(d.drop_last()) * 10 + digit_value(d.last())
    }
}

/// Only decimal digits.
pub open spec fn all_digits(d: Seq<char>) -> bool {
    forall|i: int| 0 <= i < d.len() ==> is_digit(#[trigger] d[i])
}

/// The digits of an unsigned number: the text after an optional leading `+`.
pub open spec fn unsigned_digits(s: Seq<char>) -> Seq<char> {
    if s.len() > 0 && s[0] == '+' {
        s.drop_first()
    } else {
        s
    }
}

/// `str::parse::<u32>`: an optional `+`, then one or more decimal digits whose
/// value fits in a `u32`.
pub open spec fn parse_u32(s: Seq<char>) -> Option<u32> {
    let d = unsigned_digits(s);
    if d.len() > 0 && all_digits(d) && digits_value(d) <= u32::MAX {
        Some(digits_value(d) as u32)
    } else {
        None
    }
}

proof fn lemma_digits_value_prefix(d: Seq<char>, j: int)
    requires
        0 <= j <= d.len(),
    ensures
        digits_value(d.take(j)) <= digits_value(d),
    decreases d.len() - j,
{
    if j < d.len() {
        lemma_digits_value_prefix(d, j + 1);
        assert(d.take(j + 1).drop_last() =~= d.take(j));
    } else {
        assert(d.take(j) =~= d);
    }
}

/// Whether `c` is an ASCII decimal digit.
pub fn is_digit_exec(c: char) -> (b: bool)
    ensures
        b == is_digit(c),
{
    let u = c as u32;
    48 <= u && u <= 57
}

/// `str::parse::<u32>`.
pub fn parse_u32_exec(v: &Vec<char>) -> (r: Option<u32>)
    ensures
        r == parse_u32(v@),
{
    let mut k: usize = 0;
    if v.len() > 0 && v[0] == '+' {
        k = 1;
    }
    let ghost d = unsigned_digits(v@);
    assert(d =~= v@.skip(k as int));
    if k == v.len() {
        return None;
    }
    let mut acc: u64 = 0;
    let mut i: usize = k;
    assert(v@.subrange(k as int, k as int) =~= Seq::<char>::empty());
    while i < v.len()
        invariant
            k <= i <= v.len(),
            k < v.len(),
            d == v@.skip(k as int),
            d == unsigned_digits(v@),
            acc == digits_value(v@.subrange(k as int, i as int)),
            acc <= u32::MAX,
            forall|j: int| k <= j < i ==> is_digit(#[trigger] v@[j]),
        decreases v.len() - i,
    {
        let c = v[i];
        if !is_digit_exec(c) {
            assert(!is_digit(d[i - k]));
            assert(!all_digits(d));
            assert(d == unsigned_digits(v@));
            return None;
        }
        let dv = (c as u32 - 48) as u64;
        assert(v@.subrange(k as int, i + 1).drop_last() =~= v@.subrange(k as int, i as int));
        acc = acc * 10 + dv;
        i += 1;
        if acc > 0xffff_ffff {
            proof {
                assert(v@.subrange(k as int, i as int) =~= d.take(i - k));
                lemma_digits_value_prefix(d, i - k);
                assert(digits_value(d) > u32::MAX);
                assert(d == unsigned_digits(v@));
            }
            return None;
        }
    }
    assert(v@.subrange(k as int, i as int) =~= d);
    Some(acc as u32)
}

/// The ASCII digit for `n < 10`.
pub open spec fn digit_char(n: nat) -> char {
    (n + 48) as char
}

/// The decimal representation of `n`, without leading zeros.
pub open spec fn decimal(n: nat) -> Seq<char>
    decreases n,
{
    if n < 10 {
        seq![digit_char(n)]
    } else {
        decimal(n / 10).push(digit_char(n % 10))
    }
}

/// The decimal representation of `n`, left-padded with zeros to at least
/// `width` characters (`format!("{:0width$}", n)`).
pub open spec fn zero_padded(n: nat, width: nat) -> Seq<char> {
    let d = decimal(n);
    if d.len() >= width {
        d
    } else {
        Seq::new((width - d.len()) as nat, |_i: int| '0') + d
    }
}

/// Appends the decimal representation of `n` to `out`.
pub fn push_decimal(out: &mut Vec<char>, n: u64)
    ensures
        final(out)@ == old(out)@ + decimal(n as nat),
    decreases n,
{
    if n < 10 {
        out.push(((n as u8) + 48) as char);
        assert(out@ =~= old(out)@ + decimal(n as nat));
    } else {
        push_decimal(out, n / 10);
        out.push((((n % 10) as u8) + 48) as char);
        assert(out@ =~= old(out)@ + decimal(n as nat));
    }
}

/// The decimal representation of `n`.
pub fn decimal_exec(n: u64) -> (r: Vec<char>)
    ensures
        r@ == decimal(n as nat),
{
    let mut r: Vec<char> = Vec::new();
    push_decimal(&mut r, n);
    assert(r@ =~= decimal(n as nat));
    r
}

/// Appends `n` in decimal, zero-padded to `width` characters, to `out`.
pub fn push_zero_padded(out: &mut Vec<char>, n: u64, width: usize)
    ensures
        final(out)@ == old(out)@ + zero_padded(n as nat, width as nat),
{
    let d = decimal_exec(n);
    let mut k: usize = d.len();
    let ghost start = out@;
    while k < width
        invariant
            d.len() <= k <= width || (k == d.len() && k >= width),
            d@ == decimal(n as nat),
            out@ == start + Seq::new((k - d.len()) as nat, |_i: int| '0'),
        decreases width - k,
    {
        out.push('0');
        k += 1;
        assert(out@ =~= start + Seq::new((k - d.len()) as nat, |_i: int| '0'));
    }
    let mut j: usize = 0;
    let ghost mid = out@;
    while j < d.len()
        invariant
            j <= d.len(),
            out@ == mid + d@.take(j as int),
        decreases d.len() - j,
    {
        out.push(d[j]);
        j += 1;
        assert(out@ =~= mid + d@.take(j as int));
    }
    assert(d@.take(j as int) =~= d@);
    if d.len() >= width {
        assert(out@ =~= start + zero_padded(n as nat, width as nat));
    } else {
        assert(out@ =~= start + zero_padded(n as nat, width as nat));
    }
}

/// Appends the characters of `v` to `out`.
pub fn push_all(out: &mut String, v: &Vec<char>)
    ensures
        final(out)@ == old(out)@ + v@,
{
    let mut j: usize = 0;
    let ghost start = out@;
    while j < v.len()
        invariant
            j <= v.len(),
            out@ == start + v@.take(j as int),
        decreases v.len() - j,
    {
        push_char(out, v[j]);
        j += 1;
        assert(out@ =~= start + v@.take(j as int));
    }
    assert(v@.take(j as int) =~= v@);
}

/// A `String` holding the characters of `v`.
pub fn string_of(v: &Vec<char>) -> (r: String)
    ensures
        r@ == v@,
{
    let mut r = String::new();
    push_all(&mut r, v);
    assert(r@ =~= v@);
    r
}


/// A `String` holding `prefix`, then `middle`, then `suffix`.
pub fn concat3(prefix: &str, middle: &Vec<char>, suffix: &str) -> (r: String)
    ensures
        r@ == prefix@ + middle@ + suffix@,
{
    let mut r = String::new();
    let p = chars_of(prefix);
    let q = chars_of(suffix);
    push_all(&mut r, &p);
    push_all(&mut r, middle);
    push_all(&mut r, &q);
    assert(r@ =~= prefix@ + middle@ + suffix@);
    r
}

/// A `String` holding the characters of `s`.
pub fn string_from(s: &str) -> (r: String)
    ensures
        r@ == s@,
{
    let v = chars_of(s);
    string_of(&v)
}


/// A non-empty separator splits `s` into at most one more piece than `s` has
/// characters.
pub proof fn lemma_split_len(s: Seq<char>, p: Seq<char>)
    requires
        p.len() > 0,
    ensures
        split(s, p).len() <= s.len() + 1,
    decreases s.len(),
{
    lemma_find(s, p);
    match find(s, p) {
        Some(k) => {
            lemma_split_len(s.skip(k + p.len()), p);
        },
        None => {},
    }
}


/// Appends the characters of `s` to `out`.
pub fn push_str(out: &mut String, s: &str)
    ensures
        final(out)@ == old(out)@ + s@,
{
    let v = chars_of(s);
    push_all(out, &v);
}


/// Whether `v` begins with `p` (`str::starts_with`).
pub fn starts_with_exec(v: &Vec<char>, p: &Vec<char>) -> (b: bool)
    ensures
        b == starts_with(v@, p@),
{
    let r = matches_at_exec(v, p, 0);
    proof {
        if p@.len() <= v@.len() {
            assert(v@.subrange(0, p@.len() as int) =~= v@.take(p@.len() as int));
        }
    }
    r
}

/// Whether `p` occurs in `v` (`str::contains`).
pub fn contains_exec(v: &Vec<char>, p: &Vec<char>) -> (b: bool)
    ensures
        b == contains(v@, p@),
{
    find_exec(v, p).is_some()
}

/// The leading run of `s` up to its first whitespace character.
pub open spec fn take_until_ws(s: Seq<char>) -> Seq<char>
    decreases s.len(),
{
    if s.len() == 0 || is_ws(s[0]) {
        seq![]
    } else {
        seq![s[0]] + take_until_ws(s.drop_first())
    }
}

/// The first whitespace-separated word of `s`, or `s` itself when it has
/// none (`s.split_whitespace().next().unwrap_or(s)`).
pub open spec fn first_word(s: Seq<char>) -> Seq<char> {
    let t = trim_start(s);
    if t.len() == 0 {
        s
    } else {
        take_until_ws(t)
    }
}

/// The leading run before the first whitespace is the prefix up to it.
pub proof fn lemma_take_until_ws(s: Seq<char>, k: int)
    requires
        0 <= k <= s.len(),
        forall|j: int| 0 <= j < k ==> !is_ws(#[trigger] s[j]),
        k < s.len() ==> is_ws(s[k]),
    ensures
        take_until_ws(s) == s.take(k),
    decreases k,
{
    if k == 0 {
        assert(s.take(0) =~= Seq::<char>::empty());
    } else {
        let t = s.drop_first();
        assert forall|j: int| 0 <= j < k - 1 implies !is_ws(#[trigger] t[j]) by {
            assert(t[j] == s[j + 1]);
        }
        lemma_take_until_ws(t, k - 1);
        assert(seq![s[0]] + t.take(k - 1) =~= s.take(k));
    }
}

/// `first_word`, computed.
pub fn first_word_exec(v: &Vec<char>) -> (r: Vec<char>)
    ensures
        r@ == first_word(v@),
{
    let t = trimmed_start(v);
    if t.len() == 0 {
        return copy_range(v, 0, v.len());
    }
    let mut k: usize = 0;
    while k < t.len() && !is_whitespace(t[k])
        invariant
            k <= t.len(),
            forall|j: int| 0 <= j < k ==> !is_ws(#[trigger] t@[j]),
        decreases t.len() - k,
    {
        k += 1;
    }
    proof {
        lemma_take_until_ws(t@, k as int);
        assert(t@.subrange(0, k as int) =~= t@.take(k as int));
    }
    copy_range(&t, 0, k)
}


/// Appends the decimal representation of `n` to `out`.
pub fn push_number(out: &mut String, n: u64)
    ensures
        final(out)@ == old(out)@ + decimal(n as nat),
{
    let d = decimal_exec(n);
    push_all(out, &d);
}

} // verus!
