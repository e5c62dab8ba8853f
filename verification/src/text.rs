//! Reading text a character at a time: whitespace, trimming, searching, and
//! unsigned decimal numbers, over ranges of a character sequence.

use vstd::prelude::*;

verus! {

/// The characters Unicode gives the `White_Space` property, which is what
/// `char::is_whitespace` tests for and so what `str::trim` removes.
pub open spec fn is_ws(c: char) -> bool {
    let v = c as u32;
    ||| 0x09 <= v <= 0x0D
    ||| v == 0x20
    ||| v == 0x85
    ||| v == 0xA0
    ||| v == 0x1680
    ||| 0x2000 <= v <= 0x200A
    ||| v == 0x2028
    ||| v == 0x2029
    ||| v == 0x202F
    ||| v == 0x205F
    ||| v == 0x3000
}

/// Whether `c` is whitespace in the sense of [`is_ws`].
pub fn is_whitespace(c: char) -> (r: bool)
    ensures
        r == is_ws(c),
{
    let v = c as u32;
    (0x09 <= v && v <= 0x0D) || v == 0x20 || v == 0x85 || v == 0xA0 || v == 0x1680 || (0x2000
        <= v && v <= 0x200A) || v == 0x2028 || v == 0x2029 || v == 0x202F || v == 0x205F || v
        == 0x3000
}

/// The first index in `[a, b)` that does not hold whitespace, or `b`.
pub open spec fn skip_ws(t: Seq<char>, a: int, b: int) -> int
    decreases b - a,
{
    if a >= b {
        b
    } else if is_ws(t[a]) {
        skip_ws(t, a + 1, b)
    } else {
        a
    }
}

/// The end of `[a, b)` once trailing whitespace is removed.
pub open spec fn trim_end(t: Seq<char>, a: int, b: int) -> int
    decreases b - a,
{
    if b <= a {
        a
    } else if is_ws(t[b - 1]) {
        trim_end(t, a, b - 1)
    } else {
        b
    }
}

/// The first index in `[a, b)` holding whitespace, or `b`.
pub open spec fn find_ws(t: Seq<char>, a: int, b: int) -> int
    decreases b - a,
{
    if a >= b {
        b
    } else if is_ws(t[a]) {
        a
    } else {
        find_ws(t, a + 1, b)
    }
}

/// The first index in `[a, b)` holding `c`, or `b`.
pub open spec fn find_char(t: Seq<char>, a: int, b: int, c: char) -> int
    decreases b - a,
{
    if a >= b {
        b
    } else if t[a] == c {
        a
    } else {
        find_char(t, a + 1, b, c)
    }
}

pub proof fn lemma_skip_ws_bounds(t: Seq<char>, a: int, b: int)
    requires
        a <= b,
    ensures
        a <= skip_ws(t, a, b) <= b,
    decreases b - a,
{
    if a < b && is_ws(t[a]) {
        lemma_skip_ws_bounds(t, a + 1, b);
    }
}

pub proof fn lemma_trim_end_bounds(t: Seq<char>, a: int, b: int)
    requires
        a <= b,
    ensures
        a <= trim_end(t, a, b) <= b,
    decreases b - a,
{
    if a < b && is_ws(t[b - 1]) {
        lemma_trim_end_bounds(t, a, b - 1);
    }
}

pub proof fn lemma_find_char_bounds(t: Seq<char>, a: int, b: int, c: char)
    requires
        a <= b,
    ensures
        a <= find_char(t, a, b, c) <= b,
    decreases b - a,
{
    if a < b && t[a] != c {
        lemma_find_char_bounds(t, a + 1, b, c);
    }
}

/// Index of the first non-whitespace character in `t[a..b]`, or `b`.
pub fn skip_ws_exec(t: &Vec<char>, a: usize, b: usize) -> (r: usize)
    requires
        a <= b <= t@.len(),
    ensures
        r == skip_ws(t@, a as int, b as int),
        a <= r <= b,
{
    let mut i = a;
    while i < b && is_whitespace(t[i])
        invariant
            a <= i <= b <= t@.len(),
            skip_ws(t@, i as int, b as int) == skip_ws(t@, a as int, b as int),
        decreases b - i,
    {
        i = i + 1;
    }
    i
}

/// End of `t[a..b]` with trailing whitespace removed.
pub fn trim_end_exec(t: &Vec<char>, a: usize, b: usize) -> (r: usize)
    requires
        a <= b <= t@.len(),
    ensures
        r == trim_end(t@, a as int, b as int),
        a <= r <= b,
{
    let mut e = b;
    while e > a && is_whitespace(t[e - 1])
        invariant
            a <= e <= b <= t@.len(),
            trim_end(t@, a as int, e as int) == trim_end(t@, a as int, b as int),
        decreases e - a,
    {
        e = e - 1;
    }
    e
}

/// Index of the first whitespace character in `t[a..b]`, or `b`.
pub fn find_ws_exec(t: &Vec<char>, a: usize, b: usize) -> (r: usize)
    requires
        a <= b <= t@.len(),
    ensures
        r == find_ws(t@, a as int, b as int),
        a <= r <= b,
{
    let mut i = a;
    while i < b && !is_whitespace(t[i])
        invariant
            a <= i <= b <= t@.len(),
            find_ws(t@, i as int, b as int) == find_ws(t@, a as int, b as int),
        decreases b - i,
    {
        i = i + 1;
    }
    i
}

/// Index of the first `c` in `t[a..b]`, or `b`.
pub fn find_char_exec(t: &Vec<char>, a: usize, b: usize, c: char) -> (r: usize)
    requires
        a <= b <= t@.len(),
    ensures
        r == find_char(t@, a as int, b as int, c),
        a <= r <= b,
{
    let mut i = a;
    while i < b && t[i] != c
        invariant
            a <= i <= b <= t@.len(),
            find_char(t@, i as int, b as int, c) == find_char(t@, a as int, b as int, c),
        decreases b - i,
    {
        i = i + 1;
    }
    i
}

/// The characters of `s`, in order.
pub fn chars_of(s: &str) -> (r: Vec<char>)
    ensures
        r@ == s@,
{
    let mut out: Vec<char> = Vec::new();
    for c in it: s.chars()
        invariant
            out@ == it.seq().take(it.index() as int),
    {
        out.push(c);
    }
    out
}

/// The string holding exactly these characters, in order.
///
/// Trusted: `String`'s `FromIterator<char>`, which std documents as pushing
/// each character in turn.
#[verifier::external_body]
pub(crate) fn string_from_chars(cs: &[char]) -> (s: String)
    ensures
        s@ == cs@,
{
    cs.iter().collect()
}

pub open spec fn is_digit(c: char) -> bool {
    '0' <= c <= '9'
}

/// The number a run of decimal digits spells.
pub open spec fn digits_value(s: Seq<char>) -> int
    decreases s.len(),
{
    if s.len() == 0 {
        0
    } else {
        digits_value(s.drop_last()) * 10 + (s.last() as int - '0' as int)
    }
}

/// The digits of an unsigned number: all of it but a leading `+`.
pub open spec fn unsigned_digits(s: Seq<char>) -> Seq<char> {
    if s.len() > 0 && s[0] == '+' {
        s.drop_first()
    } else {
        s
    }
}

/// What `str::parse` gives for an unsigned integer type whose largest value is
/// `max`: an optional `+`, then one or more decimal digits, and nothing else,
/// spelling a number no larger than `max`.
pub open spec fn parse_unsigned(s: Seq<char>, max: int) -> Option<int> {
    let d = unsigned_digits(s);
    if d.len() > 0 && (forall|i: int| 0 <= i < d.len() ==> is_digit(#[trigger] d[i]))
        && digits_value(d) <= max {
        Some(digits_value(d))
    } else {
        None
    }
}

proof fn lemma_digits_value_grows(s: Seq<char>, i: int)
    requires
        0 <= i <= s.len(),
        forall|k: int| 0 <= k < s.len() ==> is_digit(#[trigger] s[k]),
    ensures
        digits_value(s.take(i)) <= digits_value(s),
        0 <= digits_value(s),
    decreases s.len(),
{
    if s.len() > 0 {
        assert(s.drop_last().len() < s.len());
        if i < s.len() {
            lemma_digits_value_grows(s.drop_last(), i);
            assert(s.drop_last().take(i) =~= s.take(i));
        } else {
            assert(s.take(i) =~= s);
            lemma_digits_value_grows(s.drop_last(), 0);
        }
    } else {
        assert(s.take(i) =~= s);
    }
}

/// `t[a..b]` read as an unsigned number no larger than `max`, as `str::parse` would.
pub fn parse_unsigned_exec(t: &Vec<char>, a: usize, b: usize, max: u64) -> (r: Option<u64>)
    requires
        a <= b <= t@.len(),
    ensures
        match r {
            Some(v) => parse_unsigned(t@.subrange(a as int, b as int), max as int) == Some(v as int),
            None => parse_unsigned(t@.subrange(a as int, b as int), max as int) is None,
        },
{
    let ghost s = t@.subrange(a as int, b as int);
    let mut i = a;
    if i < b && t[i] == '+' {
        i = i + 1;
    }
    let start = i;
    let ghost d = t@.subrange(start as int, b as int);
    assert(d =~= unsigned_digits(s));
    if start == b {
        return None;
    }
    let mut v: u64 = 0;
    while i < b
        invariant
            a <= start <= i <= b <= t@.len(),
            d == t@.subrange(start as int, b as int),
            d == unsigned_digits(s),
            s == t@.subrange(a as int, b as int),
            forall|k: int| 0 <= k < i - start ==> is_digit(#[trigger] d[k]),
            v as int == digits_value(d.take(i - start)),
            v <= max,
        decreases b - i,
    {
        let c = t[i];
        if !('0' <= c && c <= '9') {
            assert(!is_digit(d[i - start]));
            assert(parse_unsigned(s, max as int) is None);
            return None;
        }
        let dv = (c as u32 - '0' as u32) as u64;
        assert(d.take(i + 1 - start).drop_last() =~= d.take(i - start));
        if dv > max || v > (max - dv) / 10 {
            proof {
                assert(v * 10 + dv > max) by (nonlinear_arith)
                    requires dv > max || v > (max - dv) / 10, v >= 0;
                let k = (i + 1 - start) as int;
                assert forall|j: int| 0 <= j < k implies is_digit(#[trigger] d.take(k)[j]) by {}
                lemma_no_overflow_prefix(d, k, max as int);
                assert(parse_unsigned(s, max as int) is None);
            }
            return None;
        }
        v = v * 10 + dv;
        i = i + 1;
    }
    assert(d.take(i - start) =~= d);
    Some(v)
}

proof fn lemma_no_overflow_prefix(d: Seq<char>, k: int, max: int)
    requires
        0 < k <= d.len(),
        forall|j: int| 0 <= j < k ==> is_digit(#[trigger] d[j]),
        digits_value(d.take(k)) > max,
    ensures
        !((forall|i: int| 0 <= i < d.len() ==> is_digit(#[trigger] d[i])) && digits_value(d) <= max),
{
    if forall|i: int| 0 <= i < d.len() ==> is_digit(#[trigger] d[i]) {
        lemma_digits_value_grows(d, k);
    }
}

} // verus!
