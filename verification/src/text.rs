//! Byte classes, ASCII case folding, and UTF-8-aware slicing of the
//! component source.
use vstd::prelude::*;
use vstd::string::StringSliceAdditionalSpecFns;
use vstd::utf8::*;

verus! {

broadcast use vstd::string::group_string_axioms, vstd::utf8::encode_utf8_valid_utf8,
    vstd::utf8::encode_utf8_decode_utf8;

/// ASCII whitespace as Rust's `u8::is_ascii_whitespace` defines it:
/// space, tab, line feed, form feed and carriage return.
pub open spec fn is_ws(b: u8) -> bool {
    b == 0x20 || b == 0x09 || b == 0x0a || b == 0x0c || b == 0x0d
}

pub open spec fn is_alpha(b: u8) -> bool {
    (0x41 <= b <= 0x5a) || (0x61 <= b <= 0x7a)
}

pub open spec fn is_digit(b: u8) -> bool {
    0x30 <= b <= 0x39
}

pub open spec fn is_alnum(b: u8) -> bool {
    is_alpha(b) || is_digit(b)
}

/// ASCII lower-casing of one byte; other bytes are unchanged.
pub open spec fn lower(b: u8) -> u8 {
    if 0x41 <= b <= 0x5a {
        (b + 0x20) as u8
    } else {
        b
    }
}

/// `a` and `b` are equal up to ASCII case.
pub open spec fn seq_eq_ignore_case(a: Seq<u8>, b: Seq<u8>) -> bool {
    a.len() == b.len() && forall|i: int| 0 <= i < a.len() ==> lower(#[trigger] a[i]) == lower(b[i])
}

/// The ASCII lower-cased copy of `a`.
pub open spec fn seq_lower(a: Seq<u8>) -> Seq<u8> {
    Seq::new(a.len(), |i: int| lower(a[i]))
}

/// Unicode `White_Space`, the class that `char::is_whitespace` and
/// `str::trim` use.
pub open spec fn is_unicode_ws(c: char) -> bool {
    let u = c as u32;
    (0x09 <= u <= 0x0d) || u == 0x20 || u == 0x85 || u == 0xa0 || u == 0x1680 || (0x2000 <= u
        <= 0x200a) || u == 0x2028 || u == 0x2029 || u == 0x202f || u == 0x205f || u == 0x3000
}

pub open spec fn trim_start_chars(c: Seq<char>) -> Seq<char>
    decreases c.len(),
{
    if c.len() > 0 && is_unicode_ws(c[0]) {
        trim_start_chars(c.drop_first())
    } else {
        c
    }
}

pub open spec fn trim_end_chars(c: Seq<char>) -> Seq<char>
    decreases c.len(),
{
    if c.len() > 0 && is_unicode_ws(c.last()) {
        trim_end_chars(c.drop_last())
    } else {
        c
    }
}

/// Leading and trailing Unicode whitespace removed.
pub open spec fn trim_chars(c: Seq<char>) -> Seq<char> {
    trim_end_chars(trim_start_chars(c))
}

pub fn is_ascii_whitespace(b: u8) -> (r: bool)
    ensures
        r == is_ws(b),
{
    b == 0x20 || b == 0x09 || b == 0x0a || b == 0x0c || b == 0x0d
}

pub fn is_ascii_alphabetic(b: u8) -> (r: bool)
    ensures
        r == is_alpha(b),
{
    (0x41 <= b && b <= 0x5a) || (0x61 <= b && b <= 0x7a)
}

pub fn is_ascii_digit(b: u8) -> (r: bool)
    ensures
        r == is_digit(b),
{
    0x30 <= b && b <= 0x39
}

pub fn is_ascii_alphanumeric(b: u8) -> (r: bool)
    ensures
        r == is_alnum(b),
{
    is_ascii_alphabetic(b) || is_ascii_digit(b)
}

pub fn to_ascii_lowercase(b: u8) -> (r: u8)
    ensures
        r == lower(b),
{
    if 0x41 <= b && b <= 0x5a {
        b + 0x20
    } else {
        b
    }
}

/// Whether `hay[at..at + needle.len()]` equals `needle` up to ASCII case.
pub fn eq_ignore_case_at(hay: &[u8], at: usize, needle: &[u8]) -> (r: bool)
    requires
        at + needle@.len() <= hay@.len(),
    ensures
        r == seq_eq_ignore_case(hay@.subrange(at as int, at + needle@.len()), needle@),
{
    let n = hay.len();
    let mut k: usize = 0;
    while k < needle.len()
        invariant
            n == hay@.len(),
            at + needle@.len() <= hay@.len(),
            k <= needle@.len(),
            forall|i: int| 0 <= i < k ==> lower(hay@[at + i]) == lower(needle@[i]),
        decreases needle@.len() - k,
    {
        if to_ascii_lowercase(hay[at + k]) != to_ascii_lowercase(needle[k]) {
            assert(hay@.subrange(at as int, at + needle@.len())[k as int] == hay@[at + k]);
            return false;
        }
        k += 1;
    }
    assert forall|i: int| 0 <= i < needle@.len() implies lower(
        #[trigger] hay@.subrange(at as int, at + needle@.len())[i],
    ) == lower(needle@[i]) by {
        assert(hay@.subrange(at as int, at + needle@.len())[i] == hay@[at + i]);
    }
    true
}

/// Whether `hay[at..]` starts with `needle`, byte for byte.
pub fn starts_with_at(hay: &[u8], at: usize, needle: &[u8]) -> (r: bool)
    requires
        at <= hay@.len(),
    ensures
        r == (at + needle@.len() <= hay@.len() && hay@.subrange(at as int, at + needle@.len())
            == needle@),
{
    if needle.len() > hay.len() - at {
        return false;
    }
    let n = hay.len();
    let mut k: usize = 0;
    while k < needle.len()
        invariant
            n == hay@.len(),
            at + needle@.len() <= hay@.len(),
            k <= needle@.len(),
            forall|i: int| 0 <= i < k ==> hay@[at + i] == needle@[i],
        decreases needle@.len() - k,
    {
        if hay[at + k] != needle[k] {
            assert(hay@.subrange(at as int, at + needle@.len())[k as int] == hay@[at + k]);
            return false;
        }
        k += 1;
    }
    assert(hay@.subrange(at as int, at + needle@.len()) =~= needle@);
    true
}

/// In valid UTF-8 an ASCII byte is a whole character: the positions on
/// either side of it are character boundaries.
pub proof fn lemma_ascii_char_boundary(bytes: Seq<u8>, i: int)
    requires
        valid_utf8(bytes),
        0 <= i < bytes.len(),
        bytes[i] < 0x80,
    ensures
        is_char_boundary(bytes, i),
        is_char_boundary(bytes, i + 1),
    decreases bytes.len(),
{
    let k = length_of_first_scalar(bytes);
    let rest = pop_first_scalar(bytes);
    assert(valid_first_scalar(bytes));
    assert(valid_utf8(rest));
    assert(rest.len() == bytes.len() - k);
    if i == 0 {
        assert(k == 1);
        assert(is_char_boundary(rest, 0));
        assert(is_char_boundary(bytes, 1));
    } else {
        if i < k {
            assert(is_continuation_byte(bytes[i]));
            assert(false);
        }
        assert(forall|t: int| 0 <= t < rest.len() ==> rest[t] == bytes[t + k]);
        lemma_ascii_char_boundary(rest, i - k);
        assert(is_char_boundary(bytes, i) == is_char_boundary(rest, i - k));
        assert(is_char_boundary(bytes, i + 1) == is_char_boundary(rest, i + 1 - k));
    }
}

/// Every index of a `&str` that sits next to an ASCII byte, and both ends,
/// are character boundaries.
pub open spec fn ascii_adjacent(bytes: Seq<u8>, i: int) -> bool {
    ||| i == 0
    ||| i == bytes.len()
    ||| (0 <= i < bytes.len() && bytes[i] < 0x80)
    ||| (0 < i <= bytes.len() && bytes[i - 1] < 0x80)
}

pub proof fn lemma_boundary(s: &str, i: int)
    requires
        ascii_adjacent(s.spec_bytes(), i),
    ensures
        is_char_boundary(s.spec_bytes(), i),
{
    let b = s.spec_bytes();
    assert(valid_utf8(b));
    is_char_boundary_start_end_of_seq(b);
    if i == 0 || i == b.len() {
    } else if 0 <= i < b.len() && b[i] < 0x80 {
        lemma_ascii_char_boundary(b, i);
    } else {
        lemma_ascii_char_boundary(b, i - 1);
    }
}

/// `&s[start..end]`.
///
/// Calls std's `str` range indexing, which panics unless both ends are
/// character boundaries; this contract claims that the slice then has
/// exactly the bytes of `s` in `start..end`.
#[verifier::external_body]
pub(crate) fn str_slice(s: &str, start: usize, end: usize) -> (r: &str)
    requires
        start <= end <= s.spec_bytes().len(),
        is_char_boundary(s.spec_bytes(), start as int),
        is_char_boundary(s.spec_bytes(), end as int),
    ensures
        r.spec_bytes() == s.spec_bytes().subrange(start as int, end as int),
{
    &s[start..end]
}

/// A slice of `s` whose two ends each touch an ASCII byte (or an end of
/// `s`), which makes both of them character boundaries.
pub fn slice_between_ascii(s: &str, start: usize, end: usize) -> (r: &str)
    requires
        start <= end <= s.spec_bytes().len(),
        ascii_adjacent(s.spec_bytes(), start as int),
        ascii_adjacent(s.spec_bytes(), end as int),
    ensures
        r.spec_bytes() == s.spec_bytes().subrange(start as int, end as int),
        r@ == decode_utf8(s.spec_bytes().subrange(start as int, end as int)),
{
    proof {
        lemma_boundary(s, start as int);
        lemma_boundary(s, end as int);
    }
    let r = str_slice(s, start, end);
    proof {
        encode_utf8_decode_utf8(r@);
    }
    r
}

/// `str::trim`.
///
/// std documents that it removes leading and trailing characters with the
/// Unicode `White_Space` property; the contract states exactly that, over
/// the characters of the slice.
#[verifier::external_body]
pub(crate) fn str_trim(s: &str) -> (r: &str)
    ensures
        r@ == trim_chars(s@),
{
    s.trim()
}

/// `str::trim_start`.
///
/// std documents that it removes leading characters with the Unicode
/// `White_Space` property; the contract states exactly that.
#[verifier::external_body]
pub(crate) fn str_trim_start(s: &str) -> (r: &str)
    ensures
        r@ == trim_start_chars(s@),
{
    s.trim_start()
}

/// Trimming whitespace from the front leaves a suffix.
pub proof fn lemma_trim_start_suffix(c: Seq<char>)
    ensures
        exists|k: int| 0 <= k <= c.len() && #[trigger] c.skip(k) == trim_start_chars(c),
    decreases c.len(),
{
    if c.len() > 0 && is_unicode_ws(c[0]) {
        lemma_trim_start_suffix(c.drop_first());
        let k = choose|k: int| 0 <= k <= c.drop_first().len() && #[trigger] c.drop_first().skip(k) == trim_start_chars(c.drop_first());
        assert(c.skip(k + 1) =~= c.drop_first().skip(k));
    } else {
        assert(c.skip(0) =~= c);
    }
}

/// Trimming whitespace from the back leaves a prefix.
pub proof fn lemma_trim_end_prefix(c: Seq<char>)
    ensures
        exists|k: int| 0 <= k <= c.len() && #[trigger] c.take(k) == trim_end_chars(c),
    decreases c.len(),
{
    if c.len() > 0 && is_unicode_ws(c.last()) {
        lemma_trim_end_prefix(c.drop_last());
        let k = choose|k: int| 0 <= k <= c.drop_last().len() && #[trigger] c.drop_last().take(k) == trim_end_chars(c.drop_last());
        assert(c.take(k) =~= c.drop_last().take(k));
    } else {
        assert(c.take(c.len() as int) =~= c);
    }
}

/// The decimal digits of `n`, most significant first.
pub open spec fn decimal(n: nat) -> Seq<char>
    decreases n,
{
    if n < 10 {
        seq![((48 + n) as u32) as char]
    } else {
        decimal(n / 10).push(((48 + n % 10) as u32) as char)
    }
}

/// ASCII lower-casing of one character; others are unchanged.
pub open spec fn lower_char(c: char) -> char {
    if 'A' <= c <= 'Z' {
        ((c as u32) + 32) as char
    } else {
        c
    }
}

/// `str::to_ascii_lowercase`.
///
/// std documents that ASCII letters `A`..`Z` become `a`..`z` and every
/// other character is unchanged; the contract states that per character.
#[verifier::external_body]
pub(crate) fn ascii_lowercase(s: &str) -> (r: String)
    ensures
        r@ == s@.map_values(|c: char| lower_char(c)),
{
    s.to_ascii_lowercase()
}

/// `ToString::to_string` on a `usize`: its decimal digits, as std's
/// `Display` for integers writes them.
#[verifier::external_body]
pub(crate) fn decimal_string(n: usize) -> (r: String)
    ensures
        r@ == decimal(n as nat),
{
    n.to_string()
}

} // verus!
