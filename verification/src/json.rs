//! Reading the ESTree token JSON that the JavaScript tokenizer returns:
//! the objects of the array, their numeric fields, and keeping the
//! tokens that lie inside a span.
use vstd::prelude::*;
use vstd::string::StringExecFns;
use vstd::string::StringSliceAdditionalSpecFns;
use vstd::utf8::*;

use crate::oxc::occurs_at;
use crate::span::Span;
use crate::text::{ascii_adjacent, is_digit, slice_between_ascii};

verus! {

broadcast use vstd::string::group_string_axioms, vstd::utf8::encode_utf8_valid_utf8;

// ---------------------------------------------------------------------------
// Objects of the array
// ---------------------------------------------------------------------------
/// The first `{` at or after `p`, or the length.
pub open spec fn next_brace(b: Seq<u8>, p: int) -> int
    decreases b.len() - p,
{
    if p < 0 || p >= b.len() {
        b.len() as int
    } else if b[p] == 0x7b {
        p
    } else {
        next_brace(b, p + 1)
    }
}

/// Where the object scan that stands at `p` with `depth` open braces ends:
/// just past the `}` that closes the outermost brace, or `None` when the
/// text ends first. Braces inside strings do not count.
pub open spec fn object_end(b: Seq<u8>, p: int, depth: int, in_str: bool, esc: bool) -> Option<int>
    decreases b.len() - p,
{
    if p < 0 || p >= b.len() {
        None
    } else {
        let c = b[p];
        if in_str {
            if esc {
                object_end(b, p + 1, depth, true, false)
            } else if c == 0x5c {
                object_end(b, p + 1, depth, true, true)
            } else if c == 0x22 {
                object_end(b, p + 1, depth, false, false)
            } else {
                object_end(b, p + 1, depth, true, false)
            }
        } else if c == 0x22 {
            object_end(b, p + 1, depth, true, false)
        } else if c == 0x7b {
            object_end(b, p + 1, depth + 1, false, false)
        } else if c == 0x7d {
            if depth - 1 == 0 {
                Some(p + 1)
            } else {
                object_end(b, p + 1, depth - 1, false, false)
            }
        } else {
            object_end(b, p + 1, depth, false, false)
        }
    }
}

pub proof fn lemma_next_brace(b: Seq<u8>, p: int)
    requires
        0 <= p <= b.len(),
    ensures
        p <= next_brace(b, p),
        next_brace(b, p) <= b.len(),
        next_brace(b, p) < b.len() ==> b[next_brace(b, p)] == 0x7b,
        forall|t: int| p <= t < next_brace(b, p) ==> b[t] != 0x7b,
    decreases b.len() - p,
{
    if p < b.len() && b[p] != 0x7b {
        lemma_next_brace(b, p + 1);
    }
}

pub proof fn lemma_object_end(b: Seq<u8>, p: int, depth: int, in_str: bool, esc: bool)
    requires
        0 <= p,
    ensures
        object_end(b, p, depth, in_str, esc) matches Some(e) ==> p < e <= b.len() && b[e - 1]
            == 0x7d,
    decreases b.len() - p,
{
    if 0 <= p < b.len() {
        let c = b[p];
        if in_str {
            if esc {
                lemma_object_end(b, p + 1, depth, true, false);
            } else if c == 0x5c {
                lemma_object_end(b, p + 1, depth, true, true);
            } else if c == 0x22 {
                lemma_object_end(b, p + 1, depth, false, false);
            } else {
                lemma_object_end(b, p + 1, depth, true, false);
            }
        } else if c == 0x22 {
            lemma_object_end(b, p + 1, depth, true, false);
        } else if c == 0x7b {
            lemma_object_end(b, p + 1, depth + 1, false, false);
        } else if c == 0x7d {
            if depth - 1 != 0 {
                lemma_object_end(b, p + 1, depth - 1, false, false);
            }
        } else {
            lemma_object_end(b, p + 1, depth, false, false);
        }
    }
}

/// The ranges of the objects of the token array from `p` on, in order, up
/// to the first one that is not closed.
pub open spec fn token_objects(b: Seq<u8>, p: int) -> Seq<(int, int)>
    decreases b.len() - p,
{
    let q = next_brace(b, p);
    if p < 0 || p > b.len() || q >= b.len() {
        seq![]
    } else {
        match object_end(b, q, 0, false, false) {
            None => seq![],
            Some(e) => {
                proof {
                    lemma_object_end(b, q, 0, false, false);
                    lemma_next_brace(b, p);
                }
                seq![(q, e)] + token_objects(b, e)
            },
        }
    }
}

/// No `{` lies in `[a, c)`.
pub open spec fn no_brace_between(b: Seq<u8>, a: int, c: int) -> bool {
    forall|t: int| a <= t < c ==> b[t] != 0x7b
}

/// Where the search for the `k`-th object of `os` began: `p` for the
/// first, the end of the one before for the others.
pub open spec fn search_start(os: Seq<(int, int)>, p: int, k: int) -> int {
    if k == 0 {
        p
    } else {
        os[k - 1].1
    }
}

/// The facts of the law below, for the objects `os` found from `p`.
pub open spec fn objects_well_placed(b: Seq<u8>, p: int, os: Seq<(int, int)>) -> bool {
    &&& forall|k: int|
        0 <= k < os.len() ==> {
            let (s, e) = #[trigger] os[k];
            &&& p <= s < e <= b.len()
            &&& b[s] == 0x7b
            &&& b[e - 1] == 0x7d
            &&& object_end(b, s, 0, false, false) == Some(e)
            &&& no_brace_between(b, search_start(os, p, k), s)
        }
    &&& forall|j: int, k: int| 0 <= j < k < os.len() ==> (#[trigger] os[j]).1 <= (#[trigger] os[k]).0
    &&& {
        let last = search_start(os, p, os.len() as int);
        next_brace(b, last) >= b.len() || object_end(b, next_brace(b, last), 0, false, false) is None
    }
}

/// Law: the objects read one after another from the token array lie in
/// increasing order without overlap; each runs from a `{` to the `}` that
/// balances it (braces inside strings, with their escapes, not counted);
/// no `{` lies between one object and the next; and the reading stops at
/// the first object that is not closed.
pub proof fn token_objects_are_ordered(b: Seq<u8>, p: int)
    requires
        0 <= p <= b.len(),
    ensures
        objects_well_placed(b, p, token_objects(b, p)),
    decreases b.len() - p,
{
    lemma_next_brace(b, p);
    let q = next_brace(b, p);
    let os = token_objects(b, p);
    if q < b.len() {
        lemma_object_end(b, q, 0, false, false);
        if let Some(e) = object_end(b, q, 0, false, false) {
            token_objects_are_ordered(b, e);
            let rest = token_objects(b, e);
            assert(os == seq![(q, e)] + rest);
            assert(os[0] == (q, e));
            assert forall|k: int| 1 <= k < os.len() implies #[trigger] os[k] == rest[k - 1]
                && search_start(os, p, k) == search_start(rest, e, k - 1) by {}
            assert forall|k: int| 0 <= k < os.len() implies {
                let (s, f) = #[trigger] os[k];
                &&& p <= s < f <= b.len()
                &&& b[s] == 0x7b
                &&& b[f - 1] == 0x7d
                &&& object_end(b, s, 0, false, false) == Some(f)
                &&& no_brace_between(b, search_start(os, p, k), s)
            } by {
                if k > 0 {
                    assert(os[k] == rest[k - 1]);
                }
            }
            assert forall|j: int, k: int| 0 <= j < k < os.len() implies (#[trigger] os[j]).1 <= (
            #[trigger] os[k]).0 by {
                assert(os[k] == rest[k - 1]);
                if j > 0 {
                    assert(os[j] == rest[j - 1]);
                }
            }
            assert(search_start(os, p, os.len() as int) == search_start(rest, e, rest.len() as int));
        }
    }
}

/// The next object of the token array from `pos`: its range, or `None`
/// when no complete object is left.
pub fn next_token_object(bytes: &[u8], pos: usize) -> (r: Option<(usize, usize)>)
    requires
        pos <= bytes@.len(),
    ensures
        ({
            let q = next_brace(bytes@, pos as int);
            match r {
                None => q >= bytes@.len() || object_end(bytes@, q, 0, false, false) is None,
                Some((a, e)) => a == q && q < bytes@.len() && object_end(bytes@, q, 0, false, false)
                    == Some(e as int),
            }
        }),
{
    let n = bytes.len();
    let mut p = pos;
    while p < n && bytes[p] != 0x7b
        invariant
            n == bytes@.len(),
            pos <= p <= n,
            next_brace(bytes@, pos as int) == next_brace(bytes@, p as int),
        decreases n - p,
    {
        p += 1;
    }
    if p == n {
        return None;
    }
    let start = p;
    let mut depth: u64 = 0;
    let mut in_str = false;
    let mut esc = false;
    while p < n
        invariant
            n == bytes@.len(),
            start <= p <= n,
            depth <= p - start,
            start < n,
            next_brace(bytes@, pos as int) == start,
            object_end(bytes@, start as int, 0, false, false) == object_end(
                bytes@,
                p as int,
                depth as int,
                in_str,
                esc,
            ),
            p > start ==> depth > 0,
            !in_str ==> !esc,
            bytes@[start as int] == 0x7b,
            p == start ==> depth == 0 && !in_str && !esc,
        decreases n - p,
    {
        let c = bytes[p];
        p += 1;
        if in_str {
            if esc {
                esc = false;
            } else if c == 0x5c {
                esc = true;
            } else if c == 0x22 {
                in_str = false;
            }
            continue;
        }
        if c == 0x22 {
            in_str = true;
        } else if c == 0x7b {
            depth += 1;
        } else if c == 0x7d {
            depth -= 1;
            if depth == 0 {
                return Some((start, p));
            }
        }
    }
    None
}

// ---------------------------------------------------------------------------
// Numeric fields
// ---------------------------------------------------------------------------
/// The first index at or after `i` where `n` occurs in `h`.
pub open spec fn first_occ_from(h: Seq<u8>, n: Seq<u8>, i: int) -> Option<int>
    decreases h.len() + 1 - i,
{
    if i < 0 || i + n.len() > h.len() {
        None
    } else if occurs_at(h, n, i) {
        Some(i)
    } else {
        first_occ_from(h, n, i + 1)
    }
}

/// End of the run of ASCII digits from `p`.
pub open spec fn digits_end(b: Seq<u8>, p: int) -> int
    decreases b.len() - p,
{
    if 0 <= p < b.len() && is_digit(b[p]) {
        digits_end(b, p + 1)
    } else {
        p
    }
}

/// The number that the decimal digits `d` spell.
pub open spec fn digits_value(d: Seq<u8>) -> nat
    decreases d.len(),
{
    if d.len() == 0 {
        0
    } else {
        digits_value(d.drop_last()) * 10 + (d.last() - 48) as nat
    }
}

/// `"field":` as bytes.
pub open spec fn field_needle(field: Seq<u8>) -> Seq<u8> {
    seq![0x22u8] + field + seq![0x22u8, 0x3au8]
}

/// The unsigned number right after the first `"field":` of `token`, when
/// digits follow and their number fits in a `u32`.
pub open spec fn u32_field(token: Seq<u8>, field: Seq<u8>) -> Option<u32> {
    let n = field_needle(field);
    match first_occ_from(token, n, 0) {
        None => None,
        Some(i) => {
            let p = i + n.len();
            let e = digits_end(token, p);
            if e == p || digits_value(token.subrange(p, e)) > u32::MAX {
                None
            } else {
                Some(digits_value(token.subrange(p, e)) as u32)
            }
        },
    }
}

proof fn lemma_digits_end(b: Seq<u8>, p: int)
    requires
        0 <= p <= b.len(),
    ensures
        p <= digits_end(b, p) <= b.len(),
        forall|k: int| p <= k < digits_end(b, p) ==> is_digit(#[trigger] b[k]),
    decreases b.len() - p,
{
    if p < b.len() && is_digit(b[p]) {
        lemma_digits_end(b, p + 1);
    }
}

pub proof fn lemma_first_occ_pub(h: Seq<u8>, n: Seq<u8>, i: int)
    requires
        0 <= i,
    ensures
        first_occ_from(h, n, i) matches Some(k) ==> i <= k && occurs_at(h, n, k),
    decreases h.len() + 1 - i,
{
    if i + n.len() <= h.len() && !occurs_at(h, n, i) {
        lemma_first_occ_pub(h, n, i + 1);
    }
}

/// The first occurrence of `needle` in `hay` at or after `from`.
pub fn find_bytes_from(hay: &[u8], needle: &[u8], from: usize) -> (r: Option<usize>)
    requires
        from <= hay@.len(),
    ensures
        r == (match first_occ_from(hay@, needle@, from as int) {
            Some(k) => Some(k as usize),
            None => None,
        }),
        r matches Some(k) ==> from <= k && occurs_at(hay@, needle@, k as int)
            && first_occ_from(hay@, needle@, from as int) == Some(k as int),
{
    proof {
        lemma_first_occ_pub(hay@, needle@, from as int);
    }
    let n = hay.len();
    let m = needle.len();
    if m > n {
        return None;
    }
    let mut i = from;
    while i <= n - m
        invariant
            n == hay@.len(),
            m == needle@.len(),
            m <= n,
            from <= i,
            first_occ_from(hay@, needle@, from as int) == first_occ_from(hay@, needle@, i as int),
        decreases n - i,
    {
        let mut k: usize = 0;
        let mut same = true;
        while k < m
            invariant
                n == hay@.len(),
                m == needle@.len(),
                i + m <= n,
                k <= m,
                same == (forall|t: int| 0 <= t < k ==> hay@[i + t] == needle@[t]),
            decreases m - k,
        {
            if hay[i + k] != needle[k] {
                same = false;
            }
            k += 1;
        }
        if same {
            assert(hay@.subrange(i as int, i + m) =~= needle@);
            return Some(i);
        }
        assert(!occurs_at(hay@, needle@, i as int)) by {
            if occurs_at(hay@, needle@, i as int) {
                assert forall|t: int| 0 <= t < m implies hay@[i + t] == needle@[t] by {
                    assert(hay@.subrange(i as int, i + m)[t] == hay@[i + t]);
                }
            }
        }
        i += 1;
    }
    None
}

/// The unsigned number that follows `"field":` in one token object, if
/// digits follow and their number fits in a `u32`.
pub fn token_u32_field(token: &str, field: &str) -> (r: Option<u32>)
    ensures
        r == u32_field(token.spec_bytes(), field.spec_bytes()),
{
    let bytes = token.as_bytes();
    let fb = field.as_bytes();
    let mut needle: Vec<u8> = Vec::new();
    needle.push(0x22);
    let mut t: usize = 0;
    while t < fb.len()
        invariant
            t <= fb@.len(),
            needle@ == seq![0x22u8] + fb@.subrange(0, t as int),
        decreases fb@.len() - t,
    {
        needle.push(fb[t]);
        t += 1;
        assert(needle@ == seq![0x22u8] + fb@.subrange(0, t as int));
    }
    needle.push(0x22);
    needle.push(0x3a);
    assert(needle@ =~= field_needle(fb@));
    let ns = needle.as_slice();
    proof {
        lemma_first_occ_pub(bytes@, ns@, 0);
    }
    let found = find_bytes_from(bytes, ns, 0);
    let i = match found {
        None => {
            return None;
        },
        Some(i) => i,
    };
    let hay_len = bytes.len();
    assert(first_occ_from(bytes@, ns@, 0) is Some);
    let ghost k = first_occ_from(bytes@, ns@, 0)->0;
    assert(k + ns@.len() <= hay_len);
    assert(occurs_at(bytes@, ns@, i as int));
    let p = i + ns.len();
    let mut e = p;
    let mut value: u32 = 0;
    let mut overflow = false;
    proof {
        lemma_digits_end(bytes@, p as int);
    }
    while e < bytes.len() && bytes[e] >= 0x30 && bytes[e] <= 0x39
        invariant
            p <= e <= bytes@.len(),
            digits_end(bytes@, p as int) == digits_end(bytes@, e as int),
            overflow == (digits_value(bytes@.subrange(p as int, e as int)) > u32::MAX),
            !overflow ==> value == digits_value(bytes@.subrange(p as int, e as int)),
        decreases bytes@.len() - e,
    {
        let d = (bytes[e] - 0x30) as u32;
        proof {
            assert(bytes@.subrange(p as int, e + 1).drop_last() =~= bytes@.subrange(p as int, e as int));
        }
        if !overflow {
            if value > 429496729 || (value == 429496729 && d > 5) {
                overflow = true;
            } else {
                value = value * 10 + d;
            }
        }
        e += 1;
    }
    if e == p || overflow {
        None
    } else {
        Some(value)
    }
}

// ---------------------------------------------------------------------------
// Keeping the tokens of a span
// ---------------------------------------------------------------------------
/// The token object `tok` has a `start` and an `end` inside `span`.
pub open spec fn token_in_span(tok: Seq<u8>, span: Span) -> bool {
    match (u32_field(tok, "start".spec_bytes()), u32_field(tok, "end".spec_bytes())) {
        (Some(a), Some(b)) => span.start <= a && b <= span.end,
        _ => false,
    }
}

/// The comma-separated token objects of `b` from `p` on that lie inside
/// `span`, appended to `acc`.
pub open spec fn filter_from(b: Seq<u8>, p: int, span: Span, acc: Seq<char>) -> Seq<char>
    decreases b.len() - p,
{
    let q = next_brace(b, p);
    if p < 0 || p > b.len() || q >= b.len() {
        acc
    } else {
        match object_end(b, q, 0, false, false) {
            None => acc,
            Some(e) => {
                proof {
                    lemma_object_end(b, q, 0, false, false);
                    lemma_next_brace(b, p);
                }
                let tok = b.subrange(q, e);
                if token_in_span(tok, span) {
                    let sep = if acc.len() == 0 {
                        acc
                    } else {
                        acc.push(',')
                    };
                    filter_from(b, e, span, sep + decode_utf8(tok))
                } else {
                    filter_from(b, e, span, acc)
                }
            },
        }
    }
}

/// The token objects of `tokens` that lie inside `span`, joined by commas.
pub fn filter_tokens_in_span(tokens: &str, span: Span) -> (r: String)
    ensures
        r@ == filter_from(tokens.spec_bytes(), 0, span, seq![]),
{
    let bytes = tokens.as_bytes();
    let ghost b = tokens.spec_bytes();
    let mut out = String::new();
    let mut pos: usize = 0;
    proof {
        reveal_strlit(",");
    }
    loop
        invariant
            bytes@ == b,
            b == tokens.spec_bytes(),
            pos <= b.len(),
            ascii_adjacent(b, pos as int),
            filter_from(b, 0, span, seq![]) == filter_from(b, pos as int, span, out@),
        decreases b.len() - pos,
    {
        let next = next_token_object(bytes, pos);
        match next {
            None => {
                return out;
            },
            Some((start, end)) => {
                proof {
                    lemma_object_end(b, start as int, 0, false, false);
                    lemma_next_brace(b, pos as int);
                }
                let tok = slice_between_ascii(tokens, start, end);
                let a = token_u32_field(tok, "start");
                let z = token_u32_field(tok, "end");
                let keep = match (a, z) {
                    (Some(a), Some(z)) => span.start <= a && z <= span.end,
                    _ => false,
                };
                let ghost before = out@;
                if keep {
                    if !out.as_str().is_empty() {
                        out.append(",");
                        proof {
                            reveal_strlit(",");
                        }
                        assert(before + ","@ =~= before.push(','));
                    }
                    out.append(tok);
                }
                assert(tok.spec_bytes() == b.subrange(start as int, end as int));
                assert(keep == token_in_span(b.subrange(start as int, end as int), span));
                pos = end;
            },
        }
    }
}

} // verus!
