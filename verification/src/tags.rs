//! Name classes of HTML elements, and the pieces of a directive's name
//! and of a `v-for` value.
use vstd::prelude::*;
use vstd::string::StringSliceAdditionalSpecFns;
use vstd::utf8::*;

use crate::json::{find_bytes_from, first_occ_from};
use crate::oxc::occurs_at;
use crate::scanner::eq_bytes;
use crate::template::is_void_name;
use crate::emit::lemma_encode_concat;
use crate::span::Span;
use crate::text::{
    ascii_adjacent, ascii_lowercase, lemma_trim_end_prefix, lemma_trim_start_suffix, lower_char, slice_between_ascii,
    str_trim, str_trim_start, trim_chars, trim_end_chars, trim_start_chars,
};
use crate::tokens::{is_raw_text_name, is_rcdata_name};

verus! {

broadcast use vstd::string::group_string_axioms;

/// The UTF-8 bytes of `name` after ASCII lower-casing.
pub open spec fn lowered_name(name: Seq<char>) -> Seq<u8> {
    encode_utf8(name.map_values(|c: char| lower_char(c)))
}

/// Whether `name`, in any ASCII case, is an element whose content is raw
/// text.
pub fn is_raw_text_tag(name: &str) -> (r: bool)
    ensures
        r == is_raw_text_name(lowered_name(name@)),
{
    let lowered = ascii_lowercase(name);
    let b = lowered.as_str().as_bytes();
    eq_bytes(b, "script".as_bytes()) || eq_bytes(b, "style".as_bytes()) || eq_bytes(b, "xmp".as_bytes())
        || eq_bytes(b, "iframe".as_bytes()) || eq_bytes(b, "noembed".as_bytes()) || eq_bytes(
        b,
        "noframes".as_bytes(),
    ) || eq_bytes(b, "noscript".as_bytes()) || eq_bytes(b, "plaintext".as_bytes())
}

/// Whether `name`, in any ASCII case, is `textarea` or `title`.
pub fn is_rc_data_tag(name: &str) -> (r: bool)
    ensures
        r == is_rcdata_name(lowered_name(name@)),
{
    let lowered = ascii_lowercase(name);
    let b = lowered.as_str().as_bytes();
    eq_bytes(b, "textarea".as_bytes()) || eq_bytes(b, "title".as_bytes())
}

/// Whether `name`, in any ASCII case, is a void element, which has no
/// content and no end tag.
pub fn is_void_tag(name: &str) -> (r: bool)
    ensures
        r == is_void_name(lowered_name(name@)),
{
    let lowered = ascii_lowercase(name);
    let b = lowered.as_str().as_bytes();
    eq_bytes(b, "area".as_bytes()) || eq_bytes(b, "base".as_bytes()) || eq_bytes(b, "br".as_bytes())
        || eq_bytes(b, "col".as_bytes()) || eq_bytes(b, "embed".as_bytes()) || eq_bytes(
        b,
        "hr".as_bytes(),
    ) || eq_bytes(b, "img".as_bytes()) || eq_bytes(b, "input".as_bytes()) || eq_bytes(
        b,
        "link".as_bytes(),
    ) || eq_bytes(b, "meta".as_bytes()) || eq_bytes(b, "param".as_bytes()) || eq_bytes(
        b,
        "source".as_bytes(),
    ) || eq_bytes(b, "track".as_bytes()) || eq_bytes(b, "wbr".as_bytes())
}

/// `" in "`, the first operator that a `v-for` value is split at.
pub open spec fn in_op() -> Seq<u8> {
    seq![0x20u8, 0x69u8, 0x6eu8, 0x20u8]
}

/// `" of "`, the operator tried where `" in "` does not occur.
pub open spec fn of_op() -> Seq<u8> {
    seq![0x20u8, 0x6fu8, 0x66u8, 0x20u8]
}

/// Where a `v-for` value is split: the first `" in "`, or else the first
/// `" of "`.
pub open spec fn vfor_operator_at(s: Seq<u8>) -> Option<int> {
    match first_occ_from(s, in_op(), 0) {
        Some(i) => Some(i),
        None => first_occ_from(s, of_op(), 0),
    }
}

proof fn lemma_first_occ_from(h: Seq<u8>, n: Seq<u8>, i: int)
    requires
        0 <= i,
    ensures
        first_occ_from(h, n, i) matches Some(k) ==> i <= k && occurs_at(h, n, k) && forall|j: int|
            i <= j < k ==> !#[trigger] occurs_at(h, n, j),
        first_occ_from(h, n, i) is None ==> forall|j: int| i <= j ==> !#[trigger] occurs_at(h, n, j),
    decreases h.len() + 1 - i,
{
    if i + n.len() <= h.len() && !occurs_at(h, n, i) {
        lemma_first_occ_from(h, n, i + 1);
    }
}

/// Law: a `v-for` value is split at its first `" in "`, or, where it has
/// none, at its first `" of "`; where it has neither it is not split. The
/// text before, the operator and the text after rejoin to the value.
pub proof fn vfor_split_rejoins(s: Seq<u8>)
    ensures
        match vfor_operator_at(s) {
            Some(i) => {
                let op = s.subrange(i, i + 4);
                &&& 0 <= i && i + 4 <= s.len()
                &&& (op == in_op() || op == of_op())
                &&& op == of_op() ==> forall|j: int| !#[trigger] occurs_at(s, in_op(), j)
                &&& forall|j: int| 0 <= j < i ==> !#[trigger] occurs_at(s, op, j)
                &&& s.subrange(0, i) + op + s.subrange(i + 4, s.len() as int) == s
            },
            None => forall|j: int| !#[trigger] occurs_at(s, in_op(), j) && !occurs_at(s, of_op(), j),
        },
{
    lemma_first_occ_from(s, in_op(), 0);
    lemma_first_occ_from(s, of_op(), 0);
    match vfor_operator_at(s) {
        Some(i) => {
            assert(s.subrange(0, i) + s.subrange(i, i + 4) + s.subrange(i + 4, s.len() as int) =~= s);
            if first_occ_from(s, in_op(), 0) is None {
                assert(s.subrange(i, i + 4) == of_op());
                assert(in_op() != of_op()) by {
                    assert(in_op()[1] != of_op()[1]);
                }
            }
        },
        None => {},
    }
}

/// Splits a `v-for` value into the text before its operator, the text
/// after it, and the operator's byte offset.
pub fn split_v_for_expression(source: &str) -> (r: Option<(&str, &str, usize)>)
    ensures
        match vfor_operator_at(source.spec_bytes()) {
            None => r is None,
            Some(i) => r matches Some((left, right, index)) && {
                &&& index == i
                &&& left.spec_bytes() == source.spec_bytes().subrange(0, i)
                &&& right.spec_bytes() == source.spec_bytes().subrange(i + 4, source.spec_bytes().len() as int)
            },
        },
{
    let b = source.as_bytes();
    let op_in: &[u8] = &[0x20, 0x69, 0x6e, 0x20];
    let op_of: &[u8] = &[0x20, 0x6f, 0x66, 0x20];
    assert(op_in@ =~= in_op());
    assert(op_of@ =~= of_op());
    let first = find_bytes_from(b, op_in, 0);
    let found = if first.is_some() {
        first
    } else {
        find_bytes_from(b, op_of, 0)
    };
    match found {
        None => None,
        Some(i) => {
            proof {
                let op = if first_occ_from(b@, in_op(), 0) is Some { in_op() } else { of_op() };
                assert(occurs_at(b@, op, i as int));
                assert(op.len() == 4);
                assert(i + 4 <= b@.len());
                assert(b@.subrange(i as int, i + 4) == op);
                assert(b@.subrange(i as int, i + 4)[0] == b@[i as int]);
                assert(b@.subrange(i as int, i + 4)[3] == b@[i + 3]);
            }
            let left = slice_between_ascii(source, 0, i);
            let n = b.len();
            assert(i + 4 <= n);
            let right = slice_between_ascii(source, i + 4, n);
            Some((left, right, i))
        },
    }
}

/// The first `.` at or after `p`, or the end of `b`.
pub open spec fn dot_from(b: Seq<u8>, p: int) -> int
    decreases b.len() - p,
{
    if 0 <= p < b.len() {
        if b[p] == 0x2e {
            p
        } else {
            dot_from(b, p + 1)
        }
    } else {
        b.len() as int
    }
}

pub proof fn lemma_dot_from(b: Seq<u8>, p: int)
    requires
        0 <= p <= b.len(),
    ensures
        p <= dot_from(b, p) <= b.len(),
        dot_from(b, p) < b.len() ==> b[dot_from(b, p)] == 0x2e,
        forall|k: int| p <= k < dot_from(b, p) ==> b[k] != 0x2e,
    decreases b.len() - p,
{
    if p < b.len() && b[p] != 0x2e {
        lemma_dot_from(b, p + 1);
    }
}

/// The byte ranges of the non-empty `.`-separated pieces of `b` from `p`
/// on, each as `(start, end)`.
pub open spec fn modifier_ranges(b: Seq<u8>, p: int) -> Seq<(int, int)>
    decreases b.len() + 1 - p,
{
    if 0 <= p <= b.len() {
        let e = dot_from(b, p);
        proof {
            lemma_dot_from(b, p);
        }
        (if e > p {
            seq![(p, e)]
        } else {
            seq![]
        }) + (if e < b.len() {
            modifier_ranges(b, e + 1)
        } else {
            seq![]
        })
    } else {
        seq![]
    }
}

/// Where the argument of a directive's name rest starts: after a leading
/// `:`, if there is one.
pub open spec fn argument_offset(b: Seq<u8>) -> int {
    if b.len() > 0 && b[0] == 0x3a {
        1
    } else {
        0
    }
}

/// The modifiers of a directive's name rest: the pieces after the
/// argument's first `.`.
pub open spec fn modifiers_of(b: Seq<u8>) -> Seq<(int, int)> {
    let e = dot_from(b, argument_offset(b));
    if e < b.len() {
        modifier_ranges(b, e + 1)
    } else {
        seq![]
    }
}

proof fn lemma_modifier_ranges(b: Seq<u8>, p: int)
    requires
        0 <= p <= b.len(),
    ensures
        ({
            let m = modifier_ranges(b, p);
            &&& forall|i: int| 0 <= i < m.len() ==> p <= #[trigger] m[i].0 < m[i].1 <= b.len()
            &&& forall|i: int, k: int| 0 <= i < m.len() && #[trigger] m[i].0 <= k < m[i].1 ==> #[trigger] b[k] != 0x2e
            &&& forall|i: int, j: int| 0 <= i < j < m.len() ==> #[trigger] m[i].1 < #[trigger] m[j].0
        }),
    decreases b.len() + 1 - p,
{
    lemma_dot_from(b, p);
    let e = dot_from(b, p);
    let head: Seq<(int, int)> = if e > p {
        seq![(p, e)]
    } else {
        seq![]
    };
    let tail = if e < b.len() {
        modifier_ranges(b, e + 1)
    } else {
        seq![]
    };
    if e < b.len() {
        lemma_modifier_ranges(b, e + 1);
    }
    let m = modifier_ranges(b, p);
    assert(m == head + tail);
    assert forall|i: int| 0 <= i < m.len() implies p <= #[trigger] m[i].0 < m[i].1 <= b.len() by {
        if i >= head.len() {
            assert(m[i] == tail[i - head.len()]);
        }
    }
    assert forall|i: int, k: int| 0 <= i < m.len() && #[trigger] m[i].0 <= k < m[i].1 implies #[trigger] b[k] != 0x2e by {
        if i >= head.len() {
            assert(m[i] == tail[i - head.len()]);
        }
    }
    assert forall|i: int, j: int| 0 <= i < j < m.len() implies #[trigger] m[i].1 < #[trigger] m[j].0 by {
        assert(m[j] == tail[j - head.len()]);
        if i >= head.len() {
            assert(m[i] == tail[i - head.len()]);
        }
    }
}

/// Law: the modifiers of a directive's name rest are non-empty pieces
/// without a `.`, inside the text, in source order, each one separated
/// from the next by at least one `.`; none of them overlaps the argument.
pub proof fn modifiers_are_dot_free_pieces(b: Seq<u8>)
    ensures
        ({
            let m = modifiers_of(b);
            let arg_end = dot_from(b, argument_offset(b));
            &&& forall|i: int| 0 <= i < m.len() ==> arg_end < #[trigger] m[i].0 < m[i].1 <= b.len()
            &&& forall|i: int, k: int| 0 <= i < m.len() && #[trigger] m[i].0 <= k < m[i].1 ==> #[trigger] b[k] != 0x2e
            &&& forall|i: int, j: int| 0 <= i < j < m.len() ==> #[trigger] m[i].1 < #[trigger] m[j].0
        }),
{
    let off = argument_offset(b);
    lemma_dot_from(b, off);
    let e = dot_from(b, off);
    if e < b.len() {
        lemma_modifier_ranges(b, e + 1);
    }
}

/// The first `.` at or after `p`, or the end of `b`.
fn dot_after(b: &[u8], p: usize) -> (r: usize)
    requires
        p <= b@.len(),
    ensures
        r == dot_from(b@, p as int),
{
    let n = b.len();
    let mut k = p;
    while k < n
        invariant
            n == b@.len(),
            p <= k <= n,
            dot_from(b@, p as int) == dot_from(b@, k as int),
        decreases n - k,
    {
        if b[k] == 0x2e {
            return k;
        }
        k += 1;
    }
    k
}

/// Splits what follows a directive's name (`:arg.mod1.mod2`, or
/// `arg.mod`) into its argument and its non-empty modifiers, each with
/// its byte offset in `rest`.
pub fn split_directive_argument(rest: &str) -> (r: (Option<(&str, usize)>, Vec<(&str, usize)>))
    ensures
        ({
            let b = rest.spec_bytes();
            let off = argument_offset(b);
            let e = dot_from(b, off);
            match r.0 {
                Some((a, o)) => e > off && o == off && a.spec_bytes() == b.subrange(off, e),
                None => e == off,
            }
        }),
        r.1@.len() == modifiers_of(rest.spec_bytes()).len(),
        forall|i: int|
            0 <= i < r.1@.len() ==> {
                let m = modifiers_of(rest.spec_bytes())[i];
                &&& r.1@[i].1 == m.0
                &&& (#[trigger] r.1@[i]).0.spec_bytes() == rest.spec_bytes().subrange(m.0, m.1)
            },
{
    let b = rest.as_bytes();
    let n = b.len();
    let off: usize = if n > 0 && b[0] == 0x3a {
        1
    } else {
        0
    };
    let e = dot_after(b, off);
    proof {
        lemma_dot_from(b@, off as int);
    }
    let argument = if e > off {
        Some((slice_between_ascii(rest, off, e), off))
    } else {
        None
    };
    let mut modifiers: Vec<(&str, usize)> = Vec::new();
    let mut more = e < n;
    let mut p: usize = if more {
        e + 1
    } else {
        n
    };
    let ghost all = modifiers_of(b@);
    let ghost mut done: Seq<(int, int)> = seq![];
    while more
        invariant
            n == b@.len(),
            b@ == rest.spec_bytes(),
            p <= n,
            more ==> ascii_adjacent(b@, p as int),
            more ==> done + modifier_ranges(b@, p as int) == all,
            !more ==> done == all,
            modifiers@.len() == done.len(),
            forall|i: int|
                0 <= i < done.len() ==> {
                    &&& modifiers@[i].1 == done[i].0
                    &&& (#[trigger] modifiers@[i]).0.spec_bytes() == b@.subrange(done[i].0, done[i].1)
                },
        decreases (if more { n + 1 - p } else { 0 }),
    {
        let q = dot_after(b, p);
        proof {
            lemma_dot_from(b@, p as int);
        }
        let ghost before = done;
        if q > p {
            let piece = slice_between_ascii(rest, p, q);
            modifiers.push((piece, p));
            proof {
                done = done.push((p as int, q as int));
            }
        }
        if q < n {
            proof {
                assert(done + modifier_ranges(b@, q + 1) =~= before + modifier_ranges(b@, p as int));
            }
            p = q + 1;
        } else {
            proof {
                assert(done =~= before + modifier_ranges(b@, p as int));
            }
            more = false;
        }
    }
    proof {
        if !(e < n) {
            assert(all =~= Seq::<(int, int)>::empty());
        }
    }
    (argument, modifiers)
}

/// Where the trimmed text of `child` starts in `parent_source`: at the
/// first occurrence of `child` (or at 0 where it does not occur), after
/// its leading whitespace.
pub open spec fn trimmed_start_in(parent_source: Seq<u8>, child: Seq<char>) -> int {
    let found = match first_occ_from(parent_source, encode_utf8(child), 0) {
        Some(i) => i,
        None => 0,
    };
    found + (encode_utf8(child).len() - encode_utf8(trim_start_chars(child)).len())
}

proof fn lemma_trimmed_lengths(c: Seq<char>)
    ensures
        encode_utf8(trim_start_chars(c)).len() <= encode_utf8(c).len(),
        encode_utf8(trim_chars(c)).len() <= encode_utf8(trim_start_chars(c)).len(),
{
    lemma_trim_start_suffix(c);
    let k = choose|k: int| 0 <= k <= c.len() && #[trigger] c.skip(k) == trim_start_chars(c);
    lemma_encode_concat(c.take(k), c.skip(k));
    assert(c =~= c.take(k) + c.skip(k));
    let t = trim_start_chars(c);
    lemma_trim_end_prefix(t);
    let j = choose|j: int| 0 <= j <= t.len() && #[trigger] t.take(j) == trim_end_chars(t);
    lemma_encode_concat(t.take(j), t.skip(j));
    assert(t =~= t.take(j) + t.skip(j));
}

/// The span, inside `parent`, of the trimmed text of `child`, found at
/// its first occurrence in `parent_source` (the text of `parent`).
pub fn trimmed_sub_span(parent: Span, child: &str, parent_source: &str) -> (r: Span)
    requires
        parent.start + trimmed_start_in(parent_source.spec_bytes(), child@) + encode_utf8(
            trim_chars(child@),
        ).len() <= u32::MAX,
    ensures
        r.start == parent.start + trimmed_start_in(parent_source.spec_bytes(), child@),
        r.end == r.start + encode_utf8(trim_chars(child@)).len(),
{
    proof {
        lemma_trimmed_lengths(child@);
    }
    let leading = child.as_bytes().len() - str_trim_start(child).as_bytes().len();
    let len = str_trim(child).as_bytes().len();
    let found = match find_bytes_from(parent_source.as_bytes(), child.as_bytes(), 0) {
        Some(i) => i,
        None => 0,
    };
    proof {
        assert(child.spec_bytes() == encode_utf8(child@));
        if first_occ_from(parent_source.spec_bytes(), encode_utf8(child@), 0) is None {
            assert(found == 0);
        }
        assert(found + leading == trimmed_start_in(parent_source.spec_bytes(), child@));
    }
    let start = found + leading;
    Span::new(parent.start + start as u32, parent.start + start as u32 + len as u32)
}

} // verus!
