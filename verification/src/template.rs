//! A small template parser producing the V* tree: balanced elements,
//! attributes with Vue's directive shorthands (`:`, `@`, `#`) and `{{ }}`
//! interpolations.
use vstd::prelude::*;
use vstd::string::StringSliceAdditionalSpecFns;
use vstd::utf8::*;

use crate::ast::{
    VElement, VElementChild, VEndTag, VNamespace, VStartTag, VText,
    mjs_kind, SourceKind, VAttribute, VAttributeKey, VAttributeValue, VDirectiveKey, VDirectiveKeyArgument,
    VExprKind, VExpressionContainer, VIdentifier, VLiteral,
};
use crate::scanner::{eq_bytes, find_byte};
use crate::sfc::{find_byte_from, lemma_find_byte_from};
use crate::span::Span;
use crate::text::{
    lemma_boundary, str_slice, is_ascii_alphabetic, ascii_adjacent, eq_ignore_case_at, is_alnum, is_alpha, is_ascii_alphanumeric, is_ascii_whitespace, is_ws, seq_eq_ignore_case, slice_between_ascii,
};

verus! {

broadcast use vstd::string::group_string_axioms, vstd::utf8::encode_utf8_valid_utf8;

// ---------------------------------------------------------------------------
// Attribute lists
// ---------------------------------------------------------------------------
/// First index at or after `i` that is not ASCII whitespace.
pub open spec fn ws_end(r: Seq<u8>, i: int) -> int
    decreases r.len() - i,
{
    if 0 <= i < r.len() && is_ws(r[i]) {
        ws_end(r, i + 1)
    } else {
        i
    }
}

/// End of an attribute key: the next whitespace or `=`.
pub open spec fn key_end(r: Seq<u8>, i: int) -> int
    decreases r.len() - i,
{
    if 0 <= i < r.len() && !is_ws(r[i]) && r[i] != 0x3d {
        key_end(r, i + 1)
    } else {
        i
    }
}

/// End of an unquoted attribute value: the next whitespace or `>`.
pub open spec fn bare_value_end(r: Seq<u8>, i: int) -> int
    decreases r.len() - i,
{
    if 0 <= i < r.len() && !is_ws(r[i]) && r[i] != 0x3e {
        bare_value_end(r, i + 1)
    } else {
        i
    }
}

pub proof fn lemma_ws_end(r: Seq<u8>, i: int)
    requires
        0 <= i <= r.len(),
    ensures
        i <= ws_end(r, i) <= r.len(),
        ws_end(r, i) < r.len() ==> !is_ws(r[ws_end(r, i)]),
        i < ws_end(r, i) ==> is_ws(r[ws_end(r, i) - 1]),
    decreases r.len() - i,
{
    if i < r.len() && is_ws(r[i]) {
        lemma_ws_end(r, i + 1);
    }
}

pub proof fn lemma_key_end(r: Seq<u8>, i: int)
    requires
        0 <= i <= r.len(),
    ensures
        i <= key_end(r, i) <= r.len(),
        key_end(r, i) < r.len() ==> (is_ws(r[key_end(r, i)]) || r[key_end(r, i)] == 0x3d),
    decreases r.len() - i,
{
    if i < r.len() && !is_ws(r[i]) && r[i] != 0x3d {
        lemma_key_end(r, i + 1);
    }
}

pub proof fn lemma_bare_value_end(r: Seq<u8>, i: int)
    requires
        0 <= i <= r.len(),
    ensures
        i <= bare_value_end(r, i) <= r.len(),
        bare_value_end(r, i) < r.len() ==> (is_ws(r[bare_value_end(r, i)]) || r[bare_value_end(
            r,
            i,
        )] == 0x3e),
    decreases r.len() - i,
{
    if i < r.len() && !is_ws(r[i]) && r[i] != 0x3e {
        lemma_bare_value_end(r, i + 1);
    }
}

/// One attribute of an attribute list, as local ranges: its key, where it
/// ends, its value (outer range, then the range inside any quotes) and
/// where the scan goes on.
pub struct RawAttr {
    pub key: (int, int),
    pub end: int,
    pub value: Option<(int, int, int, int)>,
    pub next: int,
}

pub enum AttrStep {
    Done,
    Skip(int),
    Attr(RawAttr),
}

/// One step of the attribute-list scan from `i`.
pub open spec fn attr_step(r: Seq<u8>, i: int) -> AttrStep {
    let i1 = ws_end(r, i);
    if i1 >= r.len() {
        AttrStep::Done
    } else {
        let kh = key_end(r, i1);
        if kh == i1 {
            AttrStep::Skip(i1 + 1)
        } else {
            let probe = ws_end(r, kh);
            if probe < r.len() && r[probe] == 0x3d {
                let p2 = probe + 1;
                let p3 = ws_end(r, p2);
                if p3 < r.len() {
                    if r[p3] == 0x22 || r[p3] == 0x27 {
                        let inner_lo = p3 + 1;
                        let inner_hi = find_byte_from(r, inner_lo, r[p3]);
                        let span_hi = if inner_hi < r.len() {
                            inner_hi + 1
                        } else {
                            inner_hi
                        };
                        AttrStep::Attr(
                            RawAttr {
                                key: (i1, kh),
                                end: span_hi,
                                value: Some((p3, span_hi, inner_lo, inner_hi)),
                                next: span_hi,
                            },
                        )
                    } else {
                        let v_hi = bare_value_end(r, p3);
                        AttrStep::Attr(
                            RawAttr {
                                key: (i1, kh),
                                end: v_hi,
                                value: Some((p3, v_hi, p3, v_hi)),
                                next: v_hi,
                            },
                        )
                    }
                } else {
                    AttrStep::Attr(RawAttr { key: (i1, kh), end: p2, value: None, next: p3 })
                }
            } else {
                AttrStep::Attr(RawAttr { key: (i1, kh), end: kh, value: None, next: probe })
            }
        }
    }
}

pub proof fn lemma_attr_step(r: Seq<u8>, i: int)
    requires
        0 <= i <= r.len(),
    ensures
        match attr_step(r, i) {
            AttrStep::Done => true,
            AttrStep::Skip(n) => i < n <= r.len() && r[n - 1] == 0x3d && ascii_adjacent(r, n),
            AttrStep::Attr(a) => {
                &&& i <= a.key.0 < a.key.1 <= a.end <= r.len()
                &&& a.end <= a.next
                &&& a.key.1 < a.next <= r.len() || (a.key.1 == a.next && a.next == r.len())
                &&& i < a.next
                &&& (ascii_adjacent(r, i) ==> ascii_adjacent(r, a.key.0))
                &&& ascii_adjacent(r, a.next)
                &&& ascii_adjacent(r, a.key.1)
                &&& a.value matches Some(v) ==> {
                    &&& a.key.1 < v.0 <= v.2 <= v.3 <= v.1 == a.end
                    &&& ascii_adjacent(r, v.0)
                    &&& ascii_adjacent(r, v.1)
                    &&& ascii_adjacent(r, v.2)
                    &&& ascii_adjacent(r, v.3)
                }
            },
        },
{
    lemma_ws_end(r, i);
    let i1 = ws_end(r, i);
    if i1 < r.len() {
        lemma_key_end(r, i1);
        let kh = key_end(r, i1);
        if kh == i1 {
            assert(r[i1] == 0x3d);
        } else {
            lemma_ws_end(r, kh);
            let probe = ws_end(r, kh);
            if probe < r.len() && r[probe] == 0x3d {
                lemma_ws_end(r, probe + 1);
                let p3 = ws_end(r, probe + 1);
                if p3 < r.len() {
                    if r[p3] == 0x22 || r[p3] == 0x27 {
                        lemma_find_byte_from(r, p3 + 1, r[p3]);
                    } else {
                        lemma_bare_value_end(r, p3);
                    }
                }
            }
        }
    }
}

/// The attributes of the list `r` from `i` on.
pub open spec fn raw_attrs_from(r: Seq<u8>, i: int) -> Seq<RawAttr>
    decreases r.len() - i,
{
    if i < 0 || i > r.len() {
        seq![]
    } else {
        match attr_step(r, i) {
            AttrStep::Done => seq![],
            AttrStep::Skip(n) => {
                proof {
                    lemma_attr_step(r, i);
                }
                raw_attrs_from(r, n)
            },
            AttrStep::Attr(a) => {
                proof {
                    lemma_attr_step(r, i);
                }
                seq![a] + raw_attrs_from(r, a.next)
            },
        }
    }
}

proof fn lemma_raw_attrs_ordered(r: Seq<u8>, i: int)
    requires
        0 <= i <= r.len(),
    ensures
        ({
            let a = raw_attrs_from(r, i);
            &&& forall|t: int| 0 <= t < a.len() ==> i <= (#[trigger] a[t]).key.0 < a[t].key.1 <= a[t].end <= r.len()
            &&& forall|t: int, u: int| 0 <= t < u < a.len() ==> (#[trigger] a[t]).end <= (#[trigger] a[u]).key.0
        }),
    decreases r.len() - i,
{
    lemma_attr_step(r, i);
    match attr_step(r, i) {
        AttrStep::Done => {},
        AttrStep::Skip(n) => {
            lemma_raw_attrs_ordered(r, n);
        },
        AttrStep::Attr(x) => {
            lemma_raw_attrs_ordered(r, x.next);
            let rest = raw_attrs_from(r, x.next);
            let a = raw_attrs_from(r, i);
            assert(a == seq![x] + rest);
            assert forall|t: int| 0 <= t < a.len() implies i <= (#[trigger] a[t]).key.0 < a[t].key.1 <= a[t].end
                <= r.len() by {
                if t > 0 {
                    assert(a[t] == rest[t - 1]);
                }
            }
            assert forall|t: int, u: int| 0 <= t < u < a.len() implies (#[trigger] a[t]).end <= (
            #[trigger] a[u]).key.0 by {
                assert(a[u] == rest[u - 1]);
                if t > 0 {
                    assert(a[t] == rest[t - 1]);
                }
            }
        },
    }
}

/// Law: the attributes of an attribute list lie inside it in source order
/// without overlap; each has a non-empty key, and its value (if any) after
/// its key.
pub proof fn attributes_are_in_order(r: Seq<u8>)
    ensures
        ({
            let a = raw_attrs_from(r, 0);
            &&& forall|t: int| 0 <= t < a.len() ==> 0 <= (#[trigger] a[t]).key.0 < a[t].key.1 <= a[t].end <= r.len()
            &&& forall|t: int|
                0 <= t < a.len() ==> ((#[trigger] a[t]).value matches Some(v) ==> a[t].key.1 < v.0 && v.1 == a[t].end)
            &&& forall|t: int, u: int| 0 <= t < u < a.len() ==> (#[trigger] a[t]).end <= (#[trigger] a[u]).key.0
        }),
{
    lemma_raw_attrs_ordered(r, 0);
    lemma_raw_attrs_values(r, 0);
}

proof fn lemma_raw_attrs_values(r: Seq<u8>, i: int)
    requires
        0 <= i <= r.len(),
    ensures
        ({
            let a = raw_attrs_from(r, i);
            forall|t: int|
                0 <= t < a.len() ==> ((#[trigger] a[t]).value matches Some(v) ==> a[t].key.1 < v.0 && v.1 == a[t].end)
        }),
    decreases r.len() - i,
{
    lemma_attr_step(r, i);
    match attr_step(r, i) {
        AttrStep::Done => {},
        AttrStep::Skip(n) => {
            lemma_raw_attrs_values(r, n);
        },
        AttrStep::Attr(x) => {
            lemma_raw_attrs_values(r, x.next);
            let rest = raw_attrs_from(r, x.next);
            let a = raw_attrs_from(r, i);
            assert(a == seq![x] + rest);
            assert forall|t: int| 0 <= t < a.len() implies ((#[trigger] a[t]).value matches Some(v) ==> a[t].key.1
                < v.0 && v.1 == a[t].end) by {
                if t > 0 {
                    assert(a[t] == rest[t - 1]);
                }
            }
        },
    }
}

/// The first `:` or `.` at or after `from`, or the length.
pub open spec fn find_colon_or_dot(k: Seq<u8>, from: int) -> int
    decreases k.len() - from,
{
    if from < 0 || from >= k.len() {
        k.len() as int
    } else if k[from] == 0x3a || k[from] == 0x2e {
        from
    } else {
        find_colon_or_dot(k, from + 1)
    }
}

pub proof fn lemma_find_colon_or_dot(k: Seq<u8>, from: int)
    requires
        0 <= from <= k.len(),
    ensures
        from <= find_colon_or_dot(k, from) <= k.len(),
        find_colon_or_dot(k, from) < k.len() ==> (k[find_colon_or_dot(k, from)] == 0x3a
            || k[find_colon_or_dot(k, from)] == 0x2e),
    decreases k.len() - from,
{
    if from < k.len() && !(k[from] == 0x3a || k[from] == 0x2e) {
        lemma_find_colon_or_dot(k, from + 1);
    }
}

pub open spec fn starts_v_dash(k: Seq<u8>) -> bool {
    k.len() >= 2 && k[0] == 0x76 && k[1] == 0x2d
}

/// The length of a directive key's name part (`:`, `@`, `#`, or `v-name`),
/// or `None` for a plain attribute.
pub open spec fn tmpl_name_len(k: Seq<u8>) -> Option<int> {
    if k.len() == 0 {
        None
    } else if k[0] == 0x3a || k[0] == 0x40 || k[0] == 0x23 {
        Some(1)
    } else if starts_v_dash(k) {
        Some(find_colon_or_dot(k, 2))
    } else {
        None
    }
}

/// The argument of a directive key as `(start, end)`; empty when there is
/// none.
pub open spec fn tmpl_arg(k: Seq<u8>, nl: int) -> (int, int) {
    let short = k[0] == 0x3a || k[0] == 0x40 || k[0] == 0x23;
    if !short && nl < k.len() && k[nl] == 0x3a {
        (nl + 1, find_byte_from(k, nl + 1, 0x2e))
    } else if short && nl < k.len() && k[nl] != 0x2e {
        (nl, find_byte_from(k, nl, 0x2e))
    } else {
        (nl, nl)
    }
}

/// The `.modifier` ranges from `c` on (empty modifiers included).
pub open spec fn key_mods(k: Seq<u8>, c: int) -> Seq<(int, int)>
    decreases k.len() - c,
{
    if 0 <= c < k.len() && k[c] == 0x2e {
        let hi = find_byte_from(k, c + 1, 0x2e);
        proof {
            lemma_find_byte_from(k, c + 1, 0x2e);
        }
        seq![(c + 1, hi)] + key_mods(k, hi)
    } else {
        seq![]
    }
}

pub open spec fn ident_is(id: VIdentifier, r: Seq<u8>, lo: int, hi: int, off: int) -> bool {
    &&& id.range.start == off + lo
    &&& id.range.end == off + hi
    &&& id.name.spec_bytes() == r.subrange(lo, hi)
    &&& id.raw_name.spec_bytes() == r.subrange(lo, hi)
}

pub open spec fn idents_are(ids: Seq<VIdentifier>, ranges: Seq<(int, int)>, r: Seq<u8>, off: int) -> bool {
    ids.len() == ranges.len() && forall|t: int|
        0 <= t < ids.len() ==> ident_is(#[trigger] ids[t], r, ranges[t].0, ranges[t].1, off)
}

/// The directive key `dk` was read from the key text `k`, whose name part
/// is `nl` bytes long and whose first byte sits at `base` in the source.
pub open spec fn tmpl_dir_key_is(dk: VDirectiveKey, k: Seq<u8>, nl: int, base: int, end: int) -> bool {
    let (a0, a1) = tmpl_arg(k, nl);
    &&& dk.range.start == base
    &&& dk.range.end == end
    &&& dk.raw.spec_bytes() == k
    &&& ident_is(dk.name, k, 0, nl, base)
    &&& if a0 == a1 {
        dk.argument is None
    } else {
        dk.argument matches Some(VDirectiveKeyArgument::Identifier(id)) && ident_is(id, k, a0, a1, base)
    }
    &&& idents_are(dk.modifiers@, key_mods(k, a1), k, base)
}

/// The key `key` was classified from the key text `k`; `base` and `end`
/// give the key's range in the source.
pub open spec fn tmpl_key_is(key: VAttributeKey, k: Seq<u8>, base: int, end: int) -> bool {
    match tmpl_name_len(k) {
        None => key matches VAttributeKey::Identifier(id) && id.range.start == base && id.range.end
            == end && id.name.spec_bytes() == k && id.raw_name.spec_bytes() == k,
        Some(nl) => key matches VAttributeKey::Directive(dk) && tmpl_dir_key_is(dk, k, nl, base, end),
    }
}

/// The attribute `a` was built from the model `m` of the list `r` that
/// starts at `off` in the source.
pub open spec fn tmpl_attr_is(a: VAttribute, m: RawAttr, r: Seq<u8>, off: int) -> bool {
    let is_dir = tmpl_name_len(r.subrange(m.key.0, m.key.1)) is Some;
    &&& a.range.start == off + m.key.0
    &&& a.range.end == off + m.end
    &&& a.directive == is_dir
    &&& tmpl_key_is(a.key, r.subrange(m.key.0, m.key.1), off + m.key.0, off + m.key.1)
    &&& match m.value {
        None => a.value is None,
        Some(v) => if is_dir {
            a.value matches Some(VAttributeValue::Expression(c)) && c.range.start == off + v.0
                && c.range.end == off + v.1 && c.expression_range.start == off + v.2
                && c.expression_range.end == off + v.3 && c.raw_expression.spec_bytes()
                == r.subrange(v.2, v.3) && !c.raw && !c.same_name_shorthand && c.kind
                == VExprKind::Default && c.source_type == mjs_kind()
        } else {
            a.value matches Some(VAttributeValue::Literal(l)) && l.range.start == off + v.0
                && l.range.end == off + v.1 && l.value.spec_bytes() == r.subrange(v.2, v.3)
        },
    }
}

pub open spec fn tmpl_attrs_are(v: Seq<VAttribute>, m: Seq<RawAttr>, r: Seq<u8>, off: int) -> bool {
    v.len() == m.len() && forall|t: int| 0 <= t < v.len() ==> tmpl_attr_is(#[trigger] v[t], m[t], r, off)
}

fn skip_ws(bytes: &[u8], from: usize) -> (r: usize)
    requires
        from <= bytes@.len(),
    ensures
        r == ws_end(bytes@, from as int),
{
    let n = bytes.len();
    let mut i = from;
    while i < n && is_ascii_whitespace(bytes[i])
        invariant
            n == bytes@.len(),
            from <= i <= n,
            ws_end(bytes@, from as int) == ws_end(bytes@, i as int),
        decreases n - i,
    {
        i += 1;
    }
    i
}

fn scan_key(bytes: &[u8], from: usize) -> (r: usize)
    requires
        from <= bytes@.len(),
    ensures
        r == key_end(bytes@, from as int),
{
    let n = bytes.len();
    let mut i = from;
    while i < n && !is_ascii_whitespace(bytes[i]) && bytes[i] != 0x3d
        invariant
            n == bytes@.len(),
            from <= i <= n,
            key_end(bytes@, from as int) == key_end(bytes@, i as int),
        decreases n - i,
    {
        i += 1;
    }
    i
}

fn scan_bare_value(bytes: &[u8], from: usize) -> (r: usize)
    requires
        from <= bytes@.len(),
    ensures
        r == bare_value_end(bytes@, from as int),
{
    let n = bytes.len();
    let mut i = from;
    while i < n && !is_ascii_whitespace(bytes[i]) && bytes[i] != 0x3e
        invariant
            n == bytes@.len(),
            from <= i <= n,
            bare_value_end(bytes@, from as int) == bare_value_end(bytes@, i as int),
        decreases n - i,
    {
        i += 1;
    }
    i
}

pub(crate) fn scan_colon_or_dot(bytes: &[u8], from: usize) -> (r: usize)
    requires
        from <= bytes@.len(),
    ensures
        r == find_colon_or_dot(bytes@, from as int),
{
    let n = bytes.len();
    let mut i = from;
    while i < n && bytes[i] != 0x3a && bytes[i] != 0x2e
        invariant
            n == bytes@.len(),
            from <= i <= n,
            find_colon_or_dot(bytes@, from as int) == find_colon_or_dot(bytes@, i as int),
        decreases n - i,
    {
        i += 1;
    }
    i
}

pub(crate) fn make_ident<'a>(raw: &'a str, lo: usize, hi: usize, base: u32) -> (r: VIdentifier<'a>)
    requires
        lo <= hi <= raw.spec_bytes().len(),
        base + raw.spec_bytes().len() <= u32::MAX,
        ascii_adjacent(raw.spec_bytes(), lo as int),
        ascii_adjacent(raw.spec_bytes(), hi as int),
    ensures
        ident_is(r, raw.spec_bytes(), lo as int, hi as int, base as int),
{
    let text = slice_between_ascii(raw, lo, hi);
    VIdentifier { range: Span::new(base + lo as u32, base + hi as u32), name: text, raw_name: text }
}

/// Builds the directive key of `raw`, whose name part is `name_len` bytes
/// long: an optional argument (after `:` in the `v-name:arg` form, right
/// after the prefix in the shorthand forms) and the `.modifiers`.
fn parse_directive_key<'a>(raw: &'a str, name_len: usize, span: Span) -> (r: (
    VAttributeKey<'a>,
    bool,
))
    requires
        tmpl_name_len(raw.spec_bytes()) == Some(name_len as int),
        span.start + raw.spec_bytes().len() <= u32::MAX,
    ensures
        r.1,
        r.0 matches VAttributeKey::Directive(dk) && tmpl_dir_key_is(
            dk,
            raw.spec_bytes(),
            name_len as int,
            span.start as int,
            span.end as int,
        ),
{
    let ghost k = raw.spec_bytes();
    let bytes = raw.as_bytes();
    let len = bytes.len();
    proof {
        if starts_v_dash(k) {
            lemma_find_colon_or_dot(k, 2);
        }
    }
    assert(ascii_adjacent(k, name_len as int));
    let name_ident = make_ident(raw, 0, name_len, span.start);
    let b0 = bytes[0];
    let is_shorthand = b0 == 0x3a || b0 == 0x40 || b0 == 0x23;
    let (arg_lo, arg_hi) = if !is_shorthand && name_len < len && bytes[name_len] == 0x3a {
        let d = find_byte(bytes, name_len + 1, 0x2e);
        (name_len + 1, d)
    } else if is_shorthand && name_len < len && bytes[name_len] != 0x2e {
        let d = find_byte(bytes, name_len, 0x2e);
        (name_len, d)
    } else {
        (name_len, name_len)
    };
    assert((arg_lo as int, arg_hi as int) == tmpl_arg(k, name_len as int));
    proof {
        lemma_find_byte_from(k, arg_lo as int, 0x2e);
    }
    let argument = if arg_lo == arg_hi {
        None
    } else {
        Some(VDirectiveKeyArgument::Identifier(make_ident(raw, arg_lo, arg_hi, span.start)))
    };
    let mut modifiers: Vec<VIdentifier<'a>> = Vec::new();
    let ghost mut done: Seq<(int, int)> = seq![];
    let mut cursor = arg_hi;
    while cursor < len && bytes[cursor] == 0x2e
        invariant
            len == k.len(),
            k == raw.spec_bytes(),
            bytes@ == k,
            arg_hi <= cursor <= len,
            ascii_adjacent(k, cursor as int),
            span.start + len <= u32::MAX,
            key_mods(k, arg_hi as int) == done + key_mods(k, cursor as int),
            idents_are(modifiers@, done, k, span.start as int),
        decreases len - cursor,
    {
        let mod_lo = cursor + 1;
        let mod_hi = find_byte(bytes, mod_lo, 0x2e);
        proof {
            lemma_find_byte_from(k, mod_lo as int, 0x2e);
        }
        let m = make_ident(raw, mod_lo, mod_hi, span.start);
        modifiers.push(m);
        proof {
            let piece = (mod_lo as int, mod_hi as int);
            assert(key_mods(k, cursor as int) == seq![piece] + key_mods(k, mod_hi as int));
            assert(done.push(piece) + key_mods(k, mod_hi as int) == done + key_mods(
                k,
                cursor as int,
            ));
            done = done.push(piece);
        }
        cursor = mod_hi;
    }
    assert(key_mods(k, cursor as int) == Seq::<(int, int)>::empty());
    assert(done + key_mods(k, cursor as int) == done);
    let dk = VDirectiveKey { range: span, name: name_ident, argument, modifiers, raw };
    (VAttributeKey::Directive(dk), true)
}

/// Classifies an attribute key: a directive (`v-name`, or one of the
/// shorthands `:`, `@`, `#`) or a plain attribute name.
fn classify_key<'a>(raw: &'a str, span: Span) -> (r: (VAttributeKey<'a>, bool))
    requires
        span.start + raw.spec_bytes().len() <= u32::MAX,
    ensures
        tmpl_key_is(r.0, raw.spec_bytes(), span.start as int, span.end as int),
        r.1 == tmpl_name_len(raw.spec_bytes()) is Some,
{
    let bytes = raw.as_bytes();
    let len = bytes.len();
    if len == 0 {
        return (VAttributeKey::Identifier(VIdentifier { range: span, name: raw, raw_name: raw }), false);
    }
    let b0 = bytes[0];
    if b0 == 0x3a || b0 == 0x40 || b0 == 0x23 {
        parse_directive_key(raw, 1, span)
    } else if len >= 2 && b0 == 0x76 && bytes[1] == 0x2d {
        let name_len = scan_colon_or_dot(bytes, 2);
        parse_directive_key(raw, name_len, span)
    } else {
        (VAttributeKey::Identifier(VIdentifier { range: span, name: raw, raw_name: raw }), false)
    }
}

/// Parses the attribute list `raw` found between a tag's name and its
/// closing `>`; `raw_offset` is where `raw` starts in the source. Keys
/// run up to whitespace or `=`; a value is quoted (an unclosed quote runs
/// to the end) or bare (up to whitespace or `>`). Directive values become
/// expression containers, other values literals.
pub fn parse_attributes<'a>(_full_source: &'a str, raw: &'a str, raw_offset: u32) -> (r: Vec<
    VAttribute<'a>,
>)
    requires
        raw_offset + raw.spec_bytes().len() <= u32::MAX,
    ensures
        tmpl_attrs_are(r@, raw_attrs_from(raw.spec_bytes(), 0), raw.spec_bytes(), raw_offset as int),
{
    let ghost r = raw.spec_bytes();
    let bytes = raw.as_bytes();
    let len = bytes.len();
    let mut out: Vec<VAttribute<'a>> = Vec::new();
    let ghost mut done: Seq<RawAttr> = seq![];
    let mut i: usize = 0;
    while i < len
        invariant
            r == raw.spec_bytes(),
            bytes@ == r,
            len == r.len(),
            raw_offset + len <= u32::MAX,
            0 <= i <= len,
            ascii_adjacent(r, i as int),
            raw_attrs_from(r, 0) == done + raw_attrs_from(r, i as int),
            tmpl_attrs_are(out@, done, r, raw_offset as int),
        ensures
            i == len,
            raw_attrs_from(r, 0) == done + raw_attrs_from(r, i as int),
            tmpl_attrs_are(out@, done, r, raw_offset as int),
        decreases len - i,
    {
        proof {
            lemma_attr_step(r, i as int);
            lemma_ws_end(r, i as int);
        }
        let i1 = skip_ws(bytes, i);
        if i1 >= len {
            assert(raw_attrs_from(r, i as int) == Seq::<RawAttr>::empty());
            assert(done + raw_attrs_from(r, i as int) == done);
            i = len;
            assert(raw_attrs_from(r, i as int) == Seq::<RawAttr>::empty());
            break;
        }
        let kh = scan_key(bytes, i1);
        if kh == i1 {
            i = i1 + 1;
            continue;
        }
        let ghost step = attr_step(r, i as int);
        let ghost m = step->Attr_0;
        assert(step is Attr);
        let key_text = slice_between_ascii(raw, i1, kh);
        let probe = skip_ws(bytes, kh);
        let mut value: Option<(usize, usize, usize, usize)> = None;
        let mut attr_hi = kh;
        let next;
        if probe < len && bytes[probe] == 0x3d {
            let p2 = probe + 1;
            attr_hi = p2;
            let p3 = skip_ws(bytes, p2);
            if p3 < len {
                let q = bytes[p3];
                if q == 0x22 || q == 0x27 {
                    let inner_lo = p3 + 1;
                    let inner_hi = find_byte(bytes, inner_lo, q);
                    let span_hi = if inner_hi < len {
                        inner_hi + 1
                    } else {
                        inner_hi
                    };
                    value = Some((p3, span_hi, inner_lo, inner_hi));
                    attr_hi = span_hi;
                    next = span_hi;
                } else {
                    let v_hi = scan_bare_value(bytes, p3);
                    value = Some((p3, v_hi, p3, v_hi));
                    attr_hi = v_hi;
                    next = v_hi;
                }
            } else {
                next = p3;
            }
        } else {
            next = probe;
        }
        assert(m.key == (i1 as int, kh as int));
        assert(m.end == attr_hi as int);
        assert(m.next == next as int);
        assert(match m.value {
            None => value is None,
            Some(v) => value matches Some(w) && v == (w.0 as int, w.1 as int, w.2 as int, w.3 as int),
        });
        let key_span = Span::new(raw_offset + i1 as u32, raw_offset + kh as u32);
        let attr_span = Span::new(raw_offset + i1 as u32, raw_offset + attr_hi as u32);
        let (key_node, is_directive) = classify_key(key_text, key_span);
        let value_node = match value {
            None => None,
            Some((v_lo, v_hi, in_lo, in_hi)) => {
                let txt = slice_between_ascii(raw, in_lo, in_hi);
                let sp = Span::new(raw_offset + v_lo as u32, raw_offset + v_hi as u32);
                if is_directive {
                    Some(
                        VAttributeValue::Expression(
                            VExpressionContainer {
                                range: sp,
                                raw_expression: txt,
                                expression_range: Span::new(
                                    raw_offset + in_lo as u32,
                                    raw_offset + in_hi as u32,
                                ),
                                raw: false,
                                same_name_shorthand: false,
                                kind: VExprKind::Default,
                                source_type: SourceKind::mjs(),
                            },
                        ),
                    )
                } else {
                    Some(VAttributeValue::Literal(VLiteral { range: sp, value: txt }))
                }
            },
        };
        let attr = VAttribute {
            range: attr_span,
            directive: is_directive,
            key: key_node,
            value: value_node,
        };
        assert(tmpl_attr_is(attr, m, r, raw_offset as int));
        out.push(attr);
        proof {
            assert(raw_attrs_from(r, i as int) == seq![m] + raw_attrs_from(r, next as int));
            assert(done.push(m) + raw_attrs_from(r, next as int) == done + raw_attrs_from(
                r,
                i as int,
            ));
            done = done.push(m);
        }
        i = next;
    }
    assert(attr_step(r, i as int) is Done);
    assert(raw_attrs_from(r, i as int) == Seq::<RawAttr>::empty());
    assert(done + raw_attrs_from(r, i as int) == done);
    out
}

// ---------------------------------------------------------------------------
// Element trees
// ---------------------------------------------------------------------------
/// A byte of a template tag name (letters, digits, `-`, `_`, `:`, `.`).
pub open spec fn tmpl_name_part(b: u8) -> bool {
    is_alnum(b) || b == 0x2d || b == 0x5f || b == 0x3a || b == 0x2e
}

/// End of the run of tag-name bytes from `p`.
pub open spec fn tmpl_name_end(s: Seq<u8>, p: int) -> int
    decreases s.len() - p,
{
    if 0 <= p < s.len() && tmpl_name_part(s[p]) {
        tmpl_name_end(s, p + 1)
    } else {
        p
    }
}

/// Where a start tag ends when its name ends at `p`: just past `>` or
/// `/>` (the flag says which), skipping quoted values; at the end of the
/// text when neither comes.
pub open spec fn tag_end_from(s: Seq<u8>, p: int) -> (int, bool)
    decreases s.len() - p,
{
    if p < 0 || p >= s.len() {
        (p, false)
    } else if s[p] == 0x3e {
        (p + 1, false)
    } else if s[p] == 0x2f && p + 1 < s.len() && s[p + 1] == 0x3e {
        (p + 2, true)
    } else if s[p] == 0x22 || s[p] == 0x27 {
        let e = find_byte_from(s, p + 1, s[p]);
        proof {
            lemma_find_byte_from(s, p + 1, s[p]);
        }
        tag_end_from(
            s,
            if e < s.len() {
                e + 1
            } else {
                e
            },
        )
    } else {
        tag_end_from(s, p + 1)
    }
}

/// The first `}}` at or after `p`: the index of its first brace, or an
/// index `e` with `e + 1 >= s.len()` when there is none.
pub open spec fn close_braces_from(s: Seq<u8>, p: int) -> int
    decreases s.len() - p,
{
    if p < 0 || p + 1 >= s.len() {
        p
    } else if s[p] == 0x7d && s[p + 1] == 0x7d {
        p
    } else {
        close_braces_from(s, p + 1)
    }
}

pub open spec fn is_end_tag_delim(b: u8) -> bool {
    b == 0x3e || b == 0x2f || b == 0x20 || b == 0x09 || b == 0x0d || b == 0x0a
}

/// `</name` (ASCII case ignored) stands at `p`, followed by the end of the
/// text or by `>`, `/` or whitespace.
pub open spec fn end_tag_at(s: Seq<u8>, p: int, name: Seq<u8>) -> bool {
    let after = p + 2;
    &&& 0 <= p
    &&& p + 2 <= s.len()
    &&& s[p] == 0x3c
    &&& s[p + 1] == 0x2f
    &&& after + name.len() <= s.len()
    &&& seq_eq_ignore_case(s.subrange(after, after + name.len()), name)
    &&& (after + name.len() == s.len() || is_end_tag_delim(s[after + name.len()]))
}

/// The HTML void elements, which never have content or an end tag.
pub open spec fn is_void_name(n: Seq<u8>) -> bool {
    ||| n == "area".spec_bytes()
    ||| n == "base".spec_bytes()
    ||| n == "br".spec_bytes()
    ||| n == "col".spec_bytes()
    ||| n == "embed".spec_bytes()
    ||| n == "hr".spec_bytes()
    ||| n == "img".spec_bytes()
    ||| n == "input".spec_bytes()
    ||| n == "link".spec_bytes()
    ||| n == "meta".spec_bytes()
    ||| n == "param".spec_bytes()
    ||| n == "source".spec_bytes()
    ||| n == "track".spec_bytes()
    ||| n == "wbr".spec_bytes()
}

/// Law: the void elements are exactly the fourteen HTML void elements
/// `area`, `base`, `br`, `col`, `embed`, `hr`, `img`, `input`, `link`,
/// `meta`, `param`, `source`, `track` and `wbr`, named in lower case.
pub proof fn void_names_are_the_html_void_elements(n: Seq<u8>)
    ensures
        is_void_name(n) <==> (n == "area".spec_bytes() || n == "base".spec_bytes() || n == "br".spec_bytes() || n == "col".spec_bytes() || n == "embed".spec_bytes() || n == "hr".spec_bytes() || n == "img".spec_bytes() || n == "input".spec_bytes() || n == "link".spec_bytes() || n == "meta".spec_bytes() || n == "param".spec_bytes() || n == "source".spec_bytes() || n == "track".spec_bytes() || n == "wbr".spec_bytes()),
{
}

/// Law: an element of a template body named by one of the fourteen HTML
/// void elements, or whose start tag ends with `/>`, has no children and no
/// end tag, and ends where its start tag ends, whatever follows it.
pub proof fn void_elements_have_no_content(s: Seq<u8>, lo: int)
    requires
        0 <= lo,
        lo + 1 < s.len(),
    ensures
        ({
            let name = s.subrange(lo + 1, tmpl_name_end(s, lo + 1));
            let el = elem_at(s, lo);
            &&& (name == "area".spec_bytes() || name == "base".spec_bytes() || name == "br".spec_bytes() || name == "col".spec_bytes() || name == "embed".spec_bytes() || name == "hr".spec_bytes() || name == "img".spec_bytes() || name == "input".spec_bytes() || name == "link".spec_bytes() || name == "meta".spec_bytes() || name == "param".spec_bytes() || name == "source".spec_bytes() || name == "track".spec_bytes() || name == "wbr".spec_bytes()) || el.self_closing ==> el.children.len() == 0 && el.end_tag is None && el.hi == el.tag_end
            &&& el.self_closing ==> el.tag_end >= lo + 2 && s[el.tag_end - 2] == 0x2f && s[el.tag_end - 1] == 0x3e
        }),
{
    void_names_are_the_html_void_elements(s.subrange(lo + 1, tmpl_name_end(s, lo + 1)));
    lemma_tmpl_name_end(s, lo + 1);
    lemma_tag_end_from(s, tmpl_name_end(s, lo + 1));
}

/// A child of the tree, as local ranges.
pub enum TNode {
    Text(int, int),
    /// A `{{ }}` interpolation, braces included.
    Mustache(int, int),
    Element(TElem),
}

/// An element, as local ranges: it starts at `lo`, its name ends at
/// `name_hi`, its start tag at `tag_end`; `attrs` is its attribute list.
pub struct TElem {
    pub lo: int,
    pub name_hi: int,
    pub tag_end: int,
    pub self_closing: bool,
    pub attrs: (int, int),
    pub children: Seq<TNode>,
    pub end_tag: Option<(int, int)>,
    pub hi: int,
}

/// The bytes left from `p`: what every step of the tree parse shrinks.
pub open spec fn left(s: Seq<u8>, p: int) -> nat {
    if p < s.len() {
        (s.len() - p) as nat
    } else {
        0
    }
}

/// A text node for `[ts, p)` when that range is not empty.
pub open spec fn flush(ts: int, p: int) -> Seq<TNode> {
    if p > ts {
        seq![TNode::Text(ts, p)]
    } else {
        seq![]
    }
}

/// Just past the next `>` at or after `p`, or the end of the text.
pub open spec fn past_gt(s: Seq<u8>, p: int) -> int {
    let q = find_byte_from(s, p, 0x3e);
    if q < s.len() {
        q + 1
    } else {
        q
    }
}

/// The element whose `<` stands at `lo`.
pub open spec fn elem_at(s: Seq<u8>, lo: int) -> TElem
    decreases left(s, lo), 0int,
{
    if !(0 <= lo && lo + 1 < s.len()) {
        TElem {
            lo,
            name_hi: lo,
            tag_end: lo,
            self_closing: false,
            attrs: (lo, lo),
            children: seq![],
            end_tag: None,
            hi: lo,
        }
    } else {
        let nh = tmpl_name_end(s, lo + 1);
        proof {
            lemma_tmpl_name_end(s, lo + 1);
            lemma_tag_end_from(s, nh);
        }
        let (te, sc) = tag_end_from(s, nh);
        let trim = if sc {
            2int
        } else {
            1int
        };
        let ahi = if te - trim > nh {
            te - trim
        } else {
            nh
        };
        let name = s.subrange(lo + 1, nh);
        if sc || is_void_name(name) {
            TElem {
                lo,
                name_hi: nh,
                tag_end: te,
                self_closing: sc,
                attrs: (nh, ahi),
                children: seq![],
                end_tag: None,
                hi: te,
            }
        } else {
            let (ch, p0) = kids_from(s, te, te, Some(name));
            let p = if p0 >= te {
                p0
            } else {
                te
            };
            if end_tag_at(s, p, name) {
                let hi = past_gt(s, p + 2 + name.len());
                TElem {
                    lo,
                    name_hi: nh,
                    tag_end: te,
                    self_closing: sc,
                    attrs: (nh, ahi),
                    children: ch,
                    end_tag: Some((p, hi)),
                    hi,
                }
            } else {
                TElem {
                    lo,
                    name_hi: nh,
                    tag_end: te,
                    self_closing: sc,
                    attrs: (nh, ahi),
                    children: ch,
                    end_tag: None,
                    hi: p,
                }
            }
        }
    }
}

/// The children parsed from `p` (pending text from `ts`) until the end of
/// the text or the end tag of `close`, and where the parse stopped.
pub open spec fn kids_from(s: Seq<u8>, p: int, ts: int, close: Option<Seq<u8>>) -> (Seq<TNode>, int)
    decreases left(s, p), 1int,
{
    if p < 0 {
        (seq![], p)
    } else if p >= s.len() {
        (flush(ts, p), p)
    } else if s[p] == 0x7b && p + 1 < s.len() && s[p + 1] == 0x7b {
        let e = close_braces_from(s, p + 2);
        proof {
            lemma_close_braces_from(s, p + 2);
        }
        if e + 1 >= s.len() {
            kids_from(s, p + 1, ts, close)
        } else {
            let r = kids_from(s, e + 2, e + 2, close);
            (flush(ts, p) + seq![TNode::Mustache(p, e + 2)] + r.0, r.1)
        }
    } else if s[p] == 0x3c && p + 1 < s.len() && (s[p + 1] == 0x2f || s[p + 1] == 0x21) {
        if s[p + 1] == 0x2f && (close matches Some(n) && end_tag_at(s, p, n)) {
            (flush(ts, p), p)
        } else {
            proof {
                lemma_find_byte_from(s, p, 0x3e);
            }
            let q = past_gt(s, p);
            let r = kids_from(s, q, q, close);
            (flush(ts, p) + r.0, r.1)
        }
    } else if s[p] == 0x3c && p + 1 < s.len() && is_alpha(s[p + 1]) {
        let el = elem_at(s, p);
        let nx = if el.hi > p {
            el.hi
        } else {
            p + 1
        };
        let r = kids_from(s, nx, nx, close);
        (flush(ts, p) + seq![TNode::Element(el)] + r.0, r.1)
    } else {
        kids_from(s, p + 1, ts, close)
    }
}

pub proof fn lemma_tmpl_name_end(s: Seq<u8>, p: int)
    requires
        0 <= p <= s.len(),
    ensures
        p <= tmpl_name_end(s, p) <= s.len(),
        tmpl_name_end(s, p) < s.len() ==> !tmpl_name_part(s[tmpl_name_end(s, p)]),
        p < tmpl_name_end(s, p) ==> tmpl_name_part(s[tmpl_name_end(s, p) - 1]),
    decreases s.len() - p,
{
    if p < s.len() && tmpl_name_part(s[p]) {
        lemma_tmpl_name_end(s, p + 1);
    }
}

pub proof fn lemma_tag_end_from(s: Seq<u8>, p: int)
    requires
        0 <= p <= s.len(),
    ensures
        p <= tag_end_from(s, p).0 <= s.len(),
        tag_end_from(s, p).0 < s.len() ==> p < tag_end_from(s, p).0 && s[tag_end_from(s, p).0
            - 1] == 0x3e,
        tag_end_from(s, p).1 ==> p + 2 <= tag_end_from(s, p).0 && s[tag_end_from(s, p).0 - 1]
            == 0x3e && s[tag_end_from(s, p).0 - 2] == 0x2f,
        !tag_end_from(s, p).1 && p < tag_end_from(s, p).0 < s.len() ==> s[tag_end_from(s, p).0
            - 1] == 0x3e,
        ascii_adjacent(s, tag_end_from(s, p).0) || tag_end_from(s, p).0 == p,
    decreases s.len() - p,
{
    if p < s.len() {
        if s[p] == 0x3e {
        } else if s[p] == 0x2f && p + 1 < s.len() && s[p + 1] == 0x3e {
        } else if s[p] == 0x22 || s[p] == 0x27 {
            lemma_find_byte_from(s, p + 1, s[p]);
            let e = find_byte_from(s, p + 1, s[p]);
            lemma_tag_end_from(
                s,
                if e < s.len() {
                    e + 1
                } else {
                    e
                },
            );
        } else {
            lemma_tag_end_from(s, p + 1);
        }
    }
}

pub proof fn lemma_close_braces_from(s: Seq<u8>, p: int)
    requires
        0 <= p,
    ensures
        p <= close_braces_from(s, p),
        close_braces_from(s, p) + 1 < s.len() ==> s[close_braces_from(s, p)] == 0x7d && s[close_braces_from(s, p) + 1] == 0x7d,
    decreases s.len() - p,
{
    if p + 1 < s.len() && !(s[p] == 0x7d && s[p + 1] == 0x7d) {
        lemma_close_braces_from(s, p + 1);
    }
}

/// Where a node begins and ends in the body.
pub open spec fn node_span(n: TNode) -> (int, int) {
    match n {
        TNode::Text(a, b) => (a, b),
        TNode::Mustache(a, b) => (a, b),
        TNode::Element(m) => (m.lo, m.hi),
    }
}

/// The nodes lie in `[lo, hi]` in source order without overlap, and so do
/// the children of each element, between the end of its start tag and
/// its own end.
pub open spec fn nodes_nested(ms: Seq<TNode>, lo: int, hi: int) -> bool
    decreases ms,
{
    &&& forall|t: int| 0 <= t < ms.len() ==> node_nested(#[trigger] ms[t], lo, hi)
    &&& forall|t: int, u: int|
        0 <= t < u < ms.len() ==> node_span(#[trigger] ms[t]).1 <= node_span(#[trigger] ms[u]).0
}

pub open spec fn node_nested(n: TNode, lo: int, hi: int) -> bool
    decreases n,
{
    &&& lo <= node_span(n).0 <= node_span(n).1 <= hi
    &&& match n {
        TNode::Element(m) => m.lo < m.tag_end <= m.hi && nodes_nested(m.children, m.tag_end, m.hi),
        _ => true,
    }
}

proof fn lemma_nested_widen(ms: Seq<TNode>, lo: int, hi: int, lo2: int, hi2: int)
    requires
        nodes_nested(ms, lo, hi),
        lo2 <= lo,
        hi <= hi2,
    ensures
        nodes_nested(ms, lo2, hi2),
{
    assert forall|t: int| 0 <= t < ms.len() implies node_nested(#[trigger] ms[t], lo2, hi2) by {
        assert(node_nested(ms[t], lo, hi));
    }
}

proof fn lemma_nested_concat(a: Seq<TNode>, b: Seq<TNode>, lo: int, mid: int, hi: int)
    requires
        nodes_nested(a, lo, mid),
        nodes_nested(b, mid, hi),
        lo <= mid <= hi,
    ensures
        nodes_nested(a + b, lo, hi),
{
    lemma_nested_widen(a, lo, mid, lo, hi);
    lemma_nested_widen(b, mid, hi, lo, hi);
    let c = a + b;
    assert forall|t: int| 0 <= t < c.len() implies node_nested(#[trigger] c[t], lo, hi) by {
        if t < a.len() {
            assert(c[t] == a[t]);
        } else {
            assert(c[t] == b[t - a.len()]);
        }
    }
    assert forall|t: int, u: int| 0 <= t < u < c.len() implies node_span(#[trigger] c[t]).1 <= node_span(
        #[trigger] c[u],
    ).0 by {
        if u < a.len() {
            assert(c[t] == a[t] && c[u] == a[u]);
        } else if t >= a.len() {
            assert(c[t] == b[t - a.len()] && c[u] == b[u - a.len()]);
        } else {
            assert(c[t] == a[t] && c[u] == b[u - a.len()]);
            assert(node_nested(a[t], lo, mid));
            assert(node_nested(b[u - a.len()], mid, hi));
        }
    }
}

proof fn lemma_flush_nested(ts: int, p: int)
    requires
        ts <= p,
    ensures
        nodes_nested(flush(ts, p), ts, p),
{
    if p > ts {
        assert(node_nested(flush(ts, p)[0], ts, p));
    }
}

proof fn lemma_one_nested(n: TNode, lo: int, hi: int)
    requires
        node_nested(n, lo, hi),
    ensures
        nodes_nested(seq![n], lo, hi),
{
    assert(seq![n][0] == n);
}

proof fn lemma_elem_nested(s: Seq<u8>, lo: int)
    requires
        0 <= lo,
        lo + 1 < s.len(),
    ensures
        elem_at(s, lo).lo == lo,
        elem_at(s, lo).hi <= s.len(),
        node_nested(TNode::Element(elem_at(s, lo)), lo, elem_at(s, lo).hi),
    decreases left(s, lo), 0int,
{
    let el = elem_at(s, lo);
    lemma_tmpl_name_end(s, lo + 1);
    let nh = tmpl_name_end(s, lo + 1);
    lemma_tag_end_from(s, nh);
    let (te, sc) = tag_end_from(s, nh);
    let name = s.subrange(lo + 1, nh);
    if sc || is_void_name(name) {
        assert(nodes_nested(el.children, el.tag_end, el.hi));
    } else {
        lemma_kids_nested(s, te, te, Some(name));
        let (ch, p0) = kids_from(s, te, te, Some(name));
        let p = if p0 >= te {
            p0
        } else {
            te
        };
        if end_tag_at(s, p, name) {
            lemma_find_byte_from(s, p + 2 + name.len(), 0x3e);
        }
        assert(p <= el.hi <= s.len());
        lemma_nested_widen(ch, te, p0, te, el.hi);
    }
}

proof fn lemma_kids_nested(s: Seq<u8>, p: int, ts: int, close: Option<Seq<u8>>)
    requires
        0 <= ts <= p <= s.len(),
    ensures
        p <= kids_from(s, p, ts, close).1 <= s.len(),
        nodes_nested(kids_from(s, p, ts, close).0, ts, kids_from(s, p, ts, close).1),
    decreases left(s, p), 1int,
{
    lemma_flush_nested(ts, p);
    if p >= s.len() {
    } else if s[p] == 0x7b && p + 1 < s.len() && s[p + 1] == 0x7b {
        let e = close_braces_from(s, p + 2);
        lemma_close_braces_from(s, p + 2);
        if e + 1 >= s.len() {
            lemma_kids_nested(s, p + 1, ts, close);
        } else {
            lemma_kids_nested(s, e + 2, e + 2, close);
            let r = kids_from(s, e + 2, e + 2, close);
            let m = seq![TNode::Mustache(p, e + 2)];
            lemma_one_nested(TNode::Mustache(p, e + 2), p, e + 2);
            lemma_nested_concat(flush(ts, p), m, ts, p, e + 2);
            lemma_nested_concat(flush(ts, p) + m, r.0, ts, e + 2, r.1);
        }
    } else if s[p] == 0x3c && p + 1 < s.len() && (s[p + 1] == 0x2f || s[p + 1] == 0x21) {
        if s[p + 1] == 0x2f && (close matches Some(n) && end_tag_at(s, p, n)) {
        } else {
            lemma_find_byte_from(s, p, 0x3e);
            let q = past_gt(s, p);
            lemma_kids_nested(s, q, q, close);
            let r = kids_from(s, q, q, close);
            lemma_nested_concat(flush(ts, p), r.0, ts, q, r.1);
        }
    } else if s[p] == 0x3c && p + 1 < s.len() && is_alpha(s[p + 1]) {
        let el = elem_at(s, p);
        lemma_elem_nested(s, p);
        let nx = if el.hi > p {
            el.hi
        } else {
            p + 1
        };
        lemma_kids_nested(s, nx, nx, close);
        let r = kids_from(s, nx, nx, close);
        let m = seq![TNode::Element(el)];
        lemma_one_nested(TNode::Element(el), p, nx);
        lemma_nested_concat(flush(ts, p), m, ts, p, nx);
        lemma_nested_concat(flush(ts, p) + m, r.0, ts, nx, r.1);
    } else {
        lemma_kids_nested(s, p + 1, ts, close);
    }
}

/// Law: the nodes of a template body lie inside the body in source order,
/// without overlap; the children of each element lie, in the same way,
/// between the end of its start tag and the end of the element.
pub proof fn template_nodes_are_nested(s: Seq<u8>)
    ensures
        nodes_nested(kids_from(s, 0, 0, None).0, 0, s.len() as int),
{
    lemma_kids_nested(s, 0, 0, None);
    let r = kids_from(s, 0, 0, None);
    lemma_nested_widen(r.0, 0, r.1, 0, s.len() as int);
}

/// The mustache `e` spans `[lo, hi)` of the body, its script text lying
/// between the braces.
pub open spec fn mustache_is(e: VExpressionContainer, s: Seq<u8>, lo: int, hi: int, base: int) -> bool {
    &&& e.range.start == base + lo
    &&& e.range.end == base + hi
    &&& e.expression_range.start == base + lo + 2
    &&& e.expression_range.end == base + hi - 2
    &&& e.raw_expression.spec_bytes() == s.subrange(lo + 2, hi - 2)
    &&& !e.raw
    &&& !e.same_name_shorthand
    &&& e.kind == VExprKind::Default
    &&& e.source_type == mjs_kind()
}

/// The child `c` is the node `n` of the body `s`, which starts at `base`.
pub open spec fn child_matches(c: VElementChild, n: TNode, s: Seq<u8>, base: int) -> bool
    decreases n,
{
    match n {
        TNode::Text(lo, hi) => c matches VElementChild::Text(t) && t.range.start == base + lo
            && t.range.end == base + hi && t.value.spec_bytes() == s.subrange(lo, hi),
        TNode::Mustache(lo, hi) => c matches VElementChild::ExpressionContainer(e) && mustache_is(
            e,
            s,
            lo,
            hi,
            base,
        ),
        TNode::Element(m) => c matches VElementChild::Element(b) && elem_matches(*b, m, s, base),
    }
}

pub open spec fn children_match(v: Seq<VElementChild>, ms: Seq<TNode>, s: Seq<u8>, base: int) -> bool
    decreases ms,
{
    v.len() == ms.len() && forall|t: int|
        0 <= t < ms.len() ==> child_matches(#[trigger] v[t], ms[t], s, base)
}

/// The element `e` is the model `m` of the body `s`, which starts at `base`.
pub open spec fn elem_matches(e: VElement, m: TElem, s: Seq<u8>, base: int) -> bool
    decreases m,
{
    let a = s.subrange(m.attrs.0, m.attrs.1);
    &&& e.range.start == base + m.lo
    &&& e.range.end == base + m.hi
    &&& e.name.spec_bytes() == s.subrange(m.lo + 1, m.name_hi)
    &&& e.raw_name.spec_bytes() == s.subrange(m.lo + 1, m.name_hi)
    &&& e.namespace == VNamespace::Html
    &&& e.start_tag.range.start == base + m.lo
    &&& e.start_tag.range.end == base + m.tag_end
    &&& e.start_tag.self_closing == m.self_closing
    &&& tmpl_attrs_are(e.start_tag.attributes@, raw_attrs_from(a, 0), a, base + m.attrs.0)
    &&& match m.end_tag {
        None => e.end_tag is None,
        Some(t) => e.end_tag matches Some(et) && et.range.start == base + t.0 && et.range.end
            == base + t.1,
    }
    &&& children_match(e.children@, m.children, s, base)
}

/// Every element of the nodes has an attribute list that ends on a
/// character boundary, so that it can be cut out of the body.
pub open spec fn nodes_ok(ms: Seq<TNode>, s: Seq<u8>) -> bool
    decreases ms,
{
    forall|t: int| 0 <= t < ms.len() ==> node_ok(#[trigger] ms[t], s)
}

pub open spec fn node_ok(n: TNode, s: Seq<u8>) -> bool
    decreases n,
{
    match n {
        TNode::Element(m) => is_char_boundary(s, m.attrs.1) && nodes_ok(m.children, s),
        _ => true,
    }
}

pub open spec fn close_of(o: Option<&str>) -> Option<Seq<u8>> {
    match o {
        Some(n) => Some(n.spec_bytes()),
        None => None,
    }
}

proof fn lemma_nodes_ok_concat(a: Seq<TNode>, b: Seq<TNode>, s: Seq<u8>)
    requires
        nodes_ok(a, s),
        nodes_ok(b, s),
    ensures
        nodes_ok(a + b, s),
{
    assert forall|t: int| 0 <= t < (a + b).len() implies node_ok(#[trigger] (a + b)[t], s) by {
        if t < a.len() {
            assert((a + b)[t] == a[t]);
        } else {
            assert((a + b)[t] == b[t - a.len()]);
        }
    }
}

proof fn lemma_not_ok_inside(a: Seq<TNode>, n: TNode, b: Seq<TNode>, s: Seq<u8>)
    requires
        !node_ok(n, s),
    ensures
        !nodes_ok(a + seq![n] + b, s),
{
    assert((a + seq![n] + b)[a.len() as int] == n);
}

proof fn lemma_flush_ok(ts: int, p: int, s: Seq<u8>)
    ensures
        nodes_ok(flush(ts, p), s),
{
    if p > ts {
        assert(node_ok(flush(ts, p)[0], s));
    }
}

/// In a body that ends in an ASCII byte, the attribute list of the element
/// at `lo`, and of every element inside it, ends on a character boundary:
/// it ends after a name byte, before `>` or `/>`, or before the last byte.
proof fn lemma_elem_ok(body: &str, lo: int)
    requires
        0 <= lo,
        lo + 1 < body.spec_bytes().len(),
        is_alpha(body.spec_bytes()[lo + 1]),
        body.spec_bytes().last() < 0x80,
    ensures
        node_ok(TNode::Element(elem_at(body.spec_bytes(), lo)), body.spec_bytes()),
    decreases left(body.spec_bytes(), lo), 0int,
{
    let s = body.spec_bytes();
    let el = elem_at(s, lo);
    lemma_tmpl_name_end(s, lo + 2);
    lemma_tmpl_name_end(s, lo + 1);
    let nh = tmpl_name_end(s, lo + 1);
    assert(nh == tmpl_name_end(s, lo + 2));
    lemma_tag_end_from(s, nh);
    let (te, sc) = tag_end_from(s, nh);
    let name = s.subrange(lo + 1, nh);
    assert(tmpl_name_part(s[nh - 1]));
    if te - (if sc { 2int } else { 1int }) > nh {
        if sc {
            assert(s[te - 2] == 0x2f);
        } else if te < s.len() {
            assert(s[te - 1] == 0x3e);
        } else {
            assert(s[s.len() - 1] < 0x80);
        }
    }
    assert(ascii_adjacent(s, el.attrs.1));
    lemma_boundary(body, el.attrs.1);
    if sc || is_void_name(name) {
        assert(nodes_ok(el.children, s));
    } else {
        lemma_kids_ok(body, te, te, Some(name));
    }
}

/// The nodes parsed from `p` in a body that is empty or ends in an ASCII
/// byte all satisfy `nodes_ok`.
proof fn lemma_kids_ok(body: &str, p: int, ts: int, close: Option<Seq<u8>>)
    requires
        0 <= ts <= p <= body.spec_bytes().len(),
        body.spec_bytes().len() == 0 || body.spec_bytes().last() < 0x80,
    ensures
        nodes_ok(kids_from(body.spec_bytes(), p, ts, close).0, body.spec_bytes()),
    decreases left(body.spec_bytes(), p), 1int,
{
    let s = body.spec_bytes();
    lemma_flush_ok(ts, p, s);
    if p >= s.len() {
    } else if s[p] == 0x7b && p + 1 < s.len() && s[p + 1] == 0x7b {
        let e = close_braces_from(s, p + 2);
        lemma_close_braces_from(s, p + 2);
        if e + 1 >= s.len() {
            lemma_kids_ok(body, p + 1, ts, close);
        } else {
            lemma_kids_ok(body, e + 2, e + 2, close);
            let m = seq![TNode::Mustache(p, e + 2)];
            assert(node_ok(m[0], s));
            lemma_nodes_ok_concat(flush(ts, p), m, s);
            lemma_nodes_ok_concat(flush(ts, p) + m, kids_from(s, e + 2, e + 2, close).0, s);
        }
    } else if s[p] == 0x3c && p + 1 < s.len() && (s[p + 1] == 0x2f || s[p + 1] == 0x21) {
        if s[p + 1] == 0x2f && (close matches Some(n) && end_tag_at(s, p, n)) {
        } else {
            lemma_find_byte_from(s, p, 0x3e);
            let q = past_gt(s, p);
            lemma_kids_ok(body, q, q, close);
            lemma_nodes_ok_concat(flush(ts, p), kids_from(s, q, q, close).0, s);
        }
    } else if s[p] == 0x3c && p + 1 < s.len() && is_alpha(s[p + 1]) {
        let el = elem_at(s, p);
        lemma_elem_ok(body, p);
        lemma_elem_nested(s, p);
        let nx = if el.hi > p {
            el.hi
        } else {
            p + 1
        };
        lemma_kids_ok(body, nx, nx, close);
        let m = seq![TNode::Element(el)];
        assert(m[0] == TNode::Element(el));
        lemma_nodes_ok_concat(flush(ts, p), m, s);
        lemma_nodes_ok_concat(flush(ts, p) + m, kids_from(s, nx, nx, close).0, s);
    } else {
        lemma_kids_ok(body, p + 1, ts, close);
    }
}

proof fn lemma_children_append(
    v: Seq<VElementChild>,
    ms: Seq<TNode>,
    w: Seq<VElementChild>,
    ns: Seq<TNode>,
    s: Seq<u8>,
    base: int,
)
    requires
        children_match(v, ms, s, base),
        children_match(w, ns, s, base),
    ensures
        children_match(v + w, ms + ns, s, base),
{
    assert forall|t: int| 0 <= t < ms.len() + ns.len() implies child_matches(
        #[trigger] (v + w)[t],
        (ms + ns)[t],
        s,
        base,
    ) by {
        if t < ms.len() {
            assert((v + w)[t] == v[t]);
            assert((ms + ns)[t] == ms[t]);
        } else {
            assert((v + w)[t] == w[t - ms.len()]);
            assert((ms + ns)[t] == ns[t - ms.len()]);
        }
    }
}

proof fn lemma_children_push(v: Seq<VElementChild>, ms: Seq<TNode>, c: VElementChild, n: TNode, s: Seq<u8>, base: int)
    requires
        children_match(v, ms, s, base),
        child_matches(c, n, s, base),
    ensures
        children_match(v.push(c), ms.push(n), s, base),
{
    assert forall|t: int| 0 <= t < ms.len() + 1 implies child_matches(
        #[trigger] v.push(c)[t],
        ms.push(n)[t],
        s,
        base,
    ) by {
        if t < ms.len() {
            assert(v.push(c)[t] == v[t]);
        }
    }
}

fn scan_tmpl_name(bytes: &[u8], from: usize) -> (r: usize)
    requires
        from <= bytes@.len(),
    ensures
        r == tmpl_name_end(bytes@, from as int),
{
    let n = bytes.len();
    let mut i = from;
    while i < n && (is_ascii_alphanumeric(bytes[i]) || bytes[i] == 0x2d || bytes[i] == 0x5f
        || bytes[i] == 0x3a || bytes[i] == 0x2e)
        invariant
            n == bytes@.len(),
            from <= i <= n,
            tmpl_name_end(bytes@, from as int) == tmpl_name_end(bytes@, i as int),
        decreases n - i,
    {
        i += 1;
    }
    i
}

/// Scans a start tag from just past its name to the `>` or `/>` that ends
/// it, skipping quoted values; at the end of the text, returns where the
/// scan stopped.
fn find_tag_end(bytes: &[u8], from: usize) -> (r: (usize, bool))
    requires
        from <= bytes@.len(),
    ensures
        (r.0 as int, r.1) == tag_end_from(bytes@, from as int),
{
    let n = bytes.len();
    let mut pos = from;
    while pos < n
        invariant
            n == bytes@.len(),
            from <= pos <= n,
            tag_end_from(bytes@, from as int) == tag_end_from(bytes@, pos as int),
        decreases n - pos,
    {
        let b = bytes[pos];
        if b == 0x3e {
            return (pos + 1, false);
        } else if b == 0x2f && pos + 1 < n && bytes[pos + 1] == 0x3e {
            return (pos + 2, true);
        } else if b == 0x22 || b == 0x27 {
            let e = find_byte(bytes, pos + 1, b);
            proof {
                lemma_find_byte_from(bytes@, pos + 1, b);
            }
            pos = if e < n {
                e + 1
            } else {
                e
            };
        } else {
            pos += 1;
        }
    }
    (pos, false)
}

fn is_void_html_element(name: &str) -> (r: bool)
    ensures
        r == is_void_name(name.spec_bytes()),
{
    let b = name.as_bytes();
    eq_bytes(b, "area".as_bytes()) || eq_bytes(b, "base".as_bytes()) || eq_bytes(b, "br".as_bytes())
        || eq_bytes(b, "col".as_bytes()) || eq_bytes(b, "embed".as_bytes()) || eq_bytes(
        b,
        "hr".as_bytes(),
    ) || eq_bytes(b, "img".as_bytes()) || eq_bytes(b, "input".as_bytes()) || eq_bytes(
        b,
        "link".as_bytes(),
    ) || eq_bytes(b, "meta".as_bytes()) || eq_bytes(b, "param".as_bytes()) || eq_bytes(
        b,
        "source".as_bytes(),
    ) || eq_bytes(b, "track".as_bytes()) || eq_bytes(b, "wbr".as_bytes())
}

/// Walks a template body; spans are shifted by `base`, where the body
/// starts in the source.
struct TemplateParser<'a> {
    src: &'a str,
    base: u32,
}

impl<'a> TemplateParser<'a> {
    spec fn s(&self) -> Seq<u8> {
        self.src.spec_bytes()
    }

    spec fn fits(&self) -> bool {
        self.base + self.src.spec_bytes().len() <= u32::MAX
    }

    fn span(&self, lo: usize, hi: usize) -> (r: Span)
        requires
            self.fits(),
            lo <= hi <= self.s().len(),
        ensures
            r.start == self.base + lo,
            r.end == self.base + hi,
    {
        Span::new(self.base + lo as u32, self.base + hi as u32)
    }

    /// Pushes the text `[lo, hi)` when it is not empty.
    fn flush_text(&self, lo: usize, hi: usize, out: &mut Vec<VElementChild<'a>>, Ghost(acc): Ghost<Seq<TNode>>)
        requires
            self.fits(),
            lo <= hi <= self.s().len(),
            ascii_adjacent(self.s(), lo as int),
            ascii_adjacent(self.s(), hi as int),
            children_match(old(out)@, acc, self.s(), self.base as int),
        ensures
            children_match(final(out)@, acc + flush(lo as int, hi as int), self.s(), self.base as int),
    {
        if hi > lo {
            let text = VText { range: self.span(lo, hi), value: slice_between_ascii(self.src, lo, hi) };
            let c = VElementChild::Text(text);
            proof {
                lemma_children_push(out@, acc, c, TNode::Text(lo as int, hi as int), self.s(), self.base as int);
                assert(acc.push(TNode::Text(lo as int, hi as int)) == acc + flush(lo as int, hi as int));
            }
            out.push(c);
        } else {
            assert(acc + flush(lo as int, hi as int) == acc);
        }
    }

    /// Whether the end tag of `name` stands at `pos`.
    fn matches_end_tag(&self, pos: usize, name: &str) -> (r: bool)
        requires
            pos <= self.s().len(),
        ensures
            r == end_tag_at(self.s(), pos as int, name.spec_bytes()),
    {
        let bytes = self.src.as_bytes();
        let len = bytes.len();
        if !(len - pos >= 2 && bytes[pos] == 0x3c && bytes[pos + 1] == 0x2f) {
            return false;
        }
        let after = pos + 2;
        let nb = name.as_bytes();
        if nb.len() > len - after {
            return false;
        }
        if !eq_ignore_case_at(bytes, after, nb) {
            return false;
        }
        let k = after + nb.len();
        k == len || bytes[k] == 0x3e || bytes[k] == 0x2f || bytes[k] == 0x20 || bytes[k] == 0x09
            || bytes[k] == 0x0d || bytes[k] == 0x0a
    }

    /// Reads the `{{ }}` interpolation at `lo`; an unclosed one is no
    /// interpolation but text, and the walk goes on just past its first
    /// brace.
    fn parse_mustache(&self, lo: usize) -> (r: (Option<VExpressionContainer<'a>>, usize))
        requires
            self.fits(),
            lo + 1 < self.s().len(),
            self.s()[lo as int] == 0x7b,
            self.s()[lo + 1] == 0x7b,
        ensures
            ({
                let e = close_braces_from(self.s(), lo + 2);
                if e + 1 >= self.s().len() {
                    r.0 is None && r.1 == lo + 1
                } else {
                    r.0 matches Some(c) && mustache_is(c, self.s(), lo as int, e + 2, self.base as int)
                        && r.1 == e + 2
                }
            }),
    {
        let bytes = self.src.as_bytes();
        let len = bytes.len();
        let expr_lo = lo + 2;
        let mut pos = expr_lo;
        proof {
            lemma_close_braces_from(self.s(), lo + 2);
        }
        while len - pos > 1 && !(bytes[pos] == 0x7d && bytes[pos + 1] == 0x7d)
            invariant
                len == self.s().len(),
                bytes@ == self.s(),
                expr_lo <= pos <= len,
                close_braces_from(self.s(), expr_lo as int) == close_braces_from(self.s(), pos as int),
            decreases len - pos,
        {
            pos += 1;
        }
        if len - pos <= 1 {
            return (None, lo + 1);
        }
        let expr_hi = pos;
        let raw = slice_between_ascii(self.src, expr_lo, expr_hi);
        let c = VExpressionContainer {
            range: self.span(lo, expr_hi + 2),
            raw_expression: raw,
            expression_range: self.span(expr_lo, expr_hi),
            raw: false,
            same_name_shorthand: false,
            kind: VExprKind::Default,
            source_type: SourceKind::mjs(),
        };
        (Some(c), expr_hi + 2)
    }

    /// Parses the children from `pos0` up to the end of the body or, when
    /// `parent_close` names the enclosing element, up to its end tag.
    /// Stray end tags, comments and doctypes are skipped.
    /// `None` where an attribute list of the children does not end on a
    /// character boundary.
    #[verifier::rlimit(40)]
    fn parse_children(&self, pos0: usize, parent_close: Option<&'a str>) -> (r: (
        Option<Vec<VElementChild<'a>>>,
        usize,
    ))
        requires
            self.fits(),
            pos0 <= self.s().len(),
            ascii_adjacent(self.s(), pos0 as int),
        ensures
            r.0 is Some <==> nodes_ok(kids_from(self.s(), pos0 as int, pos0 as int, close_of(parent_close)).0, self.s()),
            r.0 matches Some(v) ==> children_match(
                v@,
                kids_from(self.s(), pos0 as int, pos0 as int, close_of(parent_close)).0,
                self.s(),
                self.base as int,
            ),
            r.0 is Some ==> r.1 == kids_from(self.s(), pos0 as int, pos0 as int, close_of(parent_close)).1,
            pos0 <= r.1 <= self.s().len(),
            ascii_adjacent(self.s(), r.1 as int),
        decreases left(self.s(), pos0 as int), 1int,
    {
        let ghost s = self.s();
        let ghost close = close_of(parent_close);
        let ghost base = self.base as int;
        let bytes = self.src.as_bytes();
        let len = bytes.len();
        let mut out: Vec<VElementChild<'a>> = Vec::new();
        let ghost mut acc: Seq<TNode> = seq![];
        let mut pos = pos0;
        let mut ts = pos0;
        assert(acc + kids_from(s, pos as int, ts as int, close).0 == kids_from(s, pos as int, ts as int, close).0);
        while pos < len
            invariant
                s == self.s(),
                bytes@ == s,
                len == s.len(),
                self.fits(),
                base == self.base,
                close == close_of(parent_close),
                pos0 <= ts <= pos <= len,
                ascii_adjacent(s, pos0 as int),
                ascii_adjacent(s, ts as int),
                kids_from(s, pos0 as int, pos0 as int, close).0 == acc + kids_from(
                    s,
                    pos as int,
                    ts as int,
                    close,
                ).0,
                kids_from(s, pos0 as int, pos0 as int, close).1 == kids_from(
                    s,
                    pos as int,
                    ts as int,
                    close,
                ).1,
                children_match(out@, acc, s, base),
                nodes_ok(acc, s),
            decreases len - pos,
        {
            let ghost here = kids_from(s, pos as int, ts as int, close);
            let ghost f = flush(ts as int, pos as int);
            let b = bytes[pos];
            if b == 0x7b && pos + 1 < len && bytes[pos + 1] == 0x7b {
                let (node, next) = self.parse_mustache(pos);
                proof {
                    lemma_close_braces_from(s, pos + 2);
                }
                if node.is_none() {
                    // An unclosed `{{` stays part of the pending text.
                    pos = next;
                    continue;
                }
                self.flush_text(ts, pos, &mut out, Ghost(acc));
                let ghost rest = kids_from(s, next as int, next as int, close);
                match node {
                    Some(c) => {
                        let ghost n = TNode::Mustache(pos as int, next as int);
                        proof {
                            lemma_children_push(out@, acc + f, VElementChild::ExpressionContainer(c), n, s, base);
                            assert(here.0 == f + seq![n] + rest.0);
                            assert((acc + f).push(n) + rest.0 =~= acc + here.0);
                            lemma_flush_ok(ts as int, pos as int, s);
                            assert(node_ok(seq![n][0], s));
                            lemma_nodes_ok_concat(acc, f, s);
                            lemma_nodes_ok_concat(acc + f, seq![n], s);
                            assert((acc + f) + seq![n] == (acc + f).push(n));
                            acc = (acc + f).push(n);
                        }
                        out.push(VElementChild::ExpressionContainer(c));
                    },
                    None => {},
                }
                ts = next;
                pos = next;
                continue;
            }
            if b == 0x3c && pos + 1 < len {
                let next_b = bytes[pos + 1];
                if next_b == 0x2f {
                    let closing = match parent_close {
                        Some(name) => self.matches_end_tag(pos, name),
                        None => false,
                    };
                    if closing {
                        self.flush_text(ts, pos, &mut out, Ghost(acc));
                        proof {
                            lemma_flush_ok(ts as int, pos as int, s);
                            lemma_nodes_ok_concat(acc, flush(ts as int, pos as int), s);
                        }
                        return (Some(out), pos);
                    }
                }
                if next_b == 0x2f || next_b == 0x21 {
                    self.flush_text(ts, pos, &mut out, Ghost(acc));
                    let q = find_byte(bytes, pos, 0x3e);
                    proof {
                        lemma_find_byte_from(s, pos as int, 0x3e);
                    }
                    let next = if q < len {
                        q + 1
                    } else {
                        q
                    };
                    proof {
                        let rest = kids_from(s, next as int, next as int, close);
                        assert(here.0 == f + rest.0);
                        assert((acc + f) + rest.0 =~= acc + here.0);
                        lemma_flush_ok(ts as int, pos as int, s);
                        lemma_nodes_ok_concat(acc, f, s);
                        acc = acc + f;
                    }
                    ts = next;
                    pos = next;
                    continue;
                }
                if is_ascii_alphabetic(next_b) {
                    self.flush_text(ts, pos, &mut out, Ghost(acc));
                    let ghost m = elem_at(s, pos as int);
                    let ghost n = TNode::Element(m);
                    let (el, hi) = self.parse_element(pos);
                    let el = match el {
                        Some(el) => el,
                        None => {
                            proof {
                                let nx = if m.hi > pos { m.hi } else { pos + 1 };
                                let rest = kids_from(s, nx, nx, close);
                                assert(here.0 == f + seq![n] + rest.0);
                                assert(acc + here.0 == acc + f + seq![n] + rest.0);
                                lemma_not_ok_inside(acc + f, n, rest.0, s);
                            }
                            return (None, pos0);
                        },
                    };
                    let c = VElementChild::Element(el);
                    proof {
                        let rest = kids_from(s, hi as int, hi as int, close);
                        lemma_children_push(out@, acc + f, c, n, s, base);
                        assert(here.0 == f + seq![n] + rest.0);
                        assert((acc + f).push(n) + rest.0 =~= acc + here.0);
                        lemma_flush_ok(ts as int, pos as int, s);
                        assert(node_ok(seq![n][0], s));
                        lemma_nodes_ok_concat(acc, f, s);
                        lemma_nodes_ok_concat(acc + f, seq![n], s);
                        assert((acc + f) + seq![n] == (acc + f).push(n));
                        acc = (acc + f).push(n);
                    }
                    out.push(c);
                    ts = hi;
                    pos = hi;
                    continue;
                }
            }
            pos += 1;
        }
        self.flush_text(ts, pos, &mut out, Ghost(acc));
        proof {
            lemma_flush_ok(ts as int, pos as int, s);
            lemma_nodes_ok_concat(acc, flush(ts as int, pos as int), s);
        }
        (Some(out), pos)
    }

    /// Parses the element whose `<` stands at `lo` (a letter follows it):
    /// its start tag and attributes, then, unless it is self-closing or a
    /// void element, its children and its end tag. An element left open
    /// at the end of the body ends there.
    /// `None` where its attribute list, or one inside it, does not end on a
    /// character boundary.
    fn parse_element(&self, lo: usize) -> (r: (Option<Box<VElement<'a>>>, usize))
        requires
            self.fits(),
            lo + 1 < self.s().len(),
            self.s()[lo as int] == 0x3c,
            is_alpha(self.s()[lo + 1]),
        ensures
            r.0 is Some <==> node_ok(TNode::Element(elem_at(self.s(), lo as int)), self.s()),
            r.0 matches Some(e) ==> elem_matches(*e, elem_at(self.s(), lo as int), self.s(), self.base as int),
            r.0 is Some ==> r.1 == elem_at(self.s(), lo as int).hi,
            lo < r.1 <= self.s().len(),
            ascii_adjacent(self.s(), r.1 as int),
        decreases left(self.s(), lo as int), 0int,
    {
        let ghost s = self.s();
        let ghost base = self.base as int;
        let bytes = self.src.as_bytes();
        let len = bytes.len();
        let name_lo = lo + 1;
        let nh = scan_tmpl_name(bytes, name_lo);
        proof {
            lemma_tmpl_name_end(s, lo + 1);
            lemma_tmpl_name_end(s, lo + 2);
            lemma_tag_end_from(s, nh as int);
        }
        let name = slice_between_ascii(self.src, name_lo, nh);
        let (te, sc) = find_tag_end(bytes, nh);
        let trim: usize = if sc {
            2
        } else {
            1
        };
        let t = if te >= trim {
            te - trim
        } else {
            0
        };
        let ahi = if t > nh {
            t
        } else {
            nh
        };
        proof {
            lemma_boundary(self.src, nh as int);
            lemma_boundary(self.src, (lo + 1) as int);
        }
        if !self.src.is_char_boundary(ahi) {
            return (None, lo + 1);
        }
        let raw_attrs = str_slice(self.src, nh, ahi);
        let attrs = parse_attributes(self.src, raw_attrs, self.base + nh as u32);
        let start_tag = VStartTag { range: self.span(lo, te), self_closing: sc, attributes: attrs };
        if sc || is_void_html_element(name) {
            let el = VElement {
                range: self.span(lo, te),
                name,
                raw_name: name,
                namespace: VNamespace::Html,
                start_tag,
                end_tag: None,
                children: Vec::new(),
            };
            assert(children_match(el.children@, seq![], s, base));
            return (Some(Box::new(el)), te);
        }
        let (children, p) = self.parse_children(te, Some(name));
        let children = match children {
            Some(c) => c,
            None => {
                return (None, lo + 1);
            },
        };
        let nb = name.as_bytes();
        let mut end_tag: Option<VEndTag> = None;
        let element_end;
        if self.matches_end_tag(p, name) {
            let q = find_byte(bytes, p + 2 + nb.len(), 0x3e);
            proof {
                lemma_find_byte_from(s, p + 2 + nb.len(), 0x3e);
            }
            let hi = if q < len {
                q + 1
            } else {
                q
            };
            end_tag = Some(VEndTag { range: self.span(p, hi) });
            element_end = hi;
        } else {
            element_end = p;
        }
        let el = VElement {
            range: self.span(lo, element_end),
            name,
            raw_name: name,
            namespace: VNamespace::Html,
            start_tag,
            end_tag,
            children,
        };
        (Some(Box::new(el)), element_end)
    }
}

/// Parses the inner text of a `<template>` block into its children.
/// `body_offset` is where the body starts in the source; every span is
/// shifted by it.
pub fn parse_template_body<'a>(body: &'a str, body_offset: u32) -> (r: Vec<VElementChild<'a>>)
    requires
        body_offset + body.spec_bytes().len() <= u32::MAX,
        nodes_ok(kids_from(body.spec_bytes(), 0, 0, None).0, body.spec_bytes()),
    ensures
        children_match(r@, kids_from(body.spec_bytes(), 0, 0, None).0, body.spec_bytes(), body_offset as int),
{
    let p = TemplateParser { src: body, base: body_offset };
    let (children, _end) = p.parse_children(0, None);
    match children {
        Some(c) => c,
        None => Vec::new(),
    }
}

/// Law: a body that is empty or ends in an ASCII byte meets the tree
/// condition of `parse_template_body`: every attribute list in its tree
/// ends on a character boundary (the only list that can end elsewhere is
/// that of a start tag left open at the end of the body).
pub proof fn body_ending_in_ascii_parses(body: &str)
    requires
        body.spec_bytes().len() == 0 || body.spec_bytes().last() < 0x80,
    ensures
        nodes_ok(kids_from(body.spec_bytes(), 0, 0, None).0, body.spec_bytes()),
{
    lemma_kids_ok(body, 0, 0, None);
}

/// Parses the body as `parse_template_body` does when its `requires`
/// holds: the body ends below `u32::MAX` and every attribute list of its
/// tree ends on a character boundary (`nodes_ok`); `None` otherwise, which
/// are the bodies whose attribute text could not be cut out.
pub fn try_parse_template_body<'a>(body: &'a str, body_offset: u32) -> (r: Option<Vec<VElementChild<'a>>>)
    ensures
        r is Some <==> body_offset + body.spec_bytes().len() <= u32::MAX && nodes_ok(
            kids_from(body.spec_bytes(), 0, 0, None).0,
            body.spec_bytes(),
        ),
        r matches Some(v) ==> children_match(
            v@,
            kids_from(body.spec_bytes(), 0, 0, None).0,
            body.spec_bytes(),
            body_offset as int,
        ),
{
    let n = body.as_bytes().len();
    if n > (u32::MAX - body_offset) as usize {
        return None;
    }
    let p = TemplateParser { src: body, base: body_offset };
    let (children, _end) = p.parse_children(0, None);
    children
}

/// Builds the element of a top-level block from its parts: the attribute
/// list `raw_attributes` (at `raw_attributes_offset` in the source) is
/// parsed here; the children come ready.
pub fn build_block_element<'a>(
    _source: &'a str,
    tag: &'a str,
    range: Span,
    start_tag_range: Span,
    end_tag_range: Option<Span>,
    raw_attributes: &'a str,
    raw_attributes_offset: u32,
    self_closing: bool,
    children: Vec<VElementChild<'a>>,
) -> (r: Box<VElement<'a>>)
    requires
        raw_attributes_offset + raw_attributes.spec_bytes().len() <= u32::MAX,
    ensures
        r.range == range,
        r.name == tag,
        r.raw_name == tag,
        r.namespace == VNamespace::Html,
        r.start_tag.range == start_tag_range,
        r.start_tag.self_closing == self_closing,
        tmpl_attrs_are(
            r.start_tag.attributes@,
            raw_attrs_from(raw_attributes.spec_bytes(), 0),
            raw_attributes.spec_bytes(),
            raw_attributes_offset as int,
        ),
        match end_tag_range {
            None => r.end_tag is None,
            Some(sp) => r.end_tag matches Some(t) && t.range == sp,
        },
        r.children == children,
{
    let attrs = parse_attributes(_source, raw_attributes, raw_attributes_offset);
    let start_tag = VStartTag { range: start_tag_range, self_closing, attributes: attrs };
    let end_tag = match end_tag_range {
        None => None,
        Some(sp) => Some(VEndTag { range: sp }),
    };
    Box::new(
        VElement {
            range,
            name: tag,
            raw_name: tag,
            namespace: VNamespace::Html,
            start_tag,
            end_tag,
            children,
        },
    )
}

} // verus!
