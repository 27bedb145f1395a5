//! Attribute nodes built from the tokens that the start-tag scanner
//! collects: directive keys are split into name, argument and modifiers,
//! and directive values are tagged with what their script text is.
use vstd::prelude::*;
use vstd::string::StringSliceAdditionalSpecFns;
use vstd::utf8::*;

use crate::ast::{
    mjs_kind, SourceKind, VAttribute, VAttributeKey, VAttributeValue, VDirectiveKey,
    VDirectiveKeyArgument, VExprKind, VExpressionContainer, VIdentifier, VLiteral,
};
use crate::scanner::{eq_bytes, find_byte};
use crate::sfc::{find_byte_from, lemma_find_byte_from};
use crate::span::Span;
use crate::template::{
    find_colon_or_dot, ident_is, idents_are, key_mods, lemma_find_colon_or_dot, make_ident,
    scan_colon_or_dot, starts_v_dash,
};
use crate::text::{
    ascii_adjacent, eq_ignore_case_at, is_alnum, is_alpha, is_ascii_alphabetic, is_ascii_alphanumeric,
    seq_eq_ignore_case, slice_between_ascii,
};

verus! {

broadcast use vstd::string::group_string_axioms, vstd::utf8::encode_utf8_valid_utf8;

/// One attribute as the start-tag scanner captured it.
#[derive(Clone, Copy, Debug)]
pub struct AttrTok<'a> {
    pub key_span: Span,
    pub key: &'a str,
    pub value: Option<AttrValue<'a>>,
    /// The last byte the attribute covers: the key's end for a bare key,
    /// past a trailing `=` when the value is missing, the value's end
    /// otherwise.
    pub attr_end: u32,
}

#[derive(Clone, Copy, Debug)]
pub struct AttrValue<'a> {
    pub outer_span: Span,
    pub inner_span: Span,
    pub text: &'a str,
    pub quoted: bool,
}

// ---------------------------------------------------------------------------
// Specification
// ---------------------------------------------------------------------------
pub open spec fn is_short_prefix(b: u8) -> bool {
    b == 0x3a || b == 0x40 || b == 0x23 || b == 0x2e
}

/// The length of a directive key's name part (`:`, `@`, `#`, `.`, or
/// `v-name`), or `None` for a plain attribute.
pub open spec fn attr_name_len(k: Seq<u8>) -> Option<int> {
    if k.len() == 0 {
        None
    } else if is_short_prefix(k[0]) {
        Some(1)
    } else if starts_v_dash(k) {
        Some(find_colon_or_dot(k, 2))
    } else {
        None
    }
}

/// A directive argument: where it starts, its text, where the key goes on
/// after it, and whether it was written `[dynamic]`.
pub struct ArgModel {
    pub lo: int,
    pub text: (int, int),
    pub after: int,
    pub dynamic: bool,
}

/// The argument that starts at `a` of the key `k`.
pub open spec fn arg_at(k: Seq<u8>, a: int) -> ArgModel {
    let dot = find_byte_from(k, a, 0x2e);
    if a < k.len() && k[a] == 0x5b && find_byte_from(k, a + 1, 0x5d) < k.len() {
        let e = find_byte_from(k, a + 1, 0x5d);
        ArgModel { lo: a, text: (a + 1, e), after: e + 1, dynamic: true }
    } else {
        ArgModel { lo: a, text: (a, dot), after: dot, dynamic: false }
    }
}

/// The argument of the directive key `k` whose name part is `nl` long.
pub open spec fn key_arg(k: Seq<u8>, nl: int) -> ArgModel {
    let short = is_short_prefix(k[0]);
    if !short && nl < k.len() && k[nl] == 0x3a {
        arg_at(k, nl + 1)
    } else if short && nl < k.len() && k[nl] != 0x2e {
        arg_at(k, nl)
    } else {
        ArgModel { lo: nl, text: (nl, nl), after: nl, dynamic: false }
    }
}

/// The argument node `arg` is the model `m` of `k`, whose first byte sits
/// at `base`.
pub open spec fn arg_node_is(arg: Option<VDirectiveKeyArgument>, m: ArgModel, k: Seq<u8>, base: int) -> bool {
    if m.dynamic {
        arg matches Some(VDirectiveKeyArgument::Expression(c)) && c.range.start == base + m.lo
            && c.range.end == base + m.after && c.expression_range.start == base + m.lo + 1
            && c.expression_range.end == base + m.after - 1 && c.raw_expression.spec_bytes()
            == k.subrange(m.text.0, m.text.1) && !c.raw && !c.same_name_shorthand && c.kind
            == VExprKind::Default && c.source_type == mjs_kind()
    } else if m.text.0 == m.text.1 {
        arg is None
    } else {
        arg matches Some(VDirectiveKeyArgument::Identifier(id)) && ident_is(
            id,
            k,
            m.text.0,
            m.after,
            base,
        )
    }
}

/// The directive key `dk` was read from the key text `k` at `span`.
pub open spec fn dir_key_is(dk: VDirectiveKey, k: Seq<u8>, nl: int, span: Span) -> bool {
    let m = key_arg(k, nl);
    let mods = key_mods(k, m.after);
    &&& dk.range == span
    &&& dk.raw.spec_bytes() == k
    &&& ident_is(dk.name, k, 0, nl, span.start as int)
    &&& arg_node_is(dk.argument, m, k, span.start as int)
    &&& if k[0] == 0x2e && mods.len() == 0 {
        dk.modifiers@.len() == 1 && dk.modifiers@[0].range.start == span.end
            && dk.modifiers@[0].range.end == span.end && dk.modifiers@[0].name.spec_bytes().len()
            == 0 && dk.modifiers@[0].raw_name.spec_bytes().len() == 0
    } else {
        idents_are(dk.modifiers@, mods, k, span.start as int)
    }
}

/// The key `key` was classified from `k` at `span`; with `force_plain`
/// every key is a plain name.
pub open spec fn key_is(key: VAttributeKey, k: Seq<u8>, span: Span, force_plain: bool) -> bool {
    match (if force_plain {
        None
    } else {
        attr_name_len(k)
    }) {
        None => key matches VAttributeKey::Identifier(id) && id.range == span
            && id.name.spec_bytes() == k && id.raw_name.spec_bytes() == k,
        Some(nl) => key matches VAttributeKey::Directive(dk) && dir_key_is(dk, k, nl, span),
    }
}

/// An argument name that can stand for its own value: a letter or `_`,
/// then letters, digits, `_` or `-`.
pub open spec fn plausible_arg_name(n: Seq<u8>) -> bool {
    &&& n.len() > 0
    &&& (is_alpha(n[0]) || n[0] == 0x5f)
    &&& forall|i: int| 0 <= i < n.len() ==> #[trigger] is_alnum(n[i]) || n[i] == 0x5f || n[i] == 0x2d
}

/// What the value of a directive with the name `n` is to be read as.
pub open spec fn value_kind_of(n: Seq<u8>) -> VExprKind {
    if n == "@".spec_bytes() || seq_eq_ignore_case(n, "v-on".spec_bytes()) {
        VExprKind::VOn
    } else if n == "#".spec_bytes() || seq_eq_ignore_case(n, "v-slot".spec_bytes())
        || seq_eq_ignore_case(n, "slot-scope".spec_bytes()) {
        VExprKind::VSlot
    } else if seq_eq_ignore_case(n, "v-for".spec_bytes()) {
        VExprKind::VFor
    } else {
        VExprKind::Default
    }
}

/// Law: the kind a directive's value is read as depends only on which
/// directive it is, not on how it is spelt: `v-on` in any ASCII case reads
/// as its shorthand `@` does (an event handler), `v-slot` and `slot-scope`
/// in any case as `#` does (slot parameters), `v-for` in any case as a
/// `v-for`, and every other name as a plain expression.
pub proof fn value_kind_follows_the_directive(n: Seq<u8>)
    ensures
        value_kind_of("@".spec_bytes()) == VExprKind::VOn,
        value_kind_of("#".spec_bytes()) == VExprKind::VSlot,
        seq_eq_ignore_case(n, "v-on".spec_bytes()) ==> value_kind_of(n) == value_kind_of("@".spec_bytes()),
        seq_eq_ignore_case(n, "v-slot".spec_bytes()) || seq_eq_ignore_case(n, "slot-scope".spec_bytes())
            ==> value_kind_of(n) == value_kind_of("#".spec_bytes()),
        value_kind_of(n) == VExprKind::VFor <==> seq_eq_ignore_case(n, "v-for".spec_bytes()),
        value_kind_of(n) == VExprKind::Default <==> !(n == "@".spec_bytes() || n == "#".spec_bytes()
            || seq_eq_ignore_case(n, "v-on".spec_bytes()) || seq_eq_ignore_case(n, "v-slot".spec_bytes())
            || seq_eq_ignore_case(n, "slot-scope".spec_bytes()) || seq_eq_ignore_case(n, "v-for".spec_bytes())),
{
    reveal_strlit("@");
    vstd::string::is_ascii_spec_bytes("@");
    assert("@".spec_bytes() =~= seq![0x40u8]);
    reveal_strlit("#");
    vstd::string::is_ascii_spec_bytes("#");
    assert("#".spec_bytes() =~= seq![0x23u8]);
    reveal_strlit("v-on");
    vstd::string::is_ascii_spec_bytes("v-on");
    assert("v-on".spec_bytes() =~= seq![0x76u8, 0x2du8, 0x6fu8, 0x6eu8]);
    reveal_strlit("v-slot");
    vstd::string::is_ascii_spec_bytes("v-slot");
    assert("v-slot".spec_bytes() =~= seq![0x76u8, 0x2du8, 0x73u8, 0x6cu8, 0x6fu8, 0x74u8]);
    reveal_strlit("slot-scope");
    vstd::string::is_ascii_spec_bytes("slot-scope");
    assert("slot-scope".spec_bytes() =~= seq![0x73u8, 0x6cu8, 0x6fu8, 0x74u8, 0x2du8, 0x73u8, 0x63u8, 0x6fu8, 0x70u8, 0x65u8]);
    reveal_strlit("v-for");
    vstd::string::is_ascii_spec_bytes("v-for");
    assert("v-for".spec_bytes() =~= seq![0x76u8, 0x2du8, 0x66u8, 0x6fu8, 0x72u8]);
}

/// The directive `k` (name part `nl` long) binds an argument with no
/// value written, such as `:foo`, which then stands for `:foo="foo"`.
pub open spec fn same_name_bind(k: Seq<u8>, nl: int) -> bool {
    let n = k.subrange(0, nl);
    let m = key_arg(k, nl);
    &&& n == ":".spec_bytes() || seq_eq_ignore_case(n, "v-bind".spec_bytes())
    &&& !m.dynamic
    &&& plausible_arg_name(k.subrange(m.text.0, m.after))
}

/// Law: a same-name shorthand is a `:x` or `v-bind:x` (any case) written
/// without a value whose argument `x` is a plain name (a letter or `_`,
/// then letters, digits, `_` or `-`); its value is an expression whose text
/// and range are exactly those of the argument, read as a plain
/// expression.
pub proof fn same_name_shorthand_reads_its_argument(r: VAttribute, a: AttrTok, in_v_pre: bool, st: SourceKind)
    requires
        attr_built(r, a, in_v_pre, st),
    ensures
        match (r.value, r.key) {
            (Some(VAttributeValue::Expression(c)), VAttributeKey::Directive(dk)) => c.same_name_shorthand ==> {
                &&& a.value is None
                &&& r.directive
                &&& dk.name.name.spec_bytes() == ":".spec_bytes() || seq_eq_ignore_case(
                    dk.name.name.spec_bytes(),
                    "v-bind".spec_bytes(),
                )
                &&& match dk.argument {
                    Some(VDirectiveKeyArgument::Identifier(id)) => c.raw_expression.spec_bytes()
                        == id.name.spec_bytes() && c.range == id.range,
                    _ => false,
                }
                &&& plausible_arg_name(c.raw_expression.spec_bytes())
                &&& c.kind == VExprKind::Default
            },
            (Some(VAttributeValue::Expression(c)), _) => !c.same_name_shorthand,
            _ => true,
        },
{
    let k = a.key.spec_bytes();
    let force = in_v_pre && !is_v_pre(k);
    if let Some(nl) = attr_name_len(k) {
        if !force && a.value is None && same_name_bind(k, nl) {
            let m = key_arg(k, nl);
            if !is_short_prefix(k[0]) && starts_v_dash(k) {
                lemma_find_colon_or_dot(k, 2);
            }
            if 0 <= m.lo <= k.len() {
                lemma_find_byte_from(k, m.lo, 0x2e);
            }
            assert(m.text.0 != m.text.1);
        }
    }
}

pub open spec fn is_v_pre(k: Seq<u8>) -> bool {
    k == "v-pre".spec_bytes()
}

/// The attribute `r` was built from the token `a`.
pub open spec fn attr_built(r: VAttribute, a: AttrTok, in_v_pre: bool, st: SourceKind) -> bool {
    let k = a.key.spec_bytes();
    let force = in_v_pre && !is_v_pre(k);
    let nl = attr_name_len(k);
    let dir = !force && nl is Some;
    &&& r.range.start == a.key_span.start
    &&& r.range.end == a.attr_end
    &&& r.directive == dir
    &&& key_is(r.key, k, a.key_span, force)
    &&& match a.value {
        Some(v) => if dir {
            r.value matches Some(VAttributeValue::Expression(c)) && c.range == v.outer_span
                && c.raw_expression == v.text && c.expression_range == v.inner_span && !c.raw
                && !c.same_name_shorthand && c.kind == value_kind_of(k.subrange(0, nl->0))
                && c.source_type == st
        } else {
            r.value matches Some(VAttributeValue::Literal(l)) && l.range == v.outer_span && l.value
                == v.text
        },
        None => if dir && same_name_bind(k, nl->0) {
            let m = key_arg(k, nl->0);
            r.value matches Some(VAttributeValue::Expression(c)) && c.range.start
                == a.key_span.start + m.text.0 && c.range.end == a.key_span.start + m.after
                && c.expression_range == c.range && c.raw_expression.spec_bytes() == k.subrange(
                m.text.0,
                m.after,
            ) && !c.raw && c.same_name_shorthand && c.kind == VExprKind::Default && c.source_type
                == st
        } else {
            r.value is None
        },
    }
}

// ---------------------------------------------------------------------------
// Building
// ---------------------------------------------------------------------------
/// Whether `s` can stand for its own value: a letter or `_`, then
/// letters, digits, `_` or `-`.
pub fn is_plausible_arg_name(s: &str) -> (r: bool)
    ensures
        r == plausible_arg_name(s.spec_bytes()),
{
    let bytes = s.as_bytes();
    if bytes.len() == 0 {
        return false;
    }
    if !(is_ascii_alphabetic(bytes[0]) || bytes[0] == 0x5f) {
        return false;
    }
    let mut i: usize = 0;
    while i < bytes.len()
        invariant
            bytes@ == s.spec_bytes(),
            i <= bytes@.len(),
            forall|t: int| 0 <= t < i ==> #[trigger] is_alnum(bytes@[t]) || bytes@[t] == 0x5f || bytes@[t] == 0x2d,
        decreases bytes@.len() - i,
    {
        let b = bytes[i];
        if !(is_ascii_alphanumeric(b) || b == 0x5f || b == 0x2d) {
            return false;
        }
        i += 1;
    }
    true
}

/// The argument that starts at `base_in_raw` of `raw`: `[text]` when the
/// bracket closes, else up to the next `.`. Returns where it starts, the
/// range of its text, where the key goes on, and whether it is dynamic.
fn classify_arg(raw: &str, base_in_raw: usize) -> (r: (usize, usize, usize, usize, bool))
    requires
        base_in_raw <= raw.spec_bytes().len(),
    ensures
        ({
            let m = arg_at(raw.spec_bytes(), base_in_raw as int);
            &&& r.0 == m.lo
            &&& (r.1 as int, r.2 as int) == m.text
            &&& r.3 == m.after
            &&& r.4 == m.dynamic
        }),
{
    let bytes = raw.as_bytes();
    let len = bytes.len();
    if base_in_raw < len && bytes[base_in_raw] == 0x5b {
        let e = find_byte(bytes, base_in_raw + 1, 0x5d);
        if e < len {
            return (base_in_raw, base_in_raw + 1, e, e + 1, true);
        }
    }
    let dot = find_byte(bytes, base_in_raw, 0x2e);
    (base_in_raw, base_in_raw, dot, dot, false)
}

fn plain_identifier<'a>(raw: &'a str, span: Span) -> (r: VAttributeKey<'a>)
    ensures
        r matches VAttributeKey::Identifier(id) && id.range == span && id.name == raw && id.raw_name
            == raw,
{
    VAttributeKey::Identifier(VIdentifier { range: span, name: raw, raw_name: raw })
}

/// Builds the directive key of `raw`, whose name part is `name_len`
/// bytes long. A `.prop` key with no modifiers gets one empty modifier
/// at the key's end.
fn parse_directive_key<'a>(raw: &'a str, name_len: usize, span: Span) -> (r: (VAttributeKey<'a>, bool))
    requires
        attr_name_len(raw.spec_bytes()) == Some(name_len as int),
        span.start + raw.spec_bytes().len() <= u32::MAX,
    ensures
        r.1,
        r.0 matches VAttributeKey::Directive(dk) && dir_key_is(dk, raw.spec_bytes(), name_len as int, span),
{
    let ghost k = raw.spec_bytes();
    let bytes = raw.as_bytes();
    let len = bytes.len();
    proof {
        if starts_v_dash(k) && !is_short_prefix(k[0]) {
            lemma_find_colon_or_dot(k, 2);
        }
    }
    let name_ident = make_ident(raw, 0, name_len, span.start);
    let b0 = bytes[0];
    let is_shorthand = b0 == 0x3a || b0 == 0x40 || b0 == 0x23 || b0 == 0x2e;
    let is_prop_shorthand = b0 == 0x2e;
    let (arg_lo, t_lo, t_hi, after, dynamic) = if !is_shorthand && name_len < len && bytes[name_len] == 0x3a {
        classify_arg(raw, name_len + 1)
    } else if is_shorthand && name_len < len && bytes[name_len] != 0x2e {
        classify_arg(raw, name_len)
    } else {
        (name_len, name_len, name_len, name_len, false)
    };
    let ghost m = key_arg(k, name_len as int);
    assert(arg_lo == m.lo && t_lo == m.text.0 && t_hi == m.text.1 && after == m.after && dynamic == m.dynamic);
    proof {
        lemma_find_byte_from(k, arg_lo as int, 0x2e);
        if arg_lo < len {
            lemma_find_byte_from(k, arg_lo + 1, 0x5d);
        }
    }
    let argument = if t_lo == t_hi && !dynamic {
        None
    } else if dynamic {
        let txt = slice_between_ascii(raw, t_lo, t_hi);
        let outer = Span::new(span.start + arg_lo as u32, span.start + after as u32);
        let inner = Span::new(outer.start + 1, outer.end - 1);
        Some(
            VDirectiveKeyArgument::Expression(
                VExpressionContainer {
                    range: outer,
                    raw_expression: txt,
                    expression_range: inner,
                    raw: false,
                    same_name_shorthand: false,
                    kind: VExprKind::Default,
                    source_type: SourceKind::mjs().with_module(true),
                },
            ),
        )
    } else {
        Some(VDirectiveKeyArgument::Identifier(make_ident(raw, t_lo, after, span.start)))
    };
    let mut modifiers: Vec<VIdentifier<'a>> = Vec::new();
    let ghost mut done: Seq<(int, int)> = seq![];
    let mut cursor = after;
    while cursor < len && bytes[cursor] == 0x2e
        invariant
            len == k.len(),
            k == raw.spec_bytes(),
            bytes@ == k,
            after <= cursor <= len,
            ascii_adjacent(k, cursor as int),
            span.start + len <= u32::MAX,
            key_mods(k, after as int) == done + key_mods(k, cursor as int),
            idents_are(modifiers@, done, k, span.start as int),
        decreases len - cursor,
    {
        let mod_lo = cursor + 1;
        let mod_hi = find_byte(bytes, mod_lo, 0x2e);
        proof {
            lemma_find_byte_from(k, mod_lo as int, 0x2e);
        }
        let md = make_ident(raw, mod_lo, mod_hi, span.start);
        modifiers.push(md);
        proof {
            let piece = (mod_lo as int, mod_hi as int);
            assert(key_mods(k, cursor as int) == seq![piece] + key_mods(k, mod_hi as int));
            assert(done.push(piece) + key_mods(k, mod_hi as int) == done + key_mods(
                k,
                cursor as int,
            ));
            done = done.push(piece);
        }
        cursor = mod_hi;
    }
    assert(key_mods(k, cursor as int) == Seq::<(int, int)>::empty());
    assert(done + key_mods(k, cursor as int) == done);
    if is_prop_shorthand && modifiers.len() == 0 {
        let empty = slice_between_ascii(raw, len, len);
        modifiers.push(VIdentifier { range: Span::new(span.end, span.end), name: empty, raw_name: empty });
    }
    let dk = VDirectiveKey { range: span, name: name_ident, argument, modifiers, raw };
    (VAttributeKey::Directive(dk), true)
}

/// Classifies an attribute key: a directive (`v-name`, or one of the
/// shorthands `:`, `@`, `#`, `.`) or a plain name. With `force_plain`
/// (inside `v-pre`) every key is a plain name.
fn classify_key<'a>(raw: &'a str, span: Span, force_plain: bool) -> (r: (VAttributeKey<'a>, bool))
    requires
        span.start + raw.spec_bytes().len() <= u32::MAX,
    ensures
        key_is(r.0, raw.spec_bytes(), span, force_plain),
        r.1 == (!force_plain && attr_name_len(raw.spec_bytes()) is Some),
{
    let bytes = raw.as_bytes();
    let len = bytes.len();
    if force_plain || len == 0 {
        return (plain_identifier(raw, span), false);
    }
    let b0 = bytes[0];
    if b0 == 0x3a || b0 == 0x40 || b0 == 0x23 || b0 == 0x2e {
        parse_directive_key(raw, 1, span)
    } else if len >= 2 && b0 == 0x76 && bytes[1] == 0x2d {
        let name_len = scan_colon_or_dot(bytes, 2);
        parse_directive_key(raw, name_len, span)
    } else {
        (plain_identifier(raw, span), false)
    }
}

/// Whether `n` equals `w` up to ASCII case.
pub(crate) fn eq_ignore_case(n: &[u8], w: &[u8]) -> (r: bool)
    ensures
        r == seq_eq_ignore_case(n@, w@),
{
    if n.len() != w.len() {
        return false;
    }
    let r = eq_ignore_case_at(n, 0, w);
    assert(n@.subrange(0, w@.len() as int) == n@);
    r
}

/// What the value of the directive named `n` is to be read as.
fn value_kind(n: &str) -> (r: VExprKind)
    ensures
        r == value_kind_of(n.spec_bytes()),
{
    let b = n.as_bytes();
    if eq_bytes(b, "@".as_bytes()) || eq_ignore_case(b, "v-on".as_bytes()) {
        VExprKind::VOn
    } else if eq_bytes(b, "#".as_bytes()) || eq_ignore_case(b, "v-slot".as_bytes()) || eq_ignore_case(
        b,
        "slot-scope".as_bytes(),
    ) {
        VExprKind::VSlot
    } else if eq_ignore_case(b, "v-for".as_bytes()) {
        VExprKind::VFor
    } else {
        VExprKind::Default
    }
}

/// The value that a bound argument with no value written stands for:
/// the argument's own name, when the directive is `:` or `v-bind` and the
/// name is a plausible identifier.
fn same_name_value<'a>(dk: &VDirectiveKey<'a>) -> (r: Option<(Span, &'a str)>)
    ensures
        match r {
            Some((sp, n)) => {
                &&& dk.name.name.spec_bytes() == ":".spec_bytes() || seq_eq_ignore_case(
                    dk.name.name.spec_bytes(),
                    "v-bind".spec_bytes(),
                )
                &&& dk.argument matches Some(VDirectiveKeyArgument::Identifier(id)) && sp == id.range
                    && n == id.name && plausible_arg_name(id.name.spec_bytes())
            },
            None => !({
                &&& dk.name.name.spec_bytes() == ":".spec_bytes() || seq_eq_ignore_case(
                    dk.name.name.spec_bytes(),
                    "v-bind".spec_bytes(),
                )
                &&& dk.argument matches Some(VDirectiveKeyArgument::Identifier(id))
                    && plausible_arg_name(id.name.spec_bytes())
            }),
        },
{
    let nb = dk.name.name.as_bytes();
    let is_bind = eq_bytes(nb, ":".as_bytes()) || eq_ignore_case(nb, "v-bind".as_bytes());
    if is_bind {
        match &dk.argument {
            Some(VDirectiveKeyArgument::Identifier(id)) => {
                if id.name.as_bytes().len() > 0 && is_plausible_arg_name(id.name) {
                    return Some((id.range, id.name));
                }
            },
            _ => {},
        }
    }
    None
}

/// Builds the attribute node of one token. Inside `v-pre` every key but
/// `v-pre` itself is a plain name. A `:name` or `v-bind:name` with no
/// value stands for `:name="name"` when `name` is a plausible identifier.
fn build_one<'a>(a: &AttrTok<'a>, in_v_pre: bool, source_type: SourceKind) -> (r: VAttribute<'a>)
    requires
        a.key_span.start + a.key.spec_bytes().len() <= u32::MAX,
    ensures
        attr_built(r, *a, in_v_pre, source_type),
{
    let ghost k = a.key.spec_bytes();
    let is_v_pre_attr = eq_bytes(a.key.as_bytes(), "v-pre".as_bytes());
    let (key_node, is_directive) = classify_key(a.key, a.key_span, in_v_pre && !is_v_pre_attr);
    let attr_span = Span::new(a.key_span.start, a.attr_end);
    let value_kind = match &key_node {
        VAttributeKey::Directive(dk) => value_kind(dk.name.name),
        VAttributeKey::Identifier(_) => VExprKind::Default,
    };
    let synth = if a.value.is_none() && is_directive {
        match &key_node {
            VAttributeKey::Directive(dk) => same_name_value(dk),
            VAttributeKey::Identifier(_) => None,
        }
    } else {
        None
    };
    let value_node = match a.value {
        Some(v) => {
            if is_directive {
                Some(
                    VAttributeValue::Expression(
                        VExpressionContainer {
                            range: v.outer_span,
                            raw_expression: v.text,
                            expression_range: v.inner_span,
                            raw: false,
                            same_name_shorthand: false,
                            kind: value_kind,
                            source_type,
                        },
                    ),
                )
            } else {
                Some(VAttributeValue::Literal(VLiteral { range: v.outer_span, value: v.text }))
            }
        },
        None => match synth {
            Some((arg_span, name)) => Some(
                VAttributeValue::Expression(
                    VExpressionContainer {
                        range: arg_span,
                        raw_expression: name,
                        expression_range: arg_span,
                        raw: false,
                        same_name_shorthand: true,
                        kind: VExprKind::Default,
                        source_type,
                    },
                ),
            ),
            None => None,
        },
    };
    let r = VAttribute { range: attr_span, directive: is_directive, key: key_node, value: value_node };
    proof {
        let force = in_v_pre && !is_v_pre(k);
        assert(is_v_pre_attr == is_v_pre(k));
        assert(key_is(r.key, k, a.key_span, force));
        if is_directive {
            let nl = attr_name_len(k)->0;
            let dk = r.key->Directive_0;
            assert(dk.name.name.spec_bytes() == k.subrange(0, nl));
            assert(value_kind == value_kind_of(k.subrange(0, nl)));
            if a.value is None {
                let m = key_arg(k, nl);
                if !m.dynamic && m.text.0 != m.text.1 {
                    let id = dk.argument->0->Identifier_0;
                    assert(id.name.spec_bytes() == k.subrange(m.text.0, m.after));
                }
                assert(synth is Some ==> same_name_bind(k, nl));
                if starts_v_dash(k) && !is_short_prefix(k[0]) {
                    lemma_find_colon_or_dot(k, 2);
                }
                if m.lo <= k.len() {
                    lemma_find_byte_from(k, m.lo, 0x2e);
                }
                if same_name_bind(k, nl) {
                    assert(!m.dynamic);
                    assert(m.after == m.text.1);
                    assert(k.subrange(m.text.0, m.after).len() > 0);
                    assert(m.text.0 != m.text.1);
                    let id = dk.argument->0->Identifier_0;
                    assert(plausible_arg_name(id.name.spec_bytes()));
                    assert(dk.name.name.spec_bytes() == ":".spec_bytes() || seq_eq_ignore_case(
                        dk.name.name.spec_bytes(),
                        "v-bind".spec_bytes(),
                    ));
                    assert(synth is Some);
                }
            }
        }
    }
    r
}

/// Builds the attribute nodes of a start tag's tokens, in order.
pub fn build_vattributes<'a>(attrs: &[AttrTok<'a>], in_v_pre: bool, source_type: SourceKind) -> (r: Vec<
    VAttribute<'a>,
>)
    requires
        forall|i: int|
            0 <= i < attrs@.len() ==> #[trigger] attrs@[i].key_span.start + attrs@[i].key.spec_bytes().len()
                <= u32::MAX,
    ensures
        r@.len() == attrs@.len(),
        forall|i: int| 0 <= i < attrs@.len() ==> attr_built(#[trigger] r@[i], attrs@[i], in_v_pre, source_type),
{
    let mut out: Vec<VAttribute<'a>> = Vec::new();
    let mut i: usize = 0;
    while i < attrs.len()
        invariant
            i <= attrs@.len(),
            out@.len() == i,
            forall|j: int|
                0 <= j < attrs@.len() ==> #[trigger] attrs@[j].key_span.start + attrs@[j].key.spec_bytes().len()
                    <= u32::MAX,
            forall|j: int| 0 <= j < i ==> attr_built(#[trigger] out@[j], attrs@[j], in_v_pre, source_type),
        decreases attrs@.len() - i,
    {
        let a = &attrs[i];
        out.push(build_one(a, in_v_pre, source_type));
        i += 1;
    }
    out
}

/// Whether one of the tokens is a `v-pre` attribute.
pub fn has_v_pre(attrs: &[AttrTok<'_>]) -> (r: bool)
    ensures
        r == exists|i: int| 0 <= i < attrs@.len() && is_v_pre(#[trigger] attrs@[i].key.spec_bytes()),
{
    let mut i: usize = 0;
    while i < attrs.len()
        invariant
            i <= attrs@.len(),
            forall|j: int| 0 <= j < i ==> !is_v_pre(#[trigger] attrs@[j].key.spec_bytes()),
        decreases attrs@.len() - i,
    {
        if eq_bytes(attrs[i].key.as_bytes(), "v-pre".as_bytes()) {
            return true;
        }
        i += 1;
    }
    false
}

} // verus!
