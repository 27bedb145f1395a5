//! The token scanner: walks a component source once and fills the
//! template token stream, the script token stream and the HTML comments,
//! handing expressions and script bodies to the JavaScript tokenizer.
use vstd::prelude::*;
use vstd::string::StringSliceAdditionalSpecFns;
use vstd::utf8::*;

use crate::ast::{mjs_kind, SourceKind};
use crate::json::{filter_from, first_occ_from};
use crate::oxc::{kind_of_extension, occurs_at, oxc_token_json};
use crate::span::Span;
use crate::text::{decimal, is_ws, lemma_ascii_char_boundary, lower_char, seq_eq_ignore_case};
use crate::tokens::{
    alnum_to, attr_value_range, char_ref, dec, find_ci, find_in, is_foreign_name,
    is_raw_text_name, is_rcdata_name, popped, tag_at, trim_to, value_kind_of_name, vfor_from, ws_to,
    AttrValueKind, CommentKind, TagModel, TokView, VTokenKind,
};

verus! {

broadcast use vstd::string::group_string_axioms, vstd::utf8::encode_utf8_valid_utf8;

// ---------------------------------------------------------------------------
// Text runs
// ---------------------------------------------------------------------------
/// What is left of `[p, end)`.
pub open spec fn rem(p: int, end: int) -> int {
    if p < end {
        end - p
    } else {
        0
    }
}

pub open spec fn vtok(kind: VTokenKind, a: int, b: int, v: Seq<char>) -> TokView {
    TokView::Tok(kind, a, b, Some(v))
}

/// End of the run from `p` (before `end`) of bytes whose whiteness is `w`.
pub open spec fn run_end(s: Seq<u8>, p: int, end: int, w: bool) -> int
    decreases end - p,
{
    if p < end && 0 <= p < s.len() && is_ws(s[p]) == w {
        run_end(s, p + 1, end, w)
    } else {
        p
    }
}

/// `[p, end)` as alternating whitespace and `other` tokens.
pub open spec fn chunks(s: Seq<u8>, p: int, end: int, other: VTokenKind) -> Seq<TokView>
    decreases end - p,
{
    if p >= end || p < 0 || end > s.len() {
        seq![]
    } else {
        let w = is_ws(s[p]);
        let e = run_end(s, p, end, w);
        proof {
            lemma_run_end(s, p, end, w);
        }
        seq![
            vtok(
                if w {
                    VTokenKind::HTMLWhitespace
                } else {
                    other
                },
                p,
                e,
                dec(s, p, e),
            ),
        ] + chunks(s, e, end, other)
    }
}

/// `v` is a run of tokens over `[a, end)`: each one starts where the one
/// before it ends, is not empty, holds its text, and covers only ASCII
/// whitespace (a whitespace token) or only other bytes (an `other` token);
/// two tokens that follow each other are of different kinds.
pub open spec fn runs_tile(s: Seq<u8>, v: Seq<TokView>, a: int, end: int, other: VTokenKind) -> bool
    decreases v.len(),
{
    if v.len() == 0 {
        a == end
    } else {
        &&& v[0] matches TokView::Tok(k, x, y, Some(t)) && {
            &&& x == a < y
            &&& t == dec(s, a, y)
            &&& (k == VTokenKind::HTMLWhitespace || k == other)
            &&& forall|i: int| a <= i < y ==> is_ws(#[trigger] s[i]) == (k == VTokenKind::HTMLWhitespace)
            &&& v.len() > 1 ==> (v[1] matches TokView::Tok(k2, _, _, _) && k2 != k)
            &&& runs_tile(s, v.drop_first(), y, end, other)
        }
    }
}

/// Law: text cut into chunks is tiled by maximal runs of whitespace and of
/// other bytes, each token holding its own text.
pub proof fn chunks_tile_text(s: Seq<u8>, p: int, end: int, other: VTokenKind)
    requires
        0 <= p <= end <= s.len(),
        other != VTokenKind::HTMLWhitespace,
    ensures
        runs_tile(s, chunks(s, p, end, other), p, end, other),
    decreases end - p,
{
    if p < end {
        let w = is_ws(s[p]);
        let e = run_end(s, p, end, w);
        lemma_run_end(s, p, end, w);
        chunks_tile_text(s, e, end, other);
        let v = chunks(s, p, end, other);
        assert(v.drop_first() =~= chunks(s, e, end, other));
        if e < end {
            lemma_run_end(s, e, end, !w);
            assert(v[1] == chunks(s, e, end, other)[0]);
        }
    }
}

/// End of a run of bytes that are neither whitespace nor `&`.
pub open spec fn rc_run_end(s: Seq<u8>, p: int, end: int) -> int
    decreases end - p,
{
    if p < end && 0 <= p < s.len() && !is_ws(s[p]) && s[p] != 0x26 {
        rc_run_end(s, p + 1, end)
    } else {
        p
    }
}

/// `[p, end)` of an RCDATA element as tokens, character references
/// resolved; `None` when a `&` starts no known reference, where the scan
/// would make no progress.
pub open spec fn rcdata_chunks(s: Seq<u8>, p: int, end: int) -> Option<Seq<TokView>>
    decreases end - p,
{
    if p >= end || p < 0 || end > s.len() {
        Some(seq![])
    } else if is_ws(s[p]) {
        let e = run_end(s, p, end, true);
        proof {
            lemma_run_end(s, p, end, true);
        }
        match rcdata_chunks(s, e, end) {
            None => None,
            Some(r) => Some(seq![vtok(VTokenKind::HTMLWhitespace, p, e, dec(s, p, e))] + r),
        }
    } else if s[p] == 0x26 && char_ref(s, p, end) is Some {
        let (re, v) = char_ref(s, p, end)->0;
        proof {
            lemma_alnum_to(s, p + 1, end);
        }
        match rcdata_chunks(s, re, end) {
            None => None,
            Some(r) => Some(seq![vtok(VTokenKind::HTMLRCDataText, p, re, v)] + r),
        }
    } else {
        let e = rc_run_end(s, p, end);
        proof {
            lemma_rc_run_end(s, p, end);
        }
        if e == p {
            None
        } else {
            match rcdata_chunks(s, e, end) {
                None => None,
                Some(r) => Some(seq![vtok(VTokenKind::HTMLRCDataText, p, e, dec(s, p, e))] + r),
            }
        }
    }
}

pub proof fn lemma_run_end(s: Seq<u8>, p: int, end: int, w: bool)
    requires
        0 <= p <= end <= s.len(),
    ensures
        p <= run_end(s, p, end, w) <= end,
        p < end && is_ws(s[p]) == w ==> p < run_end(s, p, end, w),
        forall|k: int| p <= k < run_end(s, p, end, w) ==> is_ws(#[trigger] s[k]) == w,
        run_end(s, p, end, w) < end ==> is_ws(s[run_end(s, p, end, w)]) != w,
    decreases end - p,
{
    if p < end && is_ws(s[p]) == w {
        lemma_run_end(s, p + 1, end, w);
    }
}

pub proof fn lemma_rc_run_end(s: Seq<u8>, p: int, end: int)
    requires
        0 <= p <= end <= s.len(),
    ensures
        p <= rc_run_end(s, p, end) <= end,
        rc_run_end(s, p, end) < end ==> (is_ws(s[rc_run_end(s, p, end)]) || s[rc_run_end(s, p, end)]
            == 0x26),
    decreases end - p,
{
    if p < end && !is_ws(s[p]) && s[p] != 0x26 {
        lemma_rc_run_end(s, p + 1, end);
    }
}

pub proof fn lemma_alnum_to(s: Seq<u8>, p: int, end: int)
    requires
        0 <= p,
    ensures
        p <= alnum_to(s, p, end),
    decreases end - p,
{
    if p < end && 0 <= p < s.len() && crate::text::is_alnum(s[p]) {
        lemma_alnum_to(s, p + 1, end);
    }
}

// ---------------------------------------------------------------------------
// Expressions, through the JavaScript tokenizer
// ---------------------------------------------------------------------------
/// `n` spaces.
pub open spec fn spaces(n: int) -> Seq<char> {
    Seq::new(n as nat, |i: int| ' ')
}

/// The text handed to the tokenizer for `[start, end)`: the source before
/// it blanked out, `sw` just before it and `ew` right after it.
pub open spec fn wrapped(s: Seq<u8>, start: int, end: int, sw: Seq<char>, ew: Seq<char>) -> Seq<char> {
    spaces(start - sw.len()) + sw + dec(s, start, end) + ew
}

/// The tokenizer's JSON without its `[` and `]`.
pub open spec fn inner_json(j: Seq<char>) -> Seq<char> {
    j.subrange(1, j.len() - 1)
}

/// `"end":n}` as bytes.
pub open spec fn end_needle(n: int) -> Seq<u8> {
    encode_utf8(seq!['"', 'e', 'n', 'd', '"', ':'] + decimal(n as nat) + seq!['}'])
}

/// The last index at or below `i` where `n` occurs in `h`.
pub open spec fn last_occ_to(h: Seq<u8>, n: Seq<u8>, i: int) -> Option<int>
    decreases i + 1,
{
    if i < 0 {
        None
    } else if occurs_at(h, n, i) {
        Some(i)
    } else {
        last_occ_to(h, n, i - 1)
    }
}

/// The tokens of the expression `[start, end)`: the tokenizer reads it in
/// parentheses, and the tokens between the `(` and the `)` are cut out
/// of its JSON at the token that ends just before `start` and the last
/// token that ends at `end`. `Err` where that cut would run backwards
/// (or `start` is 0), which the scan cannot continue from.
pub open spec fn expr_json(s: Seq<u8>, start: int, end: int, kind: SourceKind) -> Result<Option<Seq<char>>, ()> {
    if start < 1 {
        Err(())
    } else {
        match oxc_token_json(wrapped(s, start, end, seq!['('], seq![')']), kind) {
            None => Ok(None),
            Some(j) => {
                let b = encode_utf8(inner_json(j));
                let n1 = encode_utf8(seq!['"', 'e', 'n', 'd', '"', ':'] + decimal((start - 1) as nat) + seq!['}', ',']);
                let n2 = end_needle(end);
                match (first_occ_from(b, n1, 0), last_occ_to(b, n2, b.len() as int)) {
                    (Some(i), Some(k)) => if i + n1.len() > k + n2.len() {
                        Err(())
                    } else {
                        Ok(Some(decode_utf8(b.subrange(i + n1.len(), k + n2.len()))))
                    },
                    _ => Ok(None),
                }
            },
        }
    }
}

/// One JSON entry for a non-empty token text.
pub open spec fn json_entry(t: Option<Seq<char>>) -> Seq<TokView> {
    match t {
        Some(x) => if x.len() > 0 {
            seq![TokView::Json(x)]
        } else {
            seq![]
        },
        None => seq![],
    }
}

/// The tokens of an expression, or `None` where the scan stops.
pub open spec fn expr_tokens(s: Seq<u8>, start: int, end: int, kind: SourceKind) -> Option<Seq<TokView>> {
    match expr_json(s, start, end, kind) {
        Err(_) => None,
        Ok(t) => Some(json_entry(t)),
    }
}

/// The tokens of `[start, end)` read between `sw` and `ew`, keeping those
/// that lie inside the range.
pub open spec fn wrapped_tokens(s: Seq<u8>, start: int, end: int, sw: Seq<char>, ew: Seq<char>, kind: SourceKind) -> Option<Seq<char>> {
    if start < sw.len() {
        None
    } else {
        match oxc_token_json(wrapped(s, start, end, sw, ew), kind) {
            None => None,
            Some(j) => Some(
                filter_from(
                    encode_utf8(inner_json(j)),
                    0,
                    Span { start: start as u32, end: end as u32 },
                    seq![],
                ),
            ),
        }
    }
}

/// The tokens of an event handler: its statements read as an arrow
/// function body.
pub open spec fn handler_tokens(s: Seq<u8>, start: int, end: int, kind: SourceKind) -> Seq<TokView> {
    json_entry(
        wrapped_tokens(
            s,
            start,
            end,
            seq!['(', '(', ')', '=', '>', '{'],
            seq!['}', ')'],
            kind,
        ),
    )
}

/// The tokens of slot parameters: read as the parameters of an arrow
/// function, without surrounding whitespace.
pub open spec fn slot_params_tokens(s: Seq<u8>, start: int, end: int, kind: SourceKind) -> Seq<TokView> {
    let a = ws_to(s, start, end);
    let b = trim_to(s, a, end);
    if a >= b {
        seq![]
    } else if s[a] == 0x28 && s[b - 1] == 0x29 {
        json_entry(wrapped_tokens(s, a, b, seq!['('], seq!['=', '>', '0', ')'], kind))
    } else {
        json_entry(wrapped_tokens(s, a, b, seq!['(', '('], seq![')', '=', '>', '0', ')'], kind))
    }
}

/// `{"type":"t","value":"v","start":a,"end":b}`.
pub open spec fn manual_token(t: Seq<char>, v: Seq<char>, a: int, b: int) -> Seq<char> {
    seq!['{', '"', 't', 'y', 'p', 'e', '"', ':', '"'] + t + seq!['"', ',', '"', 'v', 'a', 'l', 'u', 'e', '"', ':', '"'] + v
        + seq!['"', ',', '"', 's', 't', 'a', 'r', 't', '"', ':'] + decimal(a as nat) + seq![',', '"', 'e', 'n', 'd', '"', ':']
        + decimal(b as nat) + seq!['}']
}

/// The tokens of a `v-for` value: the alias as slot parameters, the
/// operator, and the list as an expression; all of it as an expression
/// when it does not split.
pub open spec fn vfor_tokens(s: Seq<u8>, start: int, end: int, kind: SourceKind) -> Option<Seq<TokView>> {
    match vfor_from(s, start, end, start, 0, 0, 0) {
        None => expr_tokens(s, start, end, kind),
        Some(m) => {
            let op = dec(s, m.op.0, m.op.1);
            let t = if op == seq!['i', 'n'] {
                seq!['K', 'e', 'y', 'w', 'o', 'r', 'd']
            } else {
                seq!['I', 'd', 'e', 'n', 't', 'i', 'f', 'i', 'e', 'r']
            };
            match expr_tokens(s, m.right.0, m.right.1, kind) {
                None => None,
                Some(r) => Some(
                    slot_params_tokens(s, m.left.0, m.left.1, kind) + seq![
                        TokView::Json(manual_token(t, op, m.op.0, m.op.1)),
                    ] + r,
                ),
            }
        },
    }
}

// ---------------------------------------------------------------------------
// Tags and attributes
// ---------------------------------------------------------------------------
/// The tokens of a directive argument `[start, end)`: `[expr]`, or names
/// split at the first `.`.
pub open spec fn dyn_arg_tokens(s: Seq<u8>, start: int, end: int, kind: SourceKind) -> Option<Seq<TokView>> {
    if start < end && s[start] == 0x5b && s[end - 1] == 0x5d {
        match expr_tokens(s, start + 1, end - 1, kind) {
            None => None,
            Some(e) => Some(
                seq![vtok(VTokenKind::Punctuator, start, start + 1, seq!['['])] + e + seq![
                    vtok(VTokenKind::Punctuator, end - 1, end, seq![']']),
                ],
            ),
        }
    } else if start < end {
        match find_in(s, start, end, 0x2e) {
            Some(d) => Some(
                seq![
                    vtok(VTokenKind::HTMLIdentifier, start, d, dec(s, start, d)),
                    vtok(VTokenKind::Punctuator, d, d + 1, seq!['.']),
                    vtok(VTokenKind::HTMLIdentifier, d + 1, end, dec(s, d + 1, end)),
                ],
            ),
            None => Some(seq![vtok(VTokenKind::HTMLIdentifier, start, end, dec(s, start, end))]),
        }
    } else {
        Some(seq![])
    }
}

/// The tokens of the attribute name `[start, end)`.
pub open spec fn attr_name_tokens(s: Seq<u8>, start: int, end: int, kind: SourceKind) -> Option<Seq<TokView>> {
    let first = s[start];
    if (first == 0x3a || first == 0x40 || first == 0x23) && end - start > 1 {
        match dyn_arg_tokens(s, start + 1, end, kind) {
            None => None,
            Some(d) => Some(seq![vtok(VTokenKind::Punctuator, start, start + 1, dec(s, start, start + 1))] + d),
        }
    } else if find_in(s, start, end, 0x3a) is Some && s[end - 1] != 0x3a {
        let c = find_in(s, start, end, 0x3a)->0;
        match dyn_arg_tokens(s, c + 1, end, kind) {
            None => None,
            Some(d) => Some(
                seq![
                    vtok(VTokenKind::HTMLIdentifier, start, c, dec(s, start, c)),
                    vtok(VTokenKind::Punctuator, c, c + 1, seq![':']),
                ] + d,
            ),
        }
    } else if find_in(s, start, end, 0x2e) is Some {
        let d = find_in(s, start, end, 0x2e)->0;
        Some(
            seq![
                vtok(VTokenKind::HTMLIdentifier, start, d, dec(s, start, d)),
                vtok(VTokenKind::Punctuator, d, d + 1, seq!['.']),
                vtok(VTokenKind::HTMLIdentifier, d + 1, end, dec(s, d + 1, end)),
            ],
        )
    } else {
        Some(seq![vtok(VTokenKind::HTMLIdentifier, start, end, dec(s, start, end))])
    }
}

/// The tokens of an attribute value `[vs, ve)` whose token runs
/// `[ts, te)`, for the attribute named `[ns, ne)`.
pub open spec fn attr_value_tokens(s: Seq<u8>, ns: int, ne: int, vs: int, ve: int, ts: int, te: int, kind: SourceKind) -> Option<Seq<TokView>> {
    let k = value_kind_of_name(s.subrange(ns, ne));
    if k == AttrValueKind::Literal {
        Some(seq![vtok(VTokenKind::HTMLLiteral, ts, te, dec(s, vs, ve))])
    } else {
        let open = if ts < vs {
            seq![vtok(VTokenKind::Punctuator, ts, vs, dec(s, ts, vs))]
        } else {
            seq![]
        };
        let close = if ve < te {
            seq![vtok(VTokenKind::Punctuator, ve, te, dec(s, ve, te))]
        } else {
            seq![]
        };
        let body = match k {
            AttrValueKind::Expression => expr_tokens(s, vs, ve, kind),
            AttrValueKind::Handler => Some(handler_tokens(s, vs, ve, kind)),
            AttrValueKind::SlotParams => Some(slot_params_tokens(s, vs, ve, kind)),
            _ => vfor_tokens(s, vs, ve, kind),
        };
        match body {
            None => None,
            Some(b) => Some(open + b + close),
        }
    }
}

pub open spec fn is_attr_name_stop(b: u8) -> bool {
    is_ws(b) || b == 0x3d || b == 0x2f || b == 0x3e
}

/// End of an attribute name from `p`, before `end`.
pub open spec fn attr_name_to(s: Seq<u8>, p: int, end: int) -> int
    decreases end - p,
{
    if p < end && 0 <= p < s.len() && !is_attr_name_stop(s[p]) {
        attr_name_to(s, p + 1, end)
    } else {
        p
    }
}

/// End of an unquoted value from `p`, before `end`.
pub open spec fn bare_to(s: Seq<u8>, p: int, end: int) -> int
    decreases end - p,
{
    if p < end && 0 <= p < s.len() && !is_ws(s[p]) {
        bare_to(s, p + 1, end)
    } else {
        p
    }
}

pub proof fn lemma_attr_name_to(s: Seq<u8>, p: int, end: int)
    requires
        0 <= p <= end <= s.len(),
    ensures
        p <= attr_name_to(s, p, end) <= end,
        forall|k: int| p <= k < attr_name_to(s, p, end) ==> !is_attr_name_stop(#[trigger] s[k]),
        attr_name_to(s, p, end) < end ==> is_attr_name_stop(s[attr_name_to(s, p, end)]),
    decreases end - p,
{
    if p < end && !is_attr_name_stop(s[p]) {
        lemma_attr_name_to(s, p + 1, end);
    }
}

pub proof fn lemma_bare_to(s: Seq<u8>, p: int, end: int)
    requires
        0 <= p <= end <= s.len(),
    ensures
        p <= bare_to(s, p, end) <= end,
        forall|k: int| p <= k < bare_to(s, p, end) ==> !is_ws(#[trigger] s[k]),
        bare_to(s, p, end) < end ==> is_ws(s[bare_to(s, p, end)]),
    decreases end - p,
{
    if p < end && !is_ws(s[p]) {
        lemma_bare_to(s, p + 1, end);
    }
}

/// One attribute of a start tag from `pos` (before its `>` at `te`): its
/// tokens, where the scan goes on, and whether the attribute list ends
/// there. `None` where the scan cannot go on.
#[verifier::opaque]
pub open spec fn attr_step(s: Seq<u8>, pos: int, te: int, kind: SourceKind) -> Option<(Seq<TokView>, int, bool)> {
    let p = ws_to(s, pos, te);
    if p >= te || s[p] == 0x2f {
        Some((seq![], p, true))
    } else {
        let ne = attr_name_to(s, p, te);
        if ne == p {
            Some((seq![], p + 1, false))
        } else {
            match attr_name_tokens(s, p, ne, kind) {
                None => None,
                Some(nt) => {
                    let p2 = ws_to(s, ne, te);
                    if p2 >= te || s[p2] != 0x3d {
                        Some((nt, p2, false))
                    } else {
                        let at = seq![vtok(VTokenKind::HTMLAssociation, p2, p2 + 1, seq![])];
                        let p3 = ws_to(s, p2 + 1, te);
                        if p3 >= te {
                            Some((nt + at, p3, true))
                        } else if s[p3] == 0x27 || s[p3] == 0x22 {
                            let vs = p3 + 1;
                            let ve = match find_in(s, vs, te, s[p3]) {
                                Some(k) => k,
                                None => te,
                            };
                            match attr_value_tokens(s, p, ne, vs, ve, p3, ve + 1, kind) {
                                None => None,
                                Some(vt) => Some((nt + at + vt, ve + 1, false)),
                            }
                        } else {
                            let ve = bare_to(s, p3, te);
                            match attr_value_tokens(s, p, ne, p3, ve, p3, ve, kind) {
                                None => None,
                                Some(vt) => Some((nt + at + vt, ve, false)),
                            }
                        }
                    }
                },
            }
        }
    }
}

pub proof fn lemma_attr_step(s: Seq<u8>, pos: int, te: int, kind: SourceKind)
    requires
        0 <= pos < te <= s.len(),
    ensures
        attr_step(s, pos, te, kind) matches Some((_, q, stop)) ==> (stop || pos < q),
{
    reveal(attr_step);
    crate::tokens::lemma_ws_to(s, pos, te);
    let p = ws_to(s, pos, te);
    if p < te {
        lemma_attr_name_to(s, p, te);
        let ne = attr_name_to(s, p, te);
        crate::tokens::lemma_ws_to(s, ne, te);
        let p2 = ws_to(s, ne, te);
        if p2 < te {
            crate::tokens::lemma_ws_to(s, p2 + 1, te);
            let p3 = ws_to(s, p2 + 1, te);
            if p3 < te {
                crate::tokens::lemma_find_in(s, p3 + 1, te, s[p3]);
                lemma_bare_to(s, p3, te);
            }
        }
    }
}

/// The tokens of the attributes of a start tag from `pos`, up to its `>`
/// at `te`.
pub open spec fn attrs_tokens(s: Seq<u8>, pos: int, te: int, kind: SourceKind) -> Option<Seq<TokView>>
    decreases rem(pos, te),
{
    if pos >= te || pos < 0 || te > s.len() {
        Some(seq![])
    } else {
        match attr_step(s, pos, te, kind) {
            None => None,
            Some((t, q, stop)) => if stop {
                Some(t)
            } else {
                proof {
                    lemma_attr_step(s, pos, te, kind);
                }
                match attrs_tokens(s, q, te, kind) {
                    None => None,
                    Some(r) => Some(t + r),
                }
            },
        }
    }
}

/// The ASCII lower-cased text of `[a, b)`.
pub open spec fn lowered(s: Seq<u8>, a: int, b: int) -> Seq<char> {
    dec(s, a, b).map_values(|c: char| lower_char(c))
}

/// The tokens of a tag: its open token with the lower-cased name, its
/// attributes (start tags only), and its close token.
pub open spec fn tag_tokens(s: Seq<u8>, t: TagModel, kind: SourceKind) -> Option<Seq<TokView>> {
    let name = lowered(s, t.name_start, t.name_end);
    let open = if t.is_end {
        vtok(VTokenKind::HTMLEndTagOpen, t.name_start - 2, t.name_end, name)
    } else {
        vtok(VTokenKind::HTMLTagOpen, t.name_start - 1, t.name_end, name)
    };
    let cs = if t.self_closing {
        trim_to(s, t.name_end, t.tag_end) - 1
    } else {
        t.tag_end
    };
    let close = vtok(
        if t.self_closing {
            VTokenKind::HTMLSelfClosingTagClose
        } else {
            VTokenKind::HTMLTagClose
        },
        cs,
        t.tag_end + 1,
        seq![],
    );
    if t.is_end {
        Some(seq![open, close])
    } else {
        match attrs_tokens(s, t.name_end, t.tag_end, kind) {
            None => None,
            Some(a) => Some(seq![open] + a + seq![close]),
        }
    }
}

// ---------------------------------------------------------------------------
// Text with interpolations
// ---------------------------------------------------------------------------
pub open spec fn open_braces() -> Seq<u8> {
    seq![0x7bu8, 0x7bu8]
}

pub open spec fn close_braces() -> Seq<u8> {
    seq![0x7du8, 0x7du8]
}

/// One step of text with interpolations at `pos`: an interpolation, or
/// the text up to the next `{{`; its tokens and where the text goes on.
/// `None` where the search for the next `{{` would start inside a
/// character, or an expression cut runs backwards.
#[verifier::opaque]
pub open spec fn data_step(s: Seq<u8>, pos: int, end: int, kind: SourceKind) -> Option<(Seq<TokView>, int)> {
    if occurs_at(s, open_braces(), pos) && first_occ_from(s, close_braces(), pos + 2) is Some {
        let c = first_occ_from(s, close_braces(), pos + 2)->0;
        match expr_tokens(s, pos + 2, c, kind) {
            None => None,
            Some(e) => Some(
                (
                    seq![vtok(VTokenKind::VExpressionStart, pos, pos + 2, seq!['{', '{'])] + e + seq![
                        vtok(VTokenKind::VExpressionEnd, c, c + 2, seq!['}', '}']),
                    ],
                    c + 2,
                ),
            ),
        }
    } else if !is_char_boundary(s, pos + 1) {
        None
    } else {
        let ne = match first_occ_from(s, open_braces(), pos + 1) {
            Some(k) => if k < end {
                k
            } else {
                end
            },
            None => end,
        };
        Some((chunks(s, pos, ne, VTokenKind::HTMLText), ne))
    }
}

pub proof fn lemma_data_step(s: Seq<u8>, pos: int, end: int, kind: SourceKind)
    requires
        0 <= pos < end <= s.len(),
    ensures
        data_step(s, pos, end, kind) matches Some((_, q)) ==> pos < q <= s.len(),
{
    reveal(data_step);
    crate::json::lemma_first_occ_pub(s, close_braces(), pos + 2);
    crate::json::lemma_first_occ_pub(s, open_braces(), pos + 1);
}

/// The tokens of text `[pos, end)` with `{{ }}` interpolations; `None`
/// where the scan cannot go on.
pub open spec fn data_tokens(s: Seq<u8>, pos: int, end: int, kind: SourceKind) -> Option<Seq<TokView>>
    decreases rem(pos, end),
{
    if pos >= end || pos < 0 || end > s.len() {
        Some(seq![])
    } else {
        match data_step(s, pos, end, kind) {
            None => None,
            Some((t, q)) => {
                proof {
                    lemma_data_step(s, pos, end, kind);
                }
                match data_tokens(s, q, end, kind) {
                    None => None,
                    Some(r) => Some(t + r),
                }
            },
        }
    }
}

// ---------------------------------------------------------------------------
// The whole scan
// ---------------------------------------------------------------------------
/// What the scan has produced so far, and its state.
pub struct ScanState {
    pub tt: Seq<TokView>,
    pub sc: Seq<TokView>,
    pub cm: Seq<(CommentKind, int, int, Seq<u8>)>,
    pub kind: SourceKind,
    pub seen_script: bool,
    pub seen_setup: bool,
    pub stack: Seq<Seq<char>>,
}

pub open spec fn bytes_of(c: Seq<char>) -> Seq<u8> {
    encode_utf8(c)
}

/// Where a construct that ends with `close` (searched from `from`) ends,
/// and where its text ends: past `close`, or both at the end of the
/// source when it never comes.
pub open spec fn closed_at(s: Seq<u8>, from: int, close: Seq<u8>) -> (int, int) {
    match first_occ_from(s, close, from) {
        Some(e) => (e + close.len(), e),
        None => (s.len() as int, s.len() as int),
    }
}

/// The last index at or below `i` where `n` occurs in `h` entirely.
pub open spec fn rfind_in(h: Seq<u8>, n: Seq<u8>) -> Option<int> {
    last_occ_to(h, n, h.len() as int)
}

pub proof fn lemma_last_occ(h: Seq<u8>, n: Seq<u8>, i: int)
    ensures
        last_occ_to(h, n, i) matches Some(k) ==> 0 <= k <= i && occurs_at(h, n, k),
    decreases i + 1,
{
    if i >= 0 && !occurs_at(h, n, i) {
        lemma_last_occ(h, n, i - 1);
    }
}

pub open spec fn script_open() -> Seq<u8> {
    seq![0x3cu8, 0x73u8, 0x63u8, 0x72u8, 0x69u8, 0x70u8, 0x74u8]
}

pub open spec fn setup_word() -> Seq<u8> {
    seq![0x73u8, 0x65u8, 0x74u8, 0x75u8, 0x70u8]
}

/// The source type that a `<script>` start tag `[a, b)` selects: the
/// extension in its `lang` attribute, read as a module, or JavaScript as
/// a module.
pub open spec fn script_kind(s: Seq<u8>, a: int, b: int) -> SourceKind {
    let attrs = dec(s, a, b);
    match attr_value_range(attrs, seq!['l', 'a', 'n', 'g']) {
        Some((x, y)) => match kind_of_extension(attrs.subrange(x, y)) {
            Some(k) => SourceKind { module_kind: crate::ast::ModuleKind::Module, ..k },
            None => mjs_kind(),
        },
        None => mjs_kind(),
    }
}

/// The script tokens of the body `[bs, be)` of a `<script>` element: the
/// first plain and the first setup script are tokenised (an empty setup
/// script counts as seen), with the start and end tags as punctuators;
/// the `lang` of the start tag sets the source type.
pub open spec fn script_step(s: Seq<u8>, bs: int, be: int, st: ScanState) -> ScanState {
    match rfind_in(s.subrange(0, bs), script_open()) {
        None => st,
        Some(os) => {
            let oe = if bs >= 1 {
                bs - 1
            } else {
                0
            };
            let is_setup = first_occ_from(s.subrange(os, oe), setup_word(), 0) is Some;
            if is_setup && (st.seen_setup || bs == be) {
                ScanState { seen_setup: true, ..st }
            } else if !is_setup && (st.seen_script || (st.seen_setup && bs == be)) {
                st
            } else {
                let kind = script_kind(s, os, oe + 1);
                let open = vtok(VTokenKind::Punctuator, os, oe + 1, seq!['<', 's', 'c', 'r', 'i', 'p', 't', '>']);
                let body = if bs < be {
                    match oxc_token_json(wrapped(s, bs, be, seq![], seq![]), kind) {
                        Some(j) => json_entry(Some(inner_json(j))),
                        None => seq![],
                    }
                } else {
                    seq![]
                };
                let ce = match first_occ_from(s, seq![0x3eu8], be) {
                    Some(e) => e + 1,
                    None => be,
                };
                let close = vtok(VTokenKind::Punctuator, be, ce, seq!['<', '/', 's', 'c', 'r', 'i', 'p', 't', '>']);
                ScanState {
                    sc: st.sc + seq![open] + body + seq![close],
                    kind,
                    seen_script: if is_setup { st.seen_script } else { true },
                    seen_setup: if is_setup { true } else { st.seen_setup },
                    ..st
                }
            }
        },
    }
}

/// The state after the body of a raw-text or RCDATA element `name` that
/// starts at `p`, and where the scan goes on: at its end tag, or at the
/// end of the source. `None` where the RCDATA text stalls.
pub open spec fn body_step(s: Seq<u8>, p: int, name: Seq<char>, st: ScanState) -> Option<(ScanState, int)> {
    let nb = bytes_of(name);
    let close = seq![0x3cu8, 0x2fu8] + nb;
    let c = find_ci(s, p, close);
    let stop = match c {
        Some(k) => k,
        None => s.len() as int,
    };
    if is_raw_text_name(nb) {
        let st1 = ScanState { tt: st.tt + chunks(s, p, stop, VTokenKind::HTMLRawText), ..st };
        let st2 = if c is Some && nb == "script".spec_bytes() {
            script_step(s, p, stop, st1)
        } else {
            st1
        };
        Some((st2, stop))
    } else if is_rcdata_name(nb) {
        match rcdata_chunks(s, p, stop) {
            None => None,
            Some(t) => Some((ScanState { tt: st.tt + t, ..st }, stop)),
        }
    } else {
        Some((st, p))
    }
}

pub open spec fn comment_open() -> Seq<u8> {
    seq![0x3cu8, 0x21u8, 0x2du8, 0x2du8]
}

pub open spec fn cdata_open() -> Seq<u8> {
    seq![0x3cu8, 0x21u8, 0x5bu8, 0x43u8, 0x44u8, 0x41u8, 0x54u8, 0x41u8, 0x5bu8]
}

/// One step of the scan at `pos` (inside the source): the state after it
/// and where the scan goes on; `None` where it cannot go on (a stalled
/// RCDATA text, a `<` as the last byte, a search that would start inside
/// a character, an expression cut that runs backwards).
pub open spec fn scan_step(s: Seq<u8>, pos: int, st: ScanState) -> Option<(ScanState, int)> {
    let len = s.len() as int;
    if occurs_at(s, comment_open(), pos) {
        let (end, ve) = closed_at(s, pos + 4, seq![0x2du8, 0x2du8, 0x3eu8]);
        Some(
            (
                ScanState {
                    cm: st.cm.push((CommentKind::HTMLComment, pos, end, s.subrange(pos + 4, ve))),
                    ..st
                },
                end,
            ),
        )
    } else if occurs_at(s, cdata_open(), pos) && exists|i: int|
        0 <= i < st.stack.len() && is_foreign_name(#[trigger] st.stack[i]) {
        let (end, ve) = closed_at(s, pos + 9, seq![0x5du8, 0x5du8, 0x3eu8]);
        Some(
            (
                ScanState {
                    tt: st.tt.push(vtok(VTokenKind::HTMLCDataText, pos, end, dec(s, pos + 9, ve))),
                    ..st
                },
                end,
            ),
        )
    } else if occurs_at(s, seq![0x3cu8, 0x21u8], pos) {
        let (end, ve) = closed_at(s, pos + 2, seq![0x3eu8]);
        Some(
            (
                ScanState {
                    cm: st.cm.push(
                        (CommentKind::HTMLBogusComment, pos, end, s.subrange(pos + 2, ve)),
                    ),
                    ..st
                },
                end,
            ),
        )
    } else if s[pos] == 0x3c && pos + 1 >= len {
        None
    } else if s[pos] == 0x3c && tag_at(s, pos) is Some {
        tag_branch(s, pos, st)
    } else {
        text_branch(s, pos, st)
    }
}

/// A tag at `pos`: its tokens, then the element stack and, for a raw-text
/// or RCDATA element, its body.
#[verifier::opaque]
pub open spec fn tag_branch(s: Seq<u8>, pos: int, st: ScanState) -> Option<(ScanState, int)> {
    let t = tag_at(s, pos)->0;
    match tag_tokens(s, t, st.kind) {
        None => None,
        Some(toks) => {
            let name = lowered(s, t.name_start, t.name_end);
            let p1 = t.tag_end + 1;
            let st1 = ScanState { tt: st.tt + toks, ..st };
            if t.is_end {
                Some((ScanState { stack: popped(st.stack, name), ..st1 }, p1))
            } else if t.self_closing {
                Some((st1, p1))
            } else {
                match body_step(s, p1, name, st1) {
                    None => None,
                    Some((st2, p2)) => Some((ScanState { stack: st2.stack.push(name), ..st2 }, p2)),
                }
            }
        },
    }
}

/// Text from `pos` up to the next `<`; `None` where the search for it
/// would start inside a character.
#[verifier::opaque]
pub open spec fn text_branch(s: Seq<u8>, pos: int, st: ScanState) -> Option<(ScanState, int)> {
    if !is_char_boundary(s, pos + 1) {
        None
    } else {
        let next = match first_occ_from(s, seq![0x3cu8], pos + 1) {
            Some(k) => k,
            None => s.len() as int,
        };
        match data_tokens(s, pos, next, st.kind) {
            None => None,
            Some(toks) => Some((ScanState { tt: st.tt + toks, ..st }, next)),
        }
    }
}

pub proof fn lemma_scan_step(s: Seq<u8>, pos: int, st: ScanState)
    requires
        0 <= pos < s.len(),
    ensures
        scan_step(s, pos, st) matches Some((_, q)) ==> pos < q <= s.len(),
{
    reveal(tag_branch);
    reveal(text_branch);
    crate::json::lemma_first_occ_pub(s, seq![0x2du8, 0x2du8, 0x3eu8], pos + 4);
    crate::json::lemma_first_occ_pub(s, seq![0x5du8, 0x5du8, 0x3eu8], pos + 9);
    crate::json::lemma_first_occ_pub(s, seq![0x3eu8], pos + 2);
    crate::json::lemma_first_occ_pub(s, seq![0x3cu8], pos + 1);
    if pos + 1 < s.len() {
        crate::tokens::lemma_scan_name_end(
            s,
            if s[pos + 1] == 0x2f {
                pos + 2
            } else {
                pos + 1
            },
        );
        if s[pos] == 0x3c && tag_at(s, pos) is Some {
            let t = tag_at(s, pos)->0;
            crate::tokens::lemma_gt_from(s, t.name_end);
            lemma_body_step(s, t.tag_end + 1, lowered(s, t.name_start, t.name_end), ScanState { tt: st.tt, ..st });
            match tag_tokens(s, t, st.kind) {
                Some(toks) => lemma_body_step(
                    s,
                    t.tag_end + 1,
                    lowered(s, t.name_start, t.name_end),
                    ScanState { tt: st.tt + toks, ..st },
                ),
                None => {},
            }
        }
    }
}

/// The scan of the source from `pos`, in the state `st`; `None` where it
/// cannot go on.
pub open spec fn scan_from(s: Seq<u8>, pos: int, st: ScanState) -> Option<ScanState>
    decreases rem(pos, s.len() as int),
{
    if pos >= s.len() || pos < 0 {
        Some(st)
    } else {
        match scan_step(s, pos, st) {
            None => None,
            Some((st2, p2)) => {
                proof {
                    lemma_scan_step(s, pos, st);
                }
                scan_from(s, p2, st2)
            },
        }
    }
}

pub proof fn lemma_ci_from_ge(s: Seq<u8>, n: Seq<u8>, i: int, last: int)
    requires
        0 <= i,
    ensures
        crate::tokens::ci_from(s, n, i, last) matches Some(k) ==> i <= k,
    decreases last + 1 - i,
{
    if i <= last && !seq_eq_ignore_case(s.subrange(i, i + n.len()), n) {
        lemma_ci_from_ge(s, n, i + 1, last);
    }
}

pub proof fn lemma_body_step(s: Seq<u8>, p: int, name: Seq<char>, st: ScanState)
    requires
        0 <= p <= s.len(),
    ensures
        body_step(s, p, name, st) matches Some((_, q)) ==> p <= q,
        body_step(s, p, name, st) matches Some((_, q)) ==> q <= s.len() || q == p,
{
    let nb = bytes_of(name);
    let close = seq![0x3cu8, 0x2fu8] + nb;
    if close.len() != 0 && p + close.len() <= s.len() {
        lemma_ci_from_ge(s, close, p, s.len() - close.len());
        lemma_ci_le(s, close, p, s.len() - close.len());
    }
}

pub proof fn lemma_ci_le(s: Seq<u8>, n: Seq<u8>, i: int, last: int)
    requires
        0 <= i,
    ensures
        crate::tokens::ci_from(s, n, i, last) matches Some(k) ==> k <= last && seq_eq_ignore_case(
            s.subrange(k, k + n.len()),
            n,
        ),
    decreases last + 1 - i,
{
    if i <= last && !seq_eq_ignore_case(s.subrange(i, i + n.len()), n) {
        lemma_ci_le(s, n, i + 1, last);
    }
}

/// Law: a source that is only text (no `<` anywhere, no `{{`, its first
/// byte ASCII) scans to text and whitespace tokens alone, the maximal runs
/// of `chunks`, which tile the source in order, each holding its own text;
/// no comment, script token or open element comes of it.
pub proof fn text_only_source_scans_to_runs(text: &str)
    requires
        text.spec_bytes().len() > 0,
        text.spec_bytes()[0] < 0x80,
        forall|i: int| 0 <= i < text.spec_bytes().len() ==> #[trigger] text.spec_bytes()[i] != 0x3c,
        forall|i: int|
            0 <= i < text.spec_bytes().len() - 1 ==> !(#[trigger] text.spec_bytes()[i] == 0x7b
                && text.spec_bytes()[i + 1] == 0x7b),
    ensures
        scan_from(text.spec_bytes(), 0, start_state()) == Some(
            ScanState {
                tt: chunks(text.spec_bytes(), 0, text.spec_bytes().len() as int, VTokenKind::HTMLText),
                ..start_state()
            },
        ),
        runs_tile(
            text.spec_bytes(),
            chunks(text.spec_bytes(), 0, text.spec_bytes().len() as int, VTokenKind::HTMLText),
            0,
            text.spec_bytes().len() as int,
            VTokenKind::HTMLText,
        ),
{
    let s = text.spec_bytes();
    let len = s.len() as int;
    let st = start_state();
    assert(valid_utf8(s));
    lemma_ascii_char_boundary(s, 0);
    assert(s.subrange(0, 1)[0] == s[0]);
    assert(!occurs_at(s, comment_open(), 0)) by {
        if 4 <= len {
            assert(s.subrange(0, 4)[0] == s[0]);
        }
    }
    assert(!occurs_at(s, cdata_open(), 0)) by {
        if 9 <= len {
            assert(s.subrange(0, 9)[0] == s[0]);
        }
    }
    assert(!occurs_at(s, seq![0x3cu8, 0x21u8], 0)) by {
        if 2 <= len {
            assert(s.subrange(0, 2)[0] == s[0]);
        }
    }
    assert(!occurs_at(s, open_braces(), 0)) by {
        if 2 <= len {
            assert(s.subrange(0, 2)[0] == s[0] && s.subrange(0, 2)[1] == s[1]);
        }
    }
    crate::json::lemma_first_occ_pub(s, seq![0x3cu8], 1);
    if let Some(k) = first_occ_from(s, seq![0x3cu8], 1) {
        assert(s.subrange(k, k + 1)[0] == s[k]);
    }
    crate::json::lemma_first_occ_pub(s, open_braces(), 1);
    if let Some(k) = first_occ_from(s, open_braces(), 1) {
        assert(s.subrange(k, k + 2)[0] == s[k] && s.subrange(k, k + 2)[1] == s[k + 1]);
    }
    reveal(text_branch);
    reveal(data_step);
    let toks = chunks(s, 0, len, VTokenKind::HTMLText);
    assert(data_step(s, 0, len, st.kind) == Some((toks, len)));
    assert(data_tokens(s, len, len, st.kind) == Some(Seq::<TokView>::empty()));
    assert(data_tokens(s, 0, len, st.kind) == Some(toks + Seq::<TokView>::empty()));
    assert(toks + Seq::<TokView>::empty() == toks);
    assert(text_branch(s, 0, st) == Some((ScanState { tt: st.tt + toks, ..st }, len)));
    assert(st.tt + toks == toks);
    assert(scan_step(s, 0, st) == Some((ScanState { tt: toks, ..st }, len)));
    assert(scan_from(s, len, ScanState { tt: toks, ..st }) == Some(ScanState { tt: toks, ..st }));
    chunks_tile_text(s, 0, len, VTokenKind::HTMLText);
}

/// The state the scan starts from: no tokens, JavaScript as a module.
pub open spec fn start_state() -> ScanState {
    ScanState {
        tt: seq![],
        sc: seq![],
        cm: seq![],
        kind: mjs_kind(),
        seen_script: false,
        seen_setup: false,
        stack: seq![],
    }
}

} // verus!
