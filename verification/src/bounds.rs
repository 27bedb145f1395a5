//! Where the tokens and comments of a scan point: every span that the scan
//! records lies inside the source.
use vstd::prelude::*;
use vstd::string::StringSliceAdditionalSpecFns;

use crate::json::first_occ_from;
use crate::oxc::occurs_at;
use crate::scan::{
    rem,     attr_name_to, attr_step, attr_value_tokens, attrs_tokens, bare_to, body_step, chunks, closed_at, data_step,
    data_tokens, dyn_arg_tokens, attr_name_tokens, expr_tokens, handler_tokens, json_entry, lemma_alnum_to,
    lemma_attr_name_to, lemma_attr_step, lemma_bare_to, lemma_data_step, lemma_last_occ, lemma_rc_run_end,
    lemma_run_end, lemma_scan_step, rc_run_end, rcdata_chunks, rfind_in, run_end, scan_from, scan_step,
    script_open, script_step, slot_params_tokens, start_state, tag_branch, tag_tokens, text_branch, vfor_tokens,
    vtok, ScanState,
};
use crate::tokens::{char_ref, find_ci, find_in, tag_at, trim_to, ws_to, CommentKind, TokView};

verus! {

/// A positioned token lies in `[lo, hi]`; a run of tokenizer JSON has no
/// position of its own.
pub open spec fn tok_within(t: TokView, lo: int, hi: int) -> bool {
    match t {
        TokView::Tok(_, a, b, _) => lo <= a <= b <= hi,
        TokView::Json(_) => true,
    }
}

/// Every positioned token of `v` lies in `[lo, hi]`.
pub open spec fn toks_within(v: Seq<TokView>, lo: int, hi: int) -> bool {
    forall|i: int| 0 <= i < v.len() ==> tok_within(#[trigger] v[i], lo, hi)
}

/// Every comment of `cm` lies in `[0, len]`.
pub open spec fn comments_within(cm: Seq<(CommentKind, int, int, Seq<u8>)>, len: int) -> bool {
    forall|i: int| 0 <= i < cm.len() ==> 0 <= (#[trigger] cm[i]).1 <= cm[i].2 <= len
}

/// The spans of a scan state all lie in a source of `len` bytes.
pub open spec fn state_within(st: ScanState, len: int) -> bool {
    &&& toks_within(st.tt, 0, len)
    &&& toks_within(st.sc, 0, len)
    &&& comments_within(st.cm, len)
}

/// `v` holds only tokenizer JSON.
pub open spec fn all_json(v: Seq<TokView>) -> bool {
    forall|i: int| 0 <= i < v.len() ==> (#[trigger] v[i]) is Json
}

proof fn lemma_within_add(a: Seq<TokView>, b: Seq<TokView>, lo: int, hi: int)
    requires
        toks_within(a, lo, hi),
        toks_within(b, lo, hi),
    ensures
        toks_within(a + b, lo, hi),
{
    assert forall|i: int| 0 <= i < (a + b).len() implies tok_within(#[trigger] (a + b)[i], lo, hi) by {
        if i >= a.len() {
            assert((a + b)[i] == b[i - a.len()]);
        }
    }
}

proof fn lemma_within_widen(v: Seq<TokView>, lo: int, hi: int, lo2: int, hi2: int)
    requires
        toks_within(v, lo, hi),
        lo2 <= lo,
        hi <= hi2,
    ensures
        toks_within(v, lo2, hi2),
{
    assert forall|i: int| 0 <= i < v.len() implies tok_within(#[trigger] v[i], lo2, hi2) by {
        assert(tok_within(v[i], lo, hi));
    }
}

proof fn lemma_json_within(v: Seq<TokView>, lo: int, hi: int)
    requires
        all_json(v),
    ensures
        toks_within(v, lo, hi),
{
    assert forall|i: int| 0 <= i < v.len() implies tok_within(#[trigger] v[i], lo, hi) by {
        assert(v[i] is Json);
    }
}

proof fn lemma_json_add(a: Seq<TokView>, b: Seq<TokView>)
    requires
        all_json(a),
        all_json(b),
    ensures
        all_json(a + b),
{
    assert forall|i: int| 0 <= i < (a + b).len() implies (#[trigger] (a + b)[i]) is Json by {
        if i >= a.len() {
            assert((a + b)[i] == b[i - a.len()]);
        } else {
            assert((a + b)[i] == a[i]);
        }
    }
}

proof fn lemma_json_entry(t: Option<Seq<char>>)
    ensures
        all_json(json_entry(t)),
{
}

proof fn lemma_chunks_within(s: Seq<u8>, p: int, end: int, other: crate::tokens::VTokenKind)
    requires
        0 <= p,
        end <= s.len(),
    ensures
        toks_within(chunks(s, p, end, other), p, end),
    decreases end - p,
{
    if p < end {
        let w = crate::text::is_ws(s[p]);
        let e = run_end(s, p, end, w);
        lemma_run_end(s, p, end, w);
        lemma_chunks_within(s, e, end, other);
        lemma_within_widen(chunks(s, e, end, other), e, end, p, end);
        let head = seq![
            vtok(
                if w {
                    crate::tokens::VTokenKind::HTMLWhitespace
                } else {
                    other
                },
                p,
                e,
                crate::tokens::dec(s, p, e),
            ),
        ];
        assert(toks_within(head, p, end)) by {
            assert(tok_within(head[0], p, end));
        }
        lemma_within_add(head, chunks(s, e, end, other), p, end);
    }
}

proof fn lemma_rcdata_within(s: Seq<u8>, p: int, end: int)
    requires
        0 <= p,
        end <= s.len(),
    ensures
        rcdata_chunks(s, p, end) matches Some(t) ==> toks_within(t, p, end),
    decreases end - p,
{
    if p < end {
        if crate::text::is_ws(s[p]) {
            let e = run_end(s, p, end, true);
            lemma_run_end(s, p, end, true);
            lemma_rcdata_within(s, e, end);
            if let Some(r) = rcdata_chunks(s, e, end) {
                lemma_within_widen(r, e, end, p, end);
                let head = seq![vtok(crate::tokens::VTokenKind::HTMLWhitespace, p, e, crate::tokens::dec(s, p, e))];
                assert(tok_within(head[0], p, end));
                lemma_within_add(head, r, p, end);
            }
        } else if s[p] == 0x26 && char_ref(s, p, end) is Some {
            let (re, v) = char_ref(s, p, end)->0;
            lemma_alnum_to(s, p + 1, end);
            lemma_rcdata_within(s, re, end);
            if let Some(r) = rcdata_chunks(s, re, end) {
                lemma_within_widen(r, re, end, p, end);
                let head = seq![vtok(crate::tokens::VTokenKind::HTMLRCDataText, p, re, v)];
                assert(tok_within(head[0], p, end));
                lemma_within_add(head, r, p, end);
            }
        } else {
            let e = rc_run_end(s, p, end);
            lemma_rc_run_end(s, p, end);
            if e != p {
                lemma_rcdata_within(s, e, end);
                if let Some(r) = rcdata_chunks(s, e, end) {
                    lemma_within_widen(r, e, end, p, end);
                    let head = seq![vtok(crate::tokens::VTokenKind::HTMLRCDataText, p, e, crate::tokens::dec(s, p, e))];
                    assert(tok_within(head[0], p, end));
                    lemma_within_add(head, r, p, end);
                }
            }
        }
    }
}

proof fn lemma_expr_json(s: Seq<u8>, start: int, end: int, kind: crate::ast::SourceKind)
    ensures
        expr_tokens(s, start, end, kind) matches Some(t) ==> all_json(t),
        all_json(handler_tokens(s, start, end, kind)),
        all_json(slot_params_tokens(s, start, end, kind)),
        vfor_tokens(s, start, end, kind) matches Some(t) ==> all_json(t),
{
    match crate::tokens::vfor_from(s, start, end, start, 0, 0, 0) {
        None => {},
        Some(m) => {
            let op = crate::tokens::dec(s, m.op.0, m.op.1);
            let t = if op == seq!['i', 'n'] {
                seq!['K', 'e', 'y', 'w', 'o', 'r', 'd']
            } else {
                seq!['I', 'd', 'e', 'n', 't', 'i', 'f', 'i', 'e', 'r']
            };
            let sp = slot_params_tokens(s, m.left.0, m.left.1, kind);
            let mid = seq![TokView::Json(crate::scan::manual_token(t, op, m.op.0, m.op.1))];
            assert(all_json(mid)) by {
                assert(mid[0] is Json);
            }
            if let Some(r) = expr_tokens(s, m.right.0, m.right.1, kind) {
                lemma_json_add(sp, mid);
                lemma_json_add(sp + mid, r);
            }
        },
    }
}

proof fn lemma_dyn_arg_within(s: Seq<u8>, start: int, end: int, kind: crate::ast::SourceKind)
    requires
        0 <= start,
        end <= s.len(),
    ensures
        dyn_arg_tokens(s, start, end, kind) matches Some(t) ==> toks_within(t, start, end),
{
    lemma_expr_json(s, start + 1, end - 1, kind);
    crate::tokens::lemma_find_in(s, start, end, 0x2e);
    if start < end && s[start] == 0x5b && s[end - 1] == 0x5d {
        if let Some(e) = expr_tokens(s, start + 1, end - 1, kind) {
            let a = seq![vtok(crate::tokens::VTokenKind::Punctuator, start, start + 1, seq!['['])];
            let c = seq![vtok(crate::tokens::VTokenKind::Punctuator, end - 1, end, seq![']'])];
            assert(tok_within(a[0], start, end));
            assert(tok_within(c[0], start, end));
            lemma_json_within(e, start, end);
            lemma_within_add(a, e, start, end);
            lemma_within_add(a + e, c, start, end);
        }
    } else if start < end {
        if let Some(d) = find_in(s, start, end, 0x2e) {
            let v = dyn_arg_tokens(s, start, end, kind)->0;
            assert(tok_within(v[0], start, end));
            assert(tok_within(v[1], start, end));
            assert(tok_within(v[2], start, end));
        } else {
            let v = dyn_arg_tokens(s, start, end, kind)->0;
            assert(tok_within(v[0], start, end));
        }
    }
}

proof fn lemma_attr_name_within(s: Seq<u8>, start: int, end: int, kind: crate::ast::SourceKind)
    requires
        0 <= start < end,
        end <= s.len(),
    ensures
        attr_name_tokens(s, start, end, kind) matches Some(t) ==> toks_within(t, start, end),
{
    let first = s[start];
    crate::tokens::lemma_find_in(s, start, end, 0x3a);
    crate::tokens::lemma_find_in(s, start, end, 0x2e);
    if (first == 0x3a || first == 0x40 || first == 0x23) && end - start > 1 {
        lemma_dyn_arg_within(s, start + 1, end, kind);
        if let Some(d) = dyn_arg_tokens(s, start + 1, end, kind) {
            let a = seq![vtok(crate::tokens::VTokenKind::Punctuator, start, start + 1, crate::tokens::dec(s, start, start + 1))];
            assert(tok_within(a[0], start, end));
            lemma_within_widen(d, start + 1, end, start, end);
            lemma_within_add(a, d, start, end);
        }
    } else if find_in(s, start, end, 0x3a) is Some && s[end - 1] != 0x3a {
        let c = find_in(s, start, end, 0x3a)->0;
        lemma_dyn_arg_within(s, c + 1, end, kind);
        if let Some(d) = dyn_arg_tokens(s, c + 1, end, kind) {
            let a = seq![
                vtok(crate::tokens::VTokenKind::HTMLIdentifier, start, c, crate::tokens::dec(s, start, c)),
                vtok(crate::tokens::VTokenKind::Punctuator, c, c + 1, seq![':']),
            ];
            assert(tok_within(a[0], start, end));
            assert(tok_within(a[1], start, end));
            lemma_within_widen(d, c + 1, end, start, end);
            lemma_within_add(a, d, start, end);
        }
    } else if find_in(s, start, end, 0x2e) is Some {
        let v = attr_name_tokens(s, start, end, kind)->0;
        assert(tok_within(v[0], start, end));
        assert(tok_within(v[1], start, end));
        assert(tok_within(v[2], start, end));
    } else {
        let v = attr_name_tokens(s, start, end, kind)->0;
        assert(tok_within(v[0], start, end));
    }
}

proof fn lemma_attr_value_within(
    s: Seq<u8>,
    ns: int,
    ne: int,
    vs: int,
    ve: int,
    ts: int,
    te: int,
    kind: crate::ast::SourceKind,
)
    requires
        ts <= vs <= ve <= te,
    ensures
        attr_value_tokens(s, ns, ne, vs, ve, ts, te, kind) matches Some(t) ==> toks_within(t, ts, te),
{
    lemma_expr_json(s, vs, ve, kind);
    if let Some(t) = attr_value_tokens(s, ns, ne, vs, ve, ts, te, kind) {
        let k = crate::tokens::value_kind_of_name(s.subrange(ns, ne));
        if k == crate::tokens::AttrValueKind::Literal {
            assert(tok_within(t[0], ts, te));
        } else {
            let open = if ts < vs {
                seq![vtok(crate::tokens::VTokenKind::Punctuator, ts, vs, crate::tokens::dec(s, ts, vs))]
            } else {
                seq![]
            };
            let close = if ve < te {
                seq![vtok(crate::tokens::VTokenKind::Punctuator, ve, te, crate::tokens::dec(s, ve, te))]
            } else {
                seq![]
            };
            let body = match k {
                crate::tokens::AttrValueKind::Expression => expr_tokens(s, vs, ve, kind),
                crate::tokens::AttrValueKind::Handler => Some(handler_tokens(s, vs, ve, kind)),
                crate::tokens::AttrValueKind::SlotParams => Some(slot_params_tokens(s, vs, ve, kind)),
                _ => vfor_tokens(s, vs, ve, kind),
            };
            let b = body->0;
            assert(toks_within(open, ts, te)) by {
                if ts < vs {
                    assert(tok_within(open[0], ts, te));
                }
            }
            assert(toks_within(close, ts, te)) by {
                if ve < te {
                    assert(tok_within(close[0], ts, te));
                }
            }
            lemma_json_within(b, ts, te);
            lemma_within_add(open, b, ts, te);
            lemma_within_add(open + b, close, ts, te);
        }
    }
}

proof fn lemma_attr_step_within(s: Seq<u8>, pos: int, te: int, kind: crate::ast::SourceKind)
    requires
        0 <= pos <= te < s.len(),
    ensures
        attr_step(s, pos, te, kind) matches Some((t, q, _)) ==> pos <= q && toks_within(t, pos, te + 1),
{
    reveal(attr_step);
    crate::tokens::lemma_ws_to(s, pos, te);
    let p = ws_to(s, pos, te);
    if p < te && s[p] != 0x2f {
        lemma_attr_name_to(s, p, te);
        let ne = attr_name_to(s, p, te);
        if ne != p {
            lemma_attr_name_within(s, p, ne, kind);
            if let Some(nt) = attr_name_tokens(s, p, ne, kind) {
                lemma_within_widen(nt, p, ne, pos, te + 1);
                crate::tokens::lemma_ws_to(s, ne, te);
                let p2 = ws_to(s, ne, te);
                if p2 < te && s[p2] == 0x3d {
                    let at = seq![vtok(crate::tokens::VTokenKind::HTMLAssociation, p2, p2 + 1, seq![])];
                    assert(tok_within(at[0], pos, te + 1));
                    lemma_within_add(nt, at, pos, te + 1);
                    crate::tokens::lemma_ws_to(s, p2 + 1, te);
                    let p3 = ws_to(s, p2 + 1, te);
                    if p3 < te {
                        if s[p3] == 0x27 || s[p3] == 0x22 {
                            let vs = p3 + 1;
                            crate::tokens::lemma_find_in(s, vs, te, s[p3]);
                            let ve = match find_in(s, vs, te, s[p3]) {
                                Some(k) => k,
                                None => te,
                            };
                            lemma_attr_value_within(s, p, ne, vs, ve, p3, ve + 1, kind);
                            if let Some(vt) = attr_value_tokens(s, p, ne, vs, ve, p3, ve + 1, kind) {
                                lemma_within_widen(vt, p3, ve + 1, pos, te + 1);
                                lemma_within_add(nt + at, vt, pos, te + 1);
                            }
                        } else {
                            lemma_bare_to(s, p3, te);
                            let ve = bare_to(s, p3, te);
                            lemma_attr_value_within(s, p, ne, p3, ve, p3, ve, kind);
                            if let Some(vt) = attr_value_tokens(s, p, ne, p3, ve, p3, ve, kind) {
                                lemma_within_widen(vt, p3, ve, pos, te + 1);
                                lemma_within_add(nt + at, vt, pos, te + 1);
                            }
                        }
                    }
                }
            }
        }
    }
}

proof fn lemma_attrs_within(s: Seq<u8>, pos: int, te: int, kind: crate::ast::SourceKind)
    requires
        0 <= pos,
        te < s.len(),
    ensures
        attrs_tokens(s, pos, te, kind) matches Some(t) ==> toks_within(t, pos, te + 1),
    decreases rem(pos, te),
{
    if pos < te {
        lemma_attr_step_within(s, pos, te, kind);
        lemma_attr_step(s, pos, te, kind);
        if let Some((t, q, stop)) = attr_step(s, pos, te, kind) {
            if !stop {
                lemma_attrs_within(s, q, te, kind);
                if let Some(r) = attrs_tokens(s, q, te, kind) {
                    lemma_within_widen(r, q, te + 1, pos, te + 1);
                    lemma_within_add(t, r, pos, te + 1);
                }
            }
        }
    }
}

/// The tag at `pos` ends inside the source, after `pos`, and its tokens
/// lie between its `<` and just past its `>`.
proof fn lemma_tag_within(s: Seq<u8>, pos: int, kind: crate::ast::SourceKind)
    requires
        0 <= pos,
        pos + 1 < s.len(),
        tag_at(s, pos) is Some,
    ensures
        pos < tag_at(s, pos)->0.tag_end < s.len(),
        tag_tokens(s, tag_at(s, pos)->0, kind) matches Some(v) ==> toks_within(v, pos, tag_at(s, pos)->0.tag_end + 1),
{
    let t = tag_at(s, pos)->0;
    let ns = if s[pos + 1] == 0x2f {
        pos + 2
    } else {
        pos + 1
    };
    crate::tokens::lemma_scan_name_end(s, ns);
    crate::tokens::lemma_gt_from(s, t.name_end);
    crate::tokens::lemma_trim_to(s, t.name_end, t.tag_end);
    let hi = t.tag_end + 1;
    if let Some(v) = tag_tokens(s, t, kind) {
        let name = crate::scan::lowered(s, t.name_start, t.name_end);
        let open = if t.is_end {
            vtok(crate::tokens::VTokenKind::HTMLEndTagOpen, t.name_start - 2, t.name_end, name)
        } else {
            vtok(crate::tokens::VTokenKind::HTMLTagOpen, t.name_start - 1, t.name_end, name)
        };
        let cs = if t.self_closing {
            trim_to(s, t.name_end, t.tag_end) - 1
        } else {
            t.tag_end
        };
        let close = vtok(
            if t.self_closing {
                crate::tokens::VTokenKind::HTMLSelfClosingTagClose
            } else {
                crate::tokens::VTokenKind::HTMLTagClose
            },
            cs,
            t.tag_end + 1,
            seq![],
        );
        assert(tok_within(open, pos, hi));
        assert(tok_within(close, pos, hi));
        if t.is_end {
            assert(v == seq![open, close]);
            assert(toks_within(v, pos, hi)) by {
                assert(tok_within(v[0], pos, hi));
                assert(tok_within(v[1], pos, hi));
            }
        } else {
            lemma_attrs_within(s, t.name_end, t.tag_end, kind);
            let a = attrs_tokens(s, t.name_end, t.tag_end, kind)->0;
            lemma_within_widen(a, t.name_end, hi, pos, hi);
            assert(toks_within(seq![open], pos, hi)) by {
                assert(tok_within(seq![open][0], pos, hi));
            }
            assert(toks_within(seq![close], pos, hi)) by {
                assert(tok_within(seq![close][0], pos, hi));
            }
            lemma_within_add(seq![open], a, pos, hi);
            lemma_within_add(seq![open] + a, seq![close], pos, hi);
        }
    }
}

proof fn lemma_data_step_within(s: Seq<u8>, pos: int, end: int, kind: crate::ast::SourceKind)
    requires
        0 <= pos < end <= s.len(),
    ensures
        data_step(s, pos, end, kind) matches Some((t, _)) ==> toks_within(t, pos, s.len() as int),
{
    reveal(data_step);
    let len = s.len() as int;
    crate::json::lemma_first_occ_pub(s, crate::scan::close_braces(), pos + 2);
    crate::json::lemma_first_occ_pub(s, crate::scan::open_braces(), pos + 1);
    if let Some((t, q)) = data_step(s, pos, end, kind) {
        if occurs_at(s, crate::scan::open_braces(), pos) && first_occ_from(s, crate::scan::close_braces(), pos + 2) is Some {
            let c = first_occ_from(s, crate::scan::close_braces(), pos + 2)->0;
            lemma_expr_json(s, pos + 2, c, kind);
            let e = expr_tokens(s, pos + 2, c, kind)->0;
            let a = seq![vtok(crate::tokens::VTokenKind::VExpressionStart, pos, pos + 2, seq!['{', '{'])];
            let b = seq![vtok(crate::tokens::VTokenKind::VExpressionEnd, c, c + 2, seq!['}', '}'])];
            assert(tok_within(a[0], pos, len));
            assert(tok_within(b[0], pos, len));
            lemma_json_within(e, pos, len);
            lemma_within_add(a, e, pos, len);
            lemma_within_add(a + e, b, pos, len);
        } else {
            let ne = match first_occ_from(s, crate::scan::open_braces(), pos + 1) {
                Some(k) => if k < end {
                    k
                } else {
                    end
                },
                None => end,
            };
            lemma_chunks_within(s, pos, ne, crate::tokens::VTokenKind::HTMLText);
            lemma_within_widen(t, pos, ne, pos, len);
        }
    }
}

proof fn lemma_data_within(s: Seq<u8>, pos: int, end: int, kind: crate::ast::SourceKind)
    requires
        0 <= pos,
        end <= s.len(),
    ensures
        data_tokens(s, pos, end, kind) matches Some(t) ==> toks_within(t, pos, s.len() as int),
    decreases rem(pos, end),
{
    if pos < end {
        lemma_data_step_within(s, pos, end, kind);
        lemma_data_step(s, pos, end, kind);
        if let Some((t, q)) = data_step(s, pos, end, kind) {
            lemma_data_within(s, q, end, kind);
            if let Some(r) = data_tokens(s, q, end, kind) {
                lemma_within_widen(r, q, s.len() as int, pos, s.len() as int);
                lemma_within_add(t, r, pos, s.len() as int);
            }
        }
    }
}

proof fn lemma_script_step_within(s: Seq<u8>, bs: int, be: int, st: ScanState)
    requires
        1 <= bs <= be <= s.len(),
        state_within(st, s.len() as int),
    ensures
        state_within(script_step(s, bs, be, st), s.len() as int),
        script_step(s, bs, be, st).tt == st.tt,
        script_step(s, bs, be, st).cm == st.cm,
{
    let len = s.len() as int;
    let h = s.subrange(0, bs);
    lemma_last_occ(h, script_open(), h.len() as int);
    crate::json::lemma_first_occ_pub(s, seq![0x3eu8], be);
    match rfind_in(h, script_open()) {
        None => {},
        Some(os) => {
            let r = script_step(s, bs, be, st);
            if r.sc != st.sc {
                let oe = bs - 1;
                let kind = crate::scan::script_kind(s, os, oe + 1);
                let open = vtok(crate::tokens::VTokenKind::Punctuator, os, oe + 1, seq!['<', 's', 'c', 'r', 'i', 'p', 't', '>']);
                let body = if bs < be {
                    match crate::oxc::oxc_token_json(crate::scan::wrapped(s, bs, be, seq![], seq![]), kind) {
                        Some(j) => json_entry(Some(crate::scan::inner_json(j))),
                        None => seq![],
                    }
                } else {
                    seq![]
                };
                let ce = match first_occ_from(s, seq![0x3eu8], be) {
                    Some(e) => e + 1,
                    None => be,
                };
                let close = vtok(crate::tokens::VTokenKind::Punctuator, be, ce, seq!['<', '/', 's', 'c', 'r', 'i', 'p', 't', '>']);
                assert(r.sc == st.sc + seq![open] + body + seq![close]);
                assert(toks_within(seq![open], 0, len)) by {
                    assert(tok_within(seq![open][0], 0, len));
                }
                assert(toks_within(seq![close], 0, len)) by {
                    assert(tok_within(seq![close][0], 0, len));
                }
                assert(all_json(body)) by {
                    if bs < be {
                        match crate::oxc::oxc_token_json(crate::scan::wrapped(s, bs, be, seq![], seq![]), kind) {
                            Some(j) => lemma_json_entry(Some(crate::scan::inner_json(j))),
                            None => {},
                        }
                    }
                }
                lemma_json_within(body, 0, len);
                lemma_within_add(st.sc, seq![open], 0, len);
                lemma_within_add(st.sc + seq![open], body, 0, len);
                lemma_within_add(st.sc + seq![open] + body, seq![close], 0, len);
            }
        },
    }
}

proof fn lemma_body_step_within(s: Seq<u8>, p: int, name: Seq<char>, st: ScanState)
    requires
        1 <= p <= s.len(),
        state_within(st, s.len() as int),
    ensures
        body_step(s, p, name, st) matches Some((st2, _)) ==> state_within(st2, s.len() as int),
{
    let len = s.len() as int;
    let nb = crate::scan::bytes_of(name);
    let close = seq![0x3cu8, 0x2fu8] + nb;
    let c = find_ci(s, p, close);
    if close.len() != 0 && p + close.len() <= s.len() {
        crate::tokens::lemma_ci_from(s, close, p, s.len() - close.len());
    }
    let stop = match c {
        Some(k) => k,
        None => len,
    };
    assert(p <= stop <= len);
    if crate::tokens::is_raw_text_name(nb) {
        let ch = chunks(s, p, stop, crate::tokens::VTokenKind::HTMLRawText);
        lemma_chunks_within(s, p, stop, crate::tokens::VTokenKind::HTMLRawText);
        lemma_within_widen(ch, p, stop, 0, len);
        lemma_within_add(st.tt, ch, 0, len);
        let st1 = ScanState { tt: st.tt + ch, ..st };
        assert(state_within(st1, len));
        if c is Some && nb == "script".spec_bytes() {
            lemma_script_step_within(s, p, stop, st1);
        }
    } else if crate::tokens::is_rcdata_name(nb) {
        lemma_rcdata_within(s, p, stop);
        if let Some(t) = rcdata_chunks(s, p, stop) {
            lemma_within_widen(t, p, stop, 0, len);
            lemma_within_add(st.tt, t, 0, len);
        }
    }
}

proof fn lemma_scan_step_within(s: Seq<u8>, pos: int, st: ScanState)
    requires
        0 <= pos < s.len(),
        state_within(st, s.len() as int),
    ensures
        scan_step(s, pos, st) matches Some((st2, _)) ==> state_within(st2, s.len() as int),
{
    let len = s.len() as int;
    reveal(tag_branch);
    reveal(text_branch);
    crate::json::lemma_first_occ_pub(s, seq![0x2du8, 0x2du8, 0x3eu8], pos + 4);
    crate::json::lemma_first_occ_pub(s, seq![0x5du8, 0x5du8, 0x3eu8], pos + 9);
    crate::json::lemma_first_occ_pub(s, seq![0x3eu8], pos + 2);
    crate::json::lemma_first_occ_pub(s, seq![0x3cu8], pos + 1);
    if let Some((st2, _)) = scan_step(s, pos, st) {
        if occurs_at(s, crate::scan::comment_open(), pos) {
            let (end, ve) = closed_at(s, pos + 4, seq![0x2du8, 0x2du8, 0x3eu8]);
            assert(st2.cm == st.cm.push((CommentKind::HTMLComment, pos, end, s.subrange(pos + 4, ve))));
            assert(comments_within(st2.cm, len)) by {
                assert forall|i: int| 0 <= i < st2.cm.len() implies 0 <= (#[trigger] st2.cm[i]).1 <= st2.cm[i].2
                    <= len by {
                    if i < st.cm.len() {
                        assert(st2.cm[i] == st.cm[i]);
                    }
                }
            }
        } else if occurs_at(s, crate::scan::cdata_open(), pos) && exists|i: int|
            0 <= i < st.stack.len() && crate::tokens::is_foreign_name(#[trigger] st.stack[i]) {
            let (end, ve) = closed_at(s, pos + 9, seq![0x5du8, 0x5du8, 0x3eu8]);
            let t = seq![vtok(crate::tokens::VTokenKind::HTMLCDataText, pos, end, crate::tokens::dec(s, pos + 9, ve))];
            assert(tok_within(t[0], 0, len));
            lemma_within_add(st.tt, t, 0, len);
            assert(st2.tt == st.tt + t);
        } else if occurs_at(s, seq![0x3cu8, 0x21u8], pos) {
            let (end, ve) = closed_at(s, pos + 2, seq![0x3eu8]);
            assert(comments_within(st2.cm, len)) by {
                assert forall|i: int| 0 <= i < st2.cm.len() implies 0 <= (#[trigger] st2.cm[i]).1 <= st2.cm[i].2
                    <= len by {
                    if i < st.cm.len() {
                        assert(st2.cm[i] == st.cm[i]);
                    }
                }
            }
        } else if s[pos] == 0x3c && tag_at(s, pos) is Some {
            let t = tag_at(s, pos)->0;
            lemma_tag_within(s, pos, st.kind);
            let toks = tag_tokens(s, t, st.kind)->0;
            lemma_within_widen(toks, pos, t.tag_end + 1, 0, len);
            lemma_within_add(st.tt, toks, 0, len);
            let st1 = ScanState { tt: st.tt + toks, ..st };
            assert(state_within(st1, len));
            if !t.is_end && !t.self_closing {
                let name = crate::scan::lowered(s, t.name_start, t.name_end);
                lemma_body_step_within(s, t.tag_end + 1, name, st1);
            }
        } else {
            let next = match first_occ_from(s, seq![0x3cu8], pos + 1) {
                Some(k) => k,
                None => len,
            };
            lemma_data_within(s, pos, next, st.kind);
            let toks = data_tokens(s, pos, next, st.kind)->0;
            lemma_within_widen(toks, pos, len, 0, len);
            lemma_within_add(st.tt, toks, 0, len);
        }
    }
}

proof fn lemma_scan_from_within(s: Seq<u8>, pos: int, st: ScanState)
    requires
        state_within(st, s.len() as int),
    ensures
        scan_from(s, pos, st) matches Some(r) ==> state_within(r, s.len() as int),
    decreases rem(pos, s.len() as int),
{
    if 0 <= pos < s.len() {
        lemma_scan_step(s, pos, st);
        lemma_scan_step_within(s, pos, st);
        if let Some((st2, p2)) = scan_step(s, pos, st) {
            lemma_scan_from_within(s, p2, st2);
        }
    }
}

/// Law: every span that a scan of the source records (each template
/// token, each script punctuator and each HTML comment) starts no later
/// than it ends and lies inside the source.
pub proof fn scan_spans_lie_in_source(s: Seq<u8>)
    ensures
        scan_from(s, 0, start_state()) matches Some(r) ==> state_within(r, s.len() as int),
{
    let st = start_state();
    assert(toks_within(st.tt, 0, s.len() as int));
    assert(toks_within(st.sc, 0, s.len() as int));
    assert(comments_within(st.cm, s.len() as int));
    lemma_scan_from_within(s, 0, st);
}

} // verus!
