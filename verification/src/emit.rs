//! The token scanner's steps, each with the tokens it appends.
use vstd::prelude::*;
use vstd::string::StringExecFns;
use vstd::string::StringSliceAdditionalSpecFns;
use vstd::string::StrSliceExecFns;
use vstd::utf8::*;

use crate::json::{filter_tokens_in_span, find_bytes_from, first_occ_from};
use crate::oxc::{memmem_find, memmem_rfind, occurs_at, oxc_token_json, oxc_tokenize, source_type_settings};
use crate::scan::{
    data_step, lemma_data_step, close_braces, data_tokens, open_braces, tag_tokens, attr_step, lemma_attr_step, attr_name_to, attrs_tokens, bare_to, lemma_attr_name_to, lemma_bare_to, attr_name_tokens, attr_value_tokens, dyn_arg_tokens, expr_tokens, handler_tokens, json_entry, manual_token, slot_params_tokens, vfor_tokens, wrapped_tokens, expr_json, last_occ_to, spaces, wrapped, chunks, closed_at, lemma_rc_run_end, lemma_run_end, rcdata_chunks, rc_run_end, run_end, vtok,
};
use crate::span::Span;
use crate::text::{ascii_adjacent, decimal, decimal_string, is_ascii_whitespace, is_ws, slice_between_ascii};
use crate::scanner::eq_bytes;
use crate::tokens::{
    is_scan_name_part, lemma_gt_from, lemma_scan_name_end, tag_at, tag_is, TagInfo, attr_value_kind, lemma_find_in, AttrValueKind, lemma_trim_to, lemma_ws_to, vfor_bounds, vfor_from, comments_view, dec, toks_view, tok_view, CommentKind, SerializableToken, TokView,
    VComment, VToken, VTokenKind, VueParser,
};

verus! {

broadcast use vstd::string::group_string_axioms, vstd::utf8::encode_utf8_valid_utf8;

pub proof fn lemma_toks_push(v: Seq<SerializableToken>, x: SerializableToken)
    ensures
        toks_view(v.push(x)) == toks_view(v).push(tok_view(x)),
{
    assert(toks_view(v.push(x)) =~= toks_view(v).push(tok_view(x)));
}

impl<'a> VueParser<'a> {
    pub open spec fn tt(&self) -> Seq<TokView> {
        toks_view(self.sfc.template_tokens@)
    }

    pub open spec fn sc(&self) -> Seq<TokView> {
        toks_view(self.sfc.script_tokens@)
    }

    /// Everything but the template tokens (and what the tokenizer
    /// reports) is as in `other`.
    pub open spec fn same_but_tt(&self, other: &VueParser<'a>) -> bool {
        &&& self.source_text == other.source_text
        &&& self.sfc.source_type == other.sfc.source_type
        &&& self.sfc.script_tokens@ == other.sfc.script_tokens@
        &&& self.sfc.template_comments@ == other.sfc.template_comments@
    }

    pub open spec fn fits(&self) -> bool {
        self.s().len() <= u32::MAX
    }

    /// Appends a template token.
    pub(crate) fn push_template_token(&mut self, kind: VTokenKind, start: usize, end: usize, value: String)
        requires
            start <= u32::MAX,
            end <= u32::MAX,
        ensures
            final(self).tt() == old(self).tt().push(vtok(kind, start as int, end as int, value@)),
            final(self).same_but_tt(old(self)),
    {
        let t = SerializableToken::Token(
            VToken { kind, span: Span::new(start as u32, end as u32), value: Some(value) },
        );
        proof {
            lemma_toks_push(self.sfc.template_tokens@, t);
        }
        self.sfc.template_tokens.push(t);
    }

    /// Appends the text of `[start, end)` as a template token.
    pub(crate) fn push_source_token(&mut self, kind: VTokenKind, start: usize, end: usize)
        requires
            start <= end <= old(self).s().len(),
            old(self).fits(),
            ascii_adjacent(old(self).s(), start as int),
            ascii_adjacent(old(self).s(), end as int),
        ensures
            final(self).tt() == old(self).tt().push(
                vtok(kind, start as int, end as int, dec(old(self).s(), start as int, end as int)),
            ),
            final(self).same_but_tt(old(self)),
    {
        let v = slice_between_ascii(self.source_text, start, end).to_owned();
        self.push_template_token(kind, start, end, v);
    }

    /// `[start, end)` as alternating whitespace and `other` tokens.
    pub(crate) fn emit_chunks(&mut self, start: usize, end: usize, other: VTokenKind)
        requires
            start <= end <= old(self).s().len(),
            old(self).fits(),
            ascii_adjacent(old(self).s(), start as int),
            ascii_adjacent(old(self).s(), end as int),
        ensures
            final(self).tt() == old(self).tt() + chunks(old(self).s(), start as int, end as int, other),
            final(self).same_but_tt(old(self)),
    {
        let ghost s = self.s();
        let mut pos = start;
        while pos < end
            invariant
                s == self.s(),
                self.fits(),
                start <= pos <= end <= s.len(),
                ascii_adjacent(s, pos as int),
                ascii_adjacent(s, end as int),
                self.tt() + chunks(s, pos as int, end as int, other) == old(self).tt() + chunks(
                    s,
                    start as int,
                    end as int,
                    other,
                ),
                self.same_but_tt(old(self)),
            decreases end - pos,
        {
            let chunk_start = pos;
            let w = is_ascii_whitespace(self.byte(pos));
            proof {
                lemma_run_end(s, pos as int, end as int, w);
            }
            while pos < end && is_ascii_whitespace(self.byte(pos)) == w
                invariant
                    s == self.s(),
                    chunk_start <= pos <= end <= s.len(),
                    run_end(s, chunk_start as int, end as int, w) == run_end(s, pos as int, end as int, w),
                decreases end - pos,
            {
                pos += 1;
            }
            let kind = if w {
                VTokenKind::HTMLWhitespace
            } else {
                other
            };
            proof {
                let ghost e = pos as int;
                assert(e < end ==> is_ws(s[e]) != w);
                assert(e > chunk_start);
                assert(is_ws(s[e - 1]) == w);
            }
            let ghost before = self.tt();
            self.push_source_token(kind, chunk_start, pos);
            proof {
                let piece = vtok(kind, chunk_start as int, pos as int, dec(s, chunk_start as int, pos as int));
                assert(chunks(s, chunk_start as int, end as int, other) == seq![piece] + chunks(
                    s,
                    pos as int,
                    end as int,
                    other,
                ));
                assert(before.push(piece) + chunks(s, pos as int, end as int, other) =~= before
                    + chunks(s, chunk_start as int, end as int, other));
            }
        }
    }
}

impl<'a> VueParser<'a> {
    /// The text of an RCDATA element `[start, end)`: whitespace runs, known
    /// character references (resolved), and other runs. `false` where a
    /// `&` starts no known reference: there the scan makes no progress.
    pub(crate) fn emit_rcdata_text_chunks(&mut self, start: usize, end: usize) -> (ok: bool)
        requires
            start <= end <= old(self).s().len(),
            old(self).fits(),
            ascii_adjacent(old(self).s(), start as int),
            ascii_adjacent(old(self).s(), end as int),
        ensures
            ok == rcdata_chunks(old(self).s(), start as int, end as int) is Some,
            ok ==> final(self).tt() == old(self).tt() + rcdata_chunks(
                old(self).s(),
                start as int,
                end as int,
            )->0,
            final(self).same_but_tt(old(self)),
    {
        let ghost s = self.s();
        let mut pos = start;
        while pos < end
            invariant
                s == self.s(),
                self.fits(),
                start <= pos <= end <= s.len(),
                ascii_adjacent(s, pos as int),
                ascii_adjacent(s, end as int),
                rcdata_chunks(s, start as int, end as int) is Some <==> rcdata_chunks(
                    s,
                    pos as int,
                    end as int,
                ) is Some,
                rcdata_chunks(s, pos as int, end as int) is Some ==> self.tt() + rcdata_chunks(
                    s,
                    pos as int,
                    end as int,
                )->0 == old(self).tt() + rcdata_chunks(s, start as int, end as int)->0,
                self.same_but_tt(old(self)),
            decreases end - pos,
        {
            let chunk_start = pos;
            let ghost before = self.tt();
            if is_ascii_whitespace(self.byte(pos)) {
                proof {
                    lemma_run_end(s, pos as int, end as int, true);
                }
                while pos < end && is_ascii_whitespace(self.byte(pos))
                    invariant
                        s == self.s(),
                        chunk_start <= pos <= end <= s.len(),
                        run_end(s, chunk_start as int, end as int, true) == run_end(
                            s,
                            pos as int,
                            end as int,
                            true,
                        ),
                    decreases end - pos,
                {
                    pos += 1;
                }
                self.push_source_token(VTokenKind::HTMLWhitespace, chunk_start, pos);
                proof {
                    let piece = vtok(VTokenKind::HTMLWhitespace, chunk_start as int, pos as int, dec(s, chunk_start as int, pos as int));
                    if rcdata_chunks(s, pos as int, end as int) is Some {
                        assert(before.push(piece) + rcdata_chunks(s, pos as int, end as int)->0 =~= before
                            + rcdata_chunks(s, chunk_start as int, end as int)->0);
                    }
                }
                continue;
            }
            if self.byte(pos) == 0x26 {
                match self.read_character_reference(pos, end) {
                    Some((reference_end, value)) => {
                        proof {
                            crate::scan::lemma_alnum_to(s, pos + 1, end as int);
                        }
                        self.push_template_token(VTokenKind::HTMLRCDataText, chunk_start, reference_end, value);
                        proof {
                            let piece = vtok(VTokenKind::HTMLRCDataText, chunk_start as int, reference_end as int, value@);
                            if rcdata_chunks(s, reference_end as int, end as int) is Some {
                                assert(before.push(piece) + rcdata_chunks(s, reference_end as int, end as int)->0
                                    =~= before + rcdata_chunks(s, chunk_start as int, end as int)->0);
                            }
                        }
                        pos = reference_end;
                        continue;
                    },
                    None => {},
                }
            }
            proof {
                lemma_rc_run_end(s, pos as int, end as int);
            }
            while pos < end && !is_ascii_whitespace(self.byte(pos)) && self.byte(pos) != 0x26
                invariant
                    s == self.s(),
                    chunk_start <= pos <= end <= s.len(),
                    rc_run_end(s, chunk_start as int, end as int) == rc_run_end(s, pos as int, end as int),
                decreases end - pos,
            {
                pos += 1;
            }
            if pos == chunk_start {
                return false;
            }
            self.push_source_token(VTokenKind::HTMLRCDataText, chunk_start, pos);
            proof {
                let piece = vtok(VTokenKind::HTMLRCDataText, chunk_start as int, pos as int, dec(s, chunk_start as int, pos as int));
                if rcdata_chunks(s, pos as int, end as int) is Some {
                    assert(before.push(piece) + rcdata_chunks(s, pos as int, end as int)->0 =~= before
                        + rcdata_chunks(s, chunk_start as int, end as int)->0);
                }
            }
        }
        proof {
            assert(self.tt() + seq![] =~= self.tt());
        }
        true
    }

    /// Records the comment `[start, end)` whose text is `[vs, ve)`.
    pub(crate) fn push_comment(&mut self, kind: CommentKind, start: usize, end: usize, vs: usize, ve: usize)
        requires
            vs <= ve <= old(self).s().len(),
            start <= u32::MAX,
            end <= u32::MAX,
            ascii_adjacent(old(self).s(), vs as int),
            ascii_adjacent(old(self).s(), ve as int),
        ensures
            comments_view(final(self).sfc.template_comments@) == comments_view(
                old(self).sfc.template_comments@,
            ).push((kind, start as int, end as int, old(self).s().subrange(vs as int, ve as int))),
            final(self).source_text == old(self).source_text,
            final(self).sfc.source_type == old(self).sfc.source_type,
            final(self).sfc.script_tokens@ == old(self).sfc.script_tokens@,
            final(self).sfc.template_tokens@ == old(self).sfc.template_tokens@,
    {
        let value = slice_between_ascii(self.source_text, vs, ve);
        let c = VComment { kind, value, span: Span::new(start as u32, end as u32) };
        proof {
            assert(comments_view(self.sfc.template_comments@.push(c)) =~= comments_view(
                self.sfc.template_comments@,
            ).push(crate::tokens::comment_view(c)));
        }
        self.sfc.template_comments.push(c);
    }

    /// Where a construct that ends with `close`, searched from `from`,
    /// ends, and where its text ends.
    pub(crate) fn closed(&self, from: usize, close: &[u8]) -> (r: (usize, usize))
        requires
            from <= self.s().len(),
        ensures
            (r.0 as int, r.1 as int) == closed_at(self.s(), from as int, close@),
            r.1 <= r.0 <= self.s().len(),
            from <= r.1,
            r.1 < r.0 ==> occurs_at(self.s(), close@, r.1 as int),
    {
        let len = self.source_text.as_bytes().len();
        let cl = close.len();
        proof {
            crate::json::lemma_first_occ_pub(self.s(), close@, from as int);
        }
        match find_bytes_from(self.source_text.as_bytes(), close, from) {
            Some(e) => {
                assert(first_occ_from(self.s(), close@, from as int) == Some(e as int));
                (e + cl, e)
            },
            None => (len, len),
        }
    }
}

pub proof fn lemma_find_is_first(h: Seq<u8>, n: Seq<u8>, i: int, k: int)
    requires
        0 <= k <= i,
        occurs_at(h, n, i),
        forall|j: int| 0 <= j < i ==> !occurs_at(h, n, j),
    ensures
        first_occ_from(h, n, k) == Some(i),
    decreases i - k,
{
    if k < i {
        lemma_find_is_first(h, n, i, k + 1);
    }
}

pub proof fn lemma_find_none(h: Seq<u8>, n: Seq<u8>, k: int)
    requires
        0 <= k,
        forall|j: int| !occurs_at(h, n, j),
    ensures
        first_occ_from(h, n, k) is None,
    decreases h.len() + 1 - k,
{
    if k + n.len() <= h.len() {
        lemma_find_none(h, n, k + 1);
    }
}

pub proof fn lemma_rfind_is_last(h: Seq<u8>, n: Seq<u8>, i: int, k: int)
    requires
        0 <= i <= k,
        occurs_at(h, n, i),
        forall|j: int| i < j ==> !occurs_at(h, n, j),
    ensures
        last_occ_to(h, n, k) == Some(i),
    decreases k - i,
{
    if k > i {
        lemma_rfind_is_last(h, n, i, k - 1);
    }
}

pub proof fn lemma_rfind_none(h: Seq<u8>, n: Seq<u8>, k: int)
    requires
        forall|j: int| !occurs_at(h, n, j),
    ensures
        last_occ_to(h, n, k) is None,
    decreases k + 1,
{
    if k >= 0 {
        lemma_rfind_none(h, n, k - 1);
    }
}

pub proof fn lemma_encode_concat(x: Seq<char>, y: Seq<char>)
    ensures
        encode_utf8(x + y) == encode_utf8(x) + encode_utf8(y),
    decreases x.len(),
{
    if x.len() == 0 {
        assert(x + y =~= y);
    } else {
        lemma_encode_concat(x.drop_first(), y);
        assert((x + y).drop_first() =~= x.drop_first() + y);
        assert((x + y)[0] == x[0]);
    }
}

/// The encoding of `x` followed by an ASCII character ends with that
/// character's byte.
pub proof fn lemma_encode_last_ascii(x: Seq<char>, c: char)
    requires
        (c as u32) < 0x80,
    ensures
        encode_utf8(x.push(c)).len() >= 1,
        encode_utf8(x.push(c)).last() == (c as u32) as u8,
{
    lemma_encode_concat(x, seq![c]);
    assert(x.push(c) =~= x + seq![c]);
    let v = c as u32;
    assert(seq![c].drop_first() =~= Seq::<char>::empty());
    assert(has_width_1_encoding(v));
    assert(encode_scalar(v) == seq![leading_byte_width_1(v)]);
    assert(seq![c][0] == c);
    assert(encode_utf8(seq![c]) == encode_scalar(v) + encode_utf8(seq![c].drop_first()));
    assert(encode_utf8(Seq::<char>::empty()) == Seq::<u8>::empty());
    assert(encode_utf8(seq![c]) =~= seq![((v & 0x7f) as u8)]);
    assert((v & 0x7f) == v) by (bit_vector)
        requires
            v < 0x80,
    ;
}

/// `"end":n}`, with a trailing comma when `comma`.
fn end_needle_string(n: usize, comma: bool) -> (r: String)
    ensures
        r@ == seq!['"', 'e', 'n', 'd', '"', ':'] + decimal(n as nat) + (if comma {
            seq!['}', ',']
        } else {
            seq!['}']
        }),
{
    let mut out = String::new();
    out.append("\"end\":");
    let digits = decimal_string(n);
    out.append(digits.as_str());
    out.append("}");
    if comma {
        out.append(",");
    }
    proof {
        reveal_strlit("\"end\":");
        reveal_strlit("}");
        reveal_strlit(",");
        if comma {
            assert(out@ =~= seq!['"', 'e', 'n', 'd', '"', ':'] + decimal(n as nat) + seq!['}', ',']);
        } else {
            assert(out@ =~= seq!['"', 'e', 'n', 'd', '"', ':'] + decimal(n as nat) + seq!['}']);
        }
    }
    out
}

impl<'a> VueParser<'a> {
    /// The text handed to the tokenizer for `[start, end)`: the source
    /// before it blanked out, `sw` just before it, `ew` right after it.
    pub(crate) fn wrapped_text(&self, start: usize, end: usize, sw: &str, ew: &str) -> (r: String)
        requires
            sw@.len() <= start <= end <= self.s().len(),
            ascii_adjacent(self.s(), start as int),
            ascii_adjacent(self.s(), end as int),
        ensures
            r@ == wrapped(self.s(), start as int, end as int, sw@, ew@),
    {
        let n = start - sw.unicode_len();
        let mut out = String::new();
        let mut i: usize = 0;
        proof {
            reveal_strlit(" ");
        }
        while i < n
            invariant
                i <= n,
                out@ == spaces(i as int),
            decreases n - i,
        {
            out.append(" ");
            i += 1;
            proof {
                reveal_strlit(" ");
                assert(out@ =~= spaces(i as int));
            }
        }
        out.append(sw);
        out.append(slice_between_ascii(self.source_text, start, end));
        out.append(ew);
        out
    }

    /// Runs the tokenizer on `text` with the current source type; its
    /// diagnostics and comments are kept.
    pub(crate) fn run_tokenizer(&mut self, text: &str) -> (r: Option<String>)
        ensures
            match r {
                Some(j) => oxc_token_json(text@, old(self).sfc.source_type) == Some(j@) && j@.len() >= 2,
                None => oxc_token_json(text@, old(self).sfc.source_type) is None,
            },
            final(self).same_but_tt(old(self)),
            final(self).sfc.template_tokens@ == old(self).sfc.template_tokens@,
    {
        let settings = source_type_settings(self.sfc.source_type);
        let mut out = oxc_tokenize(text, self.sfc.source_type, &settings);
        self.errors.append(&mut out.errors);
        self.sfc.script_comments.append(&mut out.comments);
        out.json
    }

    /// The tokens of the expression `[start, end)`, cut out of the
    /// tokenizer's JSON; `Err` where the cut would run backwards.
    pub(crate) fn parse_pure_expression(&mut self, start: usize, end: usize) -> (r: Result<Option<String>, ()>)
        requires
            start <= end <= old(self).s().len(),
            ascii_adjacent(old(self).s(), start as int),
            ascii_adjacent(old(self).s(), end as int),
        ensures
            match (r, expr_json(old(self).s(), start as int, end as int, old(self).sfc.source_type)) {
                (Ok(Some(t)), Ok(Some(u))) => t@ == u,
                (Ok(None), Ok(None)) => true,
                (Err(_), Err(_)) => true,
                _ => false,
            },
            final(self).same_but_tt(old(self)),
            final(self).sfc.template_tokens@ == old(self).sfc.template_tokens@,
    {
        if start < 1 {
            return Err(());
        }
        proof {
            reveal_strlit("(");
            reveal_strlit(")");
            assert("("@ =~= seq!['(']);
            assert(")"@ =~= seq![')']);
        }
        let text = self.wrapped_text(start, end, "(", ")");
        assert(text@ == wrapped(self.s(), start as int, end as int, seq!['('], seq![')']));
        let json = match self.run_tokenizer(text.as_str()) {
            None => {
                return Ok(None);
            },
            Some(j) => j,
        };
        let jn = json.as_str().unicode_len();
        let inner = json.as_str().substring_char(1, jn - 1);
        let b = inner.as_bytes();
        let bl = b.len();
        let n1 = end_needle_string(start - 1, true);
        let n2 = end_needle_string(end, false);
        let nb1 = n1.as_str().as_bytes();
        let nb2 = n2.as_str().as_bytes();
        let first = memmem_find(b, nb1);
        let i = match first {
            None => {
                proof {
                    lemma_find_none(b@, nb1@, 0);
                }
                return Ok(None);
            },
            Some(i) => i,
        };
        proof {
            lemma_find_is_first(b@, nb1@, i as int, 0);
        }
        let last = memmem_rfind(b, nb2);
        let k = match last {
            None => {
                proof {
                    lemma_rfind_none(b@, nb2@, b@.len() as int);
                }
                return Ok(None);
            },
            Some(k) => k,
        };
        proof {
            lemma_rfind_is_last(b@, nb2@, k as int, b@.len() as int);
        }
        let a = i + nb1.len();
        let z = k + nb2.len();
        if a > z {
            return Err(());
        }
        proof {
            let p1 = seq!['"', 'e', 'n', 'd', '"', ':'] + decimal((start - 1) as nat) + seq!['}'];
            assert(n1@ =~= p1.push(','));
            lemma_encode_last_ascii(p1, ',');
            assert(b@.subrange(i as int, a as int) == nb1@);
            assert(b@[a - 1] == b@.subrange(i as int, a as int)[nb1@.len() - 1]);
            let p2 = seq!['"', 'e', 'n', 'd', '"', ':'] + decimal(end as nat);
            assert(n2@ =~= p2.push('}'));
            lemma_encode_last_ascii(p2, '}');
            assert(b@.subrange(k as int, z as int) == nb2@);
            assert(b@[z - 1] == b@.subrange(k as int, z as int)[nb2@.len() - 1]);
        }
        Ok(Some(slice_between_ascii(inner, a, z).to_owned()))
    }
}

impl<'a> VueParser<'a> {
    /// Appends the token text when it is not empty.
    pub(crate) fn push_template_oxc_tokens(&mut self, t: Option<String>)
        ensures
            final(self).tt() == old(self).tt() + json_entry(
                match t {
                    Some(x) => Some(x@),
                    None => None,
                },
            ),
            final(self).same_but_tt(old(self)),
    {
        match t {
            Some(x) => {
                if !x.as_str().is_empty() {
                    let e = SerializableToken::Json(x);
                    proof {
                        lemma_toks_push(self.sfc.template_tokens@, e);
                    }
                    self.sfc.template_tokens.push(e);
                } else {
                    assert(self.tt() + seq![] =~= self.tt());
                }
            },
            None => {
                assert(self.tt() + seq![] =~= self.tt());
            },
        }
    }

    /// The tokens of the expression `[start, end)`; `false` where the
    /// scan cannot go on.
    pub(crate) fn emit_expression_tokens(&mut self, start: usize, end: usize) -> (ok: bool)
        requires
            start <= end <= old(self).s().len(),
            ascii_adjacent(old(self).s(), start as int),
            ascii_adjacent(old(self).s(), end as int),
        ensures
            ok == expr_tokens(old(self).s(), start as int, end as int, old(self).sfc.source_type) is Some,
            ok ==> final(self).tt() == old(self).tt() + expr_tokens(
                old(self).s(),
                start as int,
                end as int,
                old(self).sfc.source_type,
            )->0,
            final(self).same_but_tt(old(self)),
    {
        match self.parse_pure_expression(start, end) {
            Err(_) => false,
            Ok(t) => {
                self.push_template_oxc_tokens(t);
                true
            },
        }
    }

    /// The tokens of `[start, end)` read between `sw` and `ew` that lie
    /// inside the range.
    pub(crate) fn parse_wrapped_tokens(&mut self, start: usize, end: usize, sw: &str, ew: &str) -> (r: Option<String>)
        requires
            start <= end <= old(self).s().len(),
            old(self).fits(),
            ascii_adjacent(old(self).s(), start as int),
            ascii_adjacent(old(self).s(), end as int),
        ensures
            match wrapped_tokens(old(self).s(), start as int, end as int, sw@, ew@, old(self).sfc.source_type) {
                Some(x) => r matches Some(y) && y@ == x,
                None => r is None,
            },
            final(self).same_but_tt(old(self)),
            final(self).sfc.template_tokens@ == old(self).sfc.template_tokens@,
    {
        if start < sw.unicode_len() {
            return None;
        }
        let text = self.wrapped_text(start, end, sw, ew);
        let json = match self.run_tokenizer(text.as_str()) {
            None => {
                return None;
            },
            Some(j) => j,
        };
        let jn = json.as_str().unicode_len();
        let inner = json.as_str().substring_char(1, jn - 1);
        Some(filter_tokens_in_span(inner, Span::new(start as u32, end as u32)))
    }

    /// The tokens of an event handler, read as an arrow function body.
    pub(crate) fn emit_handler_tokens(&mut self, start: usize, end: usize)
        requires
            start <= end <= old(self).s().len(),
            old(self).fits(),
            ascii_adjacent(old(self).s(), start as int),
            ascii_adjacent(old(self).s(), end as int),
        ensures
            final(self).tt() == old(self).tt() + handler_tokens(
                old(self).s(),
                start as int,
                end as int,
                old(self).sfc.source_type,
            ),
            final(self).same_but_tt(old(self)),
    {
        proof {
            reveal_strlit("(()=>{");
            reveal_strlit("})");
            assert("(()=>{"@ =~= seq!['(', '(', ')', '=', '>', '{']);
            assert("})"@ =~= seq!['}', ')']);
        }
        let t = self.parse_wrapped_tokens(start, end, "(()=>{", "})");
        self.push_template_oxc_tokens(t);
    }

    /// The tokens of slot parameters, read as the parameters of an arrow
    /// function.
    pub(crate) fn emit_slot_params_tokens(&mut self, start: usize, end: usize)
        requires
            start <= end <= old(self).s().len(),
            old(self).fits(),
            ascii_adjacent(old(self).s(), start as int),
            ascii_adjacent(old(self).s(), end as int),
        ensures
            final(self).tt() == old(self).tt() + slot_params_tokens(
                old(self).s(),
                start as int,
                end as int,
                old(self).sfc.source_type,
            ),
            final(self).same_but_tt(old(self)),
    {
        let ghost s = self.s();
        proof {
            lemma_ws_to(s, start as int, end as int);
        }
        let a = self.skip_ws(start, end);
        proof {
            lemma_trim_to(s, a as int, end as int);
        }
        let b = self.trim_end_ws(a, end);
        if a >= b {
            assert(self.tt() + seq![] =~= self.tt());
            return;
        }
        let is_parenthesized = self.byte(a) == 0x28 && self.byte(b - 1) == 0x29;
        proof {
            reveal_strlit("(");
            reveal_strlit("((");
            reveal_strlit("=>0)");
            reveal_strlit(")=>0)");
            assert("("@ =~= seq!['(']);
            assert("(("@ =~= seq!['(', '(']);
            assert("=>0)"@ =~= seq!['=', '>', '0', ')']);
            assert(")=>0)"@ =~= seq![')', '=', '>', '0', ')']);
        }
        let t = if is_parenthesized {
            self.parse_wrapped_tokens(a, b, "(", "=>0)")
        } else {
            self.parse_wrapped_tokens(a, b, "((", ")=>0)")
        };
        self.push_template_oxc_tokens(t);
    }

    /// Appends a token object written out here.
    pub(crate) fn push_manual_oxc_token(&mut self, token_type: &str, value: &str, start: usize, end: usize)
        ensures
            final(self).tt() == old(self).tt().push(
                TokView::Json(manual_token(token_type@, value@, start as int, end as int)),
            ),
            final(self).same_but_tt(old(self)),
    {
        let mut out = String::new();
        out.append("{\"type\":\"");
        out.append(token_type);
        out.append("\",\"value\":\"");
        out.append(value);
        out.append("\",\"start\":");
        let a = decimal_string(start);
        out.append(a.as_str());
        out.append(",\"end\":");
        let b = decimal_string(end);
        out.append(b.as_str());
        out.append("}");
        proof {
            reveal_strlit("{\"type\":\"");
            reveal_strlit("\",\"value\":\"");
            reveal_strlit("\",\"start\":");
            reveal_strlit(",\"end\":");
            reveal_strlit("}");
            assert(out@ =~= manual_token(token_type@, value@, start as int, end as int));
        }
        let e = SerializableToken::Json(out);
        proof {
            lemma_toks_push(self.sfc.template_tokens@, e);
        }
        self.sfc.template_tokens.push(e);
    }

    /// The tokens of a `v-for` value.
    #[verifier::rlimit(40)]
    pub(crate) fn emit_v_for_tokens(&mut self, start: usize, end: usize) -> (ok: bool)
        requires
            start <= end <= old(self).s().len(),
            old(self).fits(),
            ascii_adjacent(old(self).s(), start as int),
            ascii_adjacent(old(self).s(), end as int),
        ensures
            ok == vfor_tokens(old(self).s(), start as int, end as int, old(self).sfc.source_type) is Some,
            ok ==> final(self).tt() == old(self).tt() + vfor_tokens(
                old(self).s(),
                start as int,
                end as int,
                old(self).sfc.source_type,
            )->0,
            final(self).same_but_tt(old(self)),
    {
        let ghost s = self.s();
        let ghost t0 = self.tt();
        let parts = match self.split_v_for_expression(start, end) {
            None => {
                return self.emit_expression_tokens(start, end);
            },
            Some(p) => p,
        };
        proof {
            vfor_bounds(s, start as int, end as int, start as int, 0, 0, 0);
        }
        self.emit_slot_params_tokens(parts.left_start, parts.left_end);
        let ghost t1 = self.tt();
        proof {
            reveal_strlit("in");
            reveal_strlit("Keyword");
            reveal_strlit("Identifier");
        }
        let is_in = eq_bytes(parts.operator.as_bytes(), "in".as_bytes());
        proof {
            encode_utf8_decode_utf8(parts.operator@);
            encode_utf8_decode_utf8(seq!['i', 'n']);
            assert("in"@ =~= seq!['i', 'n']);
            assert(is_in == (parts.operator@ == seq!['i', 'n']));
            assert(parts.operator@ == dec(s, parts.operator_start as int, parts.operator_end as int));
        }
        let ty = if is_in {
            "Keyword"
        } else {
            "Identifier"
        };
        proof {
            assert("Keyword"@ =~= seq!['K', 'e', 'y', 'w', 'o', 'r', 'd']);
            assert("Identifier"@ =~= seq!['I', 'd', 'e', 'n', 't', 'i', 'f', 'i', 'e', 'r']);
        }
        self.push_manual_oxc_token(ty, parts.operator, parts.operator_start, parts.operator_end);
        let ghost t2 = self.tt();
        let ok = self.emit_expression_tokens(parts.right_start, parts.right_end);
        proof {
            let m = vfor_from(s, start as int, end as int, start as int, 0, 0, 0)->0;
            let kind = old(self).sfc.source_type;
            let op = dec(s, m.op.0, m.op.1);
            let tyv = if op == seq!['i', 'n'] {
                seq!['K', 'e', 'y', 'w', 'o', 'r', 'd']
            } else {
                seq!['I', 'd', 'e', 'n', 't', 'i', 'f', 'i', 'e', 'r']
            };
            assert(ty@ == tyv);
            assert(t1 == t0 + slot_params_tokens(s, m.left.0, m.left.1, kind));
            assert(t2 == t1.push(TokView::Json(manual_token(tyv, op, m.op.0, m.op.1))));
            if ok {
                let r = expr_tokens(s, m.right.0, m.right.1, kind)->0;
                assert(self.tt() == t2 + r);
                assert(vfor_tokens(s, start as int, end as int, kind)->0 == slot_params_tokens(s, m.left.0, m.left.1, kind) + seq![TokView::Json(manual_token(tyv, op, m.op.0, m.op.1))] + r);
                assert(self.tt() =~= t0 + vfor_tokens(s, start as int, end as int, kind)->0);
            }
        }
        ok
    }
}

impl<'a> VueParser<'a> {
    /// `[start, dot)`, the `.` and `(dot, end)` as three tokens.
    pub(crate) fn emit_split_at_dot(&mut self, start: usize, dot: usize, end: usize)
        requires
            start <= dot < end <= old(self).s().len(),
            old(self).fits(),
            old(self).s()[dot as int] == 0x2e,
            ascii_adjacent(old(self).s(), start as int),
            ascii_adjacent(old(self).s(), end as int),
        ensures
            final(self).tt() == old(self).tt() + seq![
                vtok(VTokenKind::HTMLIdentifier, start as int, dot as int, dec(old(self).s(), start as int, dot as int)),
                vtok(VTokenKind::Punctuator, dot as int, dot + 1, seq!['.']),
                vtok(VTokenKind::HTMLIdentifier, dot + 1, end as int, dec(old(self).s(), dot + 1, end as int)),
            ],
            final(self).same_but_tt(old(self)),
    {
        let ghost t0 = self.tt();
        proof {
            reveal_strlit(".");
        }
        self.push_source_token(VTokenKind::HTMLIdentifier, start, dot);
        self.push_template_token(VTokenKind::Punctuator, dot, dot + 1, ".".to_owned());
        self.push_source_token(VTokenKind::HTMLIdentifier, dot + 1, end);
        proof {
            assert("."@ =~= seq!['.']);
            assert(self.tt() =~= t0 + seq![
                vtok(VTokenKind::HTMLIdentifier, start as int, dot as int, dec(old(self).s(), start as int, dot as int)),
                vtok(VTokenKind::Punctuator, dot as int, dot + 1, seq!['.']),
                vtok(VTokenKind::HTMLIdentifier, dot + 1, end as int, dec(old(self).s(), dot + 1, end as int)),
            ]);
        }
    }

    /// The tokens of a directive argument `[start, end)`.
    pub(crate) fn emit_dynamic_arg_tokens(&mut self, start: usize, end: usize) -> (ok: bool)
        requires
            start <= end <= old(self).s().len(),
            old(self).fits(),
            ascii_adjacent(old(self).s(), start as int),
            ascii_adjacent(old(self).s(), end as int),
        ensures
            ok == dyn_arg_tokens(old(self).s(), start as int, end as int, old(self).sfc.source_type) is Some,
            ok ==> final(self).tt() == old(self).tt() + dyn_arg_tokens(
                old(self).s(),
                start as int,
                end as int,
                old(self).sfc.source_type,
            )->0,
            final(self).same_but_tt(old(self)),
    {
        let ghost s = self.s();
        let ghost t0 = self.tt();
        let ghost kind = self.sfc.source_type;
        if start < end && self.byte(start) == 0x5b && self.byte(end - 1) == 0x5d {
            proof {
                reveal_strlit("[");
                reveal_strlit("]");
            }
            self.push_template_token(VTokenKind::Punctuator, start, start + 1, "[".to_owned());
            let ghost t1 = self.tt();
            let ok = self.emit_expression_tokens(start + 1, end - 1);
            if !ok {
                return false;
            }
            let ghost t2 = self.tt();
            self.push_template_token(VTokenKind::Punctuator, end - 1, end, "]".to_owned());
            proof {
                assert("["@ =~= seq!['[']);
                assert("]"@ =~= seq![']']);
                assert(self.tt() =~= t0 + dyn_arg_tokens(s, start as int, end as int, kind)->0);
            }
            return true;
        }
        if start < end {
            proof {
                lemma_find_in(s, start as int, end as int, 0x2e);
            }
            match self.find_byte(start, end, 0x2e) {
                Some(dot) => {
                    self.emit_split_at_dot(start, dot, end);
                    proof {
                        assert(self.tt() =~= t0 + dyn_arg_tokens(s, start as int, end as int, kind)->0);
                    }
                },
                None => {
                    self.push_source_token(VTokenKind::HTMLIdentifier, start, end);
                    proof {
                        assert(self.tt() =~= t0 + dyn_arg_tokens(s, start as int, end as int, kind)->0);
                    }
                },
            }
            return true;
        }
        assert(self.tt() =~= t0 + dyn_arg_tokens(s, start as int, end as int, kind)->0);
        true
    }

    /// The tokens of the attribute name `[start, end)`.
    pub(crate) fn emit_attr_name(&mut self, start: usize, end: usize) -> (ok: bool)
        requires
            start < end <= old(self).s().len(),
            old(self).fits(),
            ascii_adjacent(old(self).s(), start as int),
            ascii_adjacent(old(self).s(), end as int),
        ensures
            ok == attr_name_tokens(old(self).s(), start as int, end as int, old(self).sfc.source_type) is Some,
            ok ==> final(self).tt() == old(self).tt() + attr_name_tokens(
                old(self).s(),
                start as int,
                end as int,
                old(self).sfc.source_type,
            )->0,
            final(self).same_but_tt(old(self)),
    {
        let ghost s = self.s();
        let ghost t0 = self.tt();
        let ghost kind = self.sfc.source_type;
        let first = self.byte(start);
        if (first == 0x3a || first == 0x40 || first == 0x23) && end - start > 1 {
            self.push_source_token(VTokenKind::Punctuator, start, start + 1);
            let ok = self.emit_dynamic_arg_tokens(start + 1, end);
            proof {
                if ok {
                    assert(self.tt() =~= t0 + attr_name_tokens(s, start as int, end as int, kind)->0);
                }
            }
            return ok;
        }
        proof {
            lemma_find_in(s, start as int, end as int, 0x3a);
            lemma_find_in(s, start as int, end as int, 0x2e);
        }
        let colon = self.find_byte(start, end, 0x3a);
        if colon.is_some() && self.byte(end - 1) != 0x3a {
            let c = colon.unwrap();
            proof {
                reveal_strlit(":");
            }
            self.push_source_token(VTokenKind::HTMLIdentifier, start, c);
            self.push_template_token(VTokenKind::Punctuator, c, c + 1, ":".to_owned());
            let ghost t2 = self.tt();
            let ok = self.emit_dynamic_arg_tokens(c + 1, end);
            proof {
                assert(":"@ =~= seq![':']);
                if ok {
                    assert(self.tt() =~= t0 + attr_name_tokens(s, start as int, end as int, kind)->0);
                }
            }
            return ok;
        }
        match self.find_byte(start, end, 0x2e) {
            Some(dot) => {
                self.emit_split_at_dot(start, dot, end);
                proof {
                    assert(self.tt() =~= t0 + attr_name_tokens(s, start as int, end as int, kind)->0);
                }
            },
            None => {
                self.push_source_token(VTokenKind::HTMLIdentifier, start, end);
                proof {
                    assert(self.tt() =~= t0 + attr_name_tokens(s, start as int, end as int, kind)->0);
                }
            },
        }
        true
    }

    /// The tokens of an attribute value `[vs, ve)` whose token runs
    /// `[ts, te)`, for the attribute named `[ns, ne)`.
    #[verifier::rlimit(40)]
    pub(crate) fn emit_attr_value(&mut self, ns: usize, ne: usize, vs: usize, ve: usize, ts: usize, te: usize) -> (ok: bool)
        requires
            ns <= ne <= old(self).s().len(),
            ts <= vs <= ve <= te <= old(self).s().len(),
            old(self).fits(),
            ascii_adjacent(old(self).s(), ns as int),
            ascii_adjacent(old(self).s(), ne as int),
            ascii_adjacent(old(self).s(), vs as int),
            ascii_adjacent(old(self).s(), ve as int),
            ascii_adjacent(old(self).s(), ts as int),
            ascii_adjacent(old(self).s(), te as int),
        ensures
            ok == attr_value_tokens(old(self).s(), ns as int, ne as int, vs as int, ve as int, ts as int, te as int, old(self).sfc.source_type) is Some,
            ok ==> final(self).tt() == old(self).tt() + attr_value_tokens(
                old(self).s(),
                ns as int,
                ne as int,
                vs as int,
                ve as int,
                ts as int,
                te as int,
                old(self).sfc.source_type,
            )->0,
            final(self).same_but_tt(old(self)),
    {
        let ghost s = self.s();
        let ghost t0 = self.tt();
        let ghost kind = self.sfc.source_type;
        let name = slice_between_ascii(self.source_text, ns, ne);
        let k = attr_value_kind(name);
        if k == AttrValueKind::Literal {
            let v = slice_between_ascii(self.source_text, vs, ve).to_owned();
            self.push_template_token(VTokenKind::HTMLLiteral, ts, te, v);
            proof {
                assert(self.tt() =~= t0 + attr_value_tokens(s, ns as int, ne as int, vs as int, ve as int, ts as int, te as int, kind)->0);
            }
            return true;
        }
        if ts < vs {
            self.push_source_token(VTokenKind::Punctuator, ts, vs);
        }
        let ghost t1 = self.tt();
        let ok = match k {
            AttrValueKind::Expression => self.emit_expression_tokens(vs, ve),
            AttrValueKind::Handler => {
                self.emit_handler_tokens(vs, ve);
                true
            },
            AttrValueKind::SlotParams => {
                self.emit_slot_params_tokens(vs, ve);
                true
            },
            _ => self.emit_v_for_tokens(vs, ve),
        };
        if !ok {
            return false;
        }
        let ghost t2 = self.tt();
        if ve < te {
            self.push_source_token(VTokenKind::Punctuator, ve, te);
        }
        proof {
            assert(self.tt() =~= t0 + attr_value_tokens(s, ns as int, ne as int, vs as int, ve as int, ts as int, te as int, kind)->0);
        }
        true
    }
}

impl<'a> VueParser<'a> {
    /// One attribute of a start tag from `pos`, before its `>` at `te`:
    /// its tokens, where the scan goes on and whether the list ends.
    #[verifier::rlimit(40)]
    pub(crate) fn emit_attr_step(&mut self, pos: usize, te: usize) -> (r: Option<(usize, bool)>)
        requires
            pos < te < old(self).s().len(),
            old(self).fits(),
            ascii_adjacent(old(self).s(), pos as int),
            old(self).s()[te as int] == 0x3e,
        ensures
            match attr_step(old(self).s(), pos as int, te as int, old(self).sfc.source_type) {
                None => r is None,
                Some((t, q, stop)) => r matches Some((rq, rstop)) && rq == q && rstop == stop
                    && final(self).tt() == old(self).tt() + t,
            },
            r matches Some((q, _)) ==> q <= te + 1 && ascii_adjacent(old(self).s(), q as int),
            final(self).same_but_tt(old(self)),
    {
        let ghost s = self.s();
        let ghost kind = self.sfc.source_type;
        let ghost t0 = self.tt();
        proof {
            reveal(attr_step);
            lemma_ws_to(s, pos as int, te as int);
        }
        let mut pos = self.skip_ws(pos, te);
        if pos >= te || self.byte(pos) == 0x2f {
            assert(self.tt() =~= t0 + seq![]);
            return Some((pos, true));
        }
        let name_start = pos;
        proof {
            lemma_attr_name_to(s, pos as int, te as int);
        }
        while pos < te && !(is_ascii_whitespace(self.byte(pos)) || self.byte(pos) == 0x3d
            || self.byte(pos) == 0x2f || self.byte(pos) == 0x3e)
            invariant
                s == self.s(),
                name_start <= pos <= te < s.len(),
                attr_name_to(s, name_start as int, te as int) == attr_name_to(s, pos as int, te as int),
            decreases te - pos,
        {
            pos += 1;
        }
        let name_end = pos;
        if name_start == name_end {
            assert(self.tt() =~= t0 + seq![]);
            return Some((pos + 1, false));
        }
        if !self.emit_attr_name(name_start, name_end) {
            return None;
        }
        let ghost tn = self.tt();
        proof {
            lemma_ws_to(s, name_end as int, te as int);
        }
        pos = self.skip_ws(pos, te);
        if pos >= te || self.byte(pos) != 0x3d {
            return Some((pos, false));
        }
        let empty = String::new();
        self.push_template_token(VTokenKind::HTMLAssociation, pos, pos + 1, empty);
        let ghost ta = self.tt();
        pos += 1;
        proof {
            lemma_ws_to(s, pos as int, te as int);
        }
        pos = self.skip_ws(pos, te);
        if pos >= te {
            return Some((pos, true));
        }
        let q = self.byte(pos);
        if q == 0x27 || q == 0x22 {
            let value_start = pos + 1;
            proof {
                lemma_find_in(s, value_start as int, te as int, q);
            }
            let value_end = match self.find_byte(value_start, te, q) {
                Some(k) => k,
                None => te,
            };
            if !self.emit_attr_value(name_start, name_end, value_start, value_end, pos, value_end + 1) {
                return None;
            }
            Some((value_end + 1, false))
        } else {
            let value_start = pos;
            proof {
                lemma_bare_to(s, pos as int, te as int);
            }
            while pos < te && !is_ascii_whitespace(self.byte(pos))
                invariant
                    s == self.s(),
                    value_start <= pos <= te < s.len(),
                    bare_to(s, value_start as int, te as int) == bare_to(s, pos as int, te as int),
                decreases te - pos,
            {
                pos += 1;
            }
            if !self.emit_attr_value(name_start, name_end, value_start, pos, value_start, pos) {
                return None;
            }
            Some((pos, false))
        }
    }

    /// The tokens of the attributes of a start tag from `start`, up to its
    /// `>` at `te`.
    pub(crate) fn emit_attrs(&mut self, start: usize, te: usize) -> (ok: bool)
        requires
            start <= te < old(self).s().len(),
            old(self).fits(),
            ascii_adjacent(old(self).s(), start as int),
            old(self).s()[te as int] == 0x3e,
        ensures
            ok == attrs_tokens(old(self).s(), start as int, te as int, old(self).sfc.source_type) is Some,
            ok ==> final(self).tt() == old(self).tt() + attrs_tokens(
                old(self).s(),
                start as int,
                te as int,
                old(self).sfc.source_type,
            )->0,
            final(self).same_but_tt(old(self)),
    {
        let ghost s = self.s();
        let ghost kind = self.sfc.source_type;
        let ghost t0 = self.tt();
        let mut pos = start;
        while pos < te
            invariant
                s == self.s(),
                t0 == old(self).tt(),
                kind == self.sfc.source_type,
                self.fits(),
                start <= pos <= te + 1,
                te < s.len(),
                s[te as int] == 0x3e,
                ascii_adjacent(s, pos as int),
                attrs_tokens(s, start as int, te as int, kind) is Some <==> attrs_tokens(
                    s,
                    pos as int,
                    te as int,
                    kind,
                ) is Some,
                attrs_tokens(s, pos as int, te as int, kind) is Some ==> self.tt() + attrs_tokens(
                    s,
                    pos as int,
                    te as int,
                    kind,
                )->0 == t0 + attrs_tokens(s, start as int, te as int, kind)->0,
                self.same_but_tt(old(self)),
            decreases te + 1 - pos,
        {
            let ghost before = self.tt();
            let ghost p0 = pos as int;
            proof {
                lemma_attr_step(s, pos as int, te as int, kind);
            }
            match self.emit_attr_step(pos, te) {
                None => {
                    return false;
                },
                Some((q, stop)) => {
                    let ghost t = (attr_step(s, p0, te as int, kind)->0).0;
                    if stop {
                        proof {
                            assert(attrs_tokens(s, p0, te as int, kind) == Some(t));
                            assert(self.tt() == before + t);
                            assert(before + t == t0 + attrs_tokens(s, start as int, te as int, kind)->0);
                        }
                        return true;
                    }
                    proof {
                        if attrs_tokens(s, q as int, te as int, kind) is Some {
                            assert(self.tt() + attrs_tokens(s, q as int, te as int, kind)->0 =~= before
                                + attrs_tokens(s, p0, te as int, kind)->0);
                        }
                    }
                    pos = q;
                },
            }
        }
        assert(self.tt() + seq![] =~= self.tt());
        true
    }
}

impl<'a> VueParser<'a> {
    /// The tokens of the tag `t` read at `start`: its open token with the
    /// lower-cased name, its attributes (start tags only), its close token.
    pub(crate) fn emit_tag(&mut self, start: usize, tag: &TagInfo) -> (ok: bool)
        requires
            start + 1 < old(self).s().len(),
            old(self).fits(),
            tag_at(old(self).s(), start as int) matches Some(m) && tag_is(*tag, m),
        ensures
            ok == tag_tokens(old(self).s(), tag_at(old(self).s(), start as int)->0, old(self).sfc.source_type) is Some,
            ok ==> final(self).tt() == old(self).tt() + tag_tokens(
                old(self).s(),
                tag_at(old(self).s(), start as int)->0,
                old(self).sfc.source_type,
            )->0,
            final(self).same_but_tt(old(self)),
    {
        let ghost s = self.s();
        let ghost kind = self.sfc.source_type;
        let ghost t0 = self.tt();
        let ghost m = tag_at(s, start as int)->0;
        proof {
            let ns = if s[start + 1] == 0x2f { start + 2 } else { start + 1 };
            lemma_scan_name_end(s, ns);
            lemma_gt_from(s, m.name_end);
            lemma_trim_to(s, m.name_end, m.tag_end);
            assert(is_scan_name_part(s[m.name_end - 1]));
            assert(is_scan_name_part(s[m.name_start as int]));
        }
        let name = self.lower_source(tag.name_start, tag.name_end);
        let tag_start = if tag.is_end {
            tag.name_start - 2
        } else {
            tag.name_start - 1
        };
        let kind_open = if tag.is_end {
            VTokenKind::HTMLEndTagOpen
        } else {
            VTokenKind::HTMLTagOpen
        };
        self.push_template_token(kind_open, tag_start, tag.name_end, name);
        let ghost t1 = self.tt();
        if !tag.is_end {
            if !self.emit_attrs(tag.name_end, tag.tag_end) {
                return false;
            }
        }
        let ghost t2 = self.tt();
        let close_start = if tag.is_self_closing {
            self.trim_end_ws(tag.name_end, tag.tag_end) - 1
        } else {
            tag.tag_end
        };
        let close_kind = if tag.is_self_closing {
            VTokenKind::HTMLSelfClosingTagClose
        } else {
            VTokenKind::HTMLTagClose
        };
        let empty = String::new();
        self.push_template_token(close_kind, close_start, tag.tag_end + 1, empty);
        proof {
            assert(self.tt() =~= t0 + tag_tokens(s, m, kind)->0);
        }
        true
    }

    /// One step of text with interpolations at `pos`: its tokens and where
    /// the text goes on.
    #[verifier::rlimit(40)]
    pub(crate) fn emit_data_step(&mut self, pos: usize, end: usize) -> (r: Option<usize>)
        requires
            pos < end <= old(self).s().len(),
            old(self).fits(),
            ascii_adjacent(old(self).s(), pos as int),
            ascii_adjacent(old(self).s(), end as int),
        ensures
            match data_step(old(self).s(), pos as int, end as int, old(self).sfc.source_type) {
                None => r is None,
                Some((t, q)) => r == Some(q as usize) && final(self).tt() == old(self).tt() + t,
            },
            r matches Some(q) ==> ascii_adjacent(old(self).s(), q as int) && q <= old(self).s().len(),
            final(self).same_but_tt(old(self)),
    {
        let ghost s = self.s();
        let ghost kind = self.sfc.source_type;
        let ghost t0 = self.tt();
        proof {
            reveal(data_step);
        }
        let bytes = self.source_text.as_bytes();
        let len = bytes.len();
        let opens = len - pos >= 2 && bytes[pos] == 0x7b && bytes[pos + 1] == 0x7b;
        proof {
            assert(opens == occurs_at(s, open_braces(), pos as int)) by {
                if occurs_at(s, open_braces(), pos as int) {
                    assert(s.subrange(pos as int, pos + 2)[0] == s[pos as int]);
                    assert(s.subrange(pos as int, pos + 2)[1] == s[pos + 1]);
                }
                if opens {
                    assert(s.subrange(pos as int, pos + 2) =~= open_braces());
                }
            }
        }
        if opens {
            let close_needle = vec![0x7du8, 0x7du8];
            proof {
                crate::json::lemma_first_occ_pub(s, close_braces(), pos + 2);
            }
            match find_bytes_from(bytes, close_needle.as_slice(), pos + 2) {
                Some(close) => {
                    proof {
                        reveal_strlit("{{");
                        reveal_strlit("}}");
                        assert(s.subrange(close as int, close + 2) == close_braces());
                        assert(s[close as int] == s.subrange(close as int, close + 2)[0]);
                        assert(s[close + 1] == s.subrange(close as int, close + 2)[1]);
                    }
                    self.push_template_token(VTokenKind::VExpressionStart, pos, pos + 2, "{{".to_owned());
                    if !self.emit_expression_tokens(pos + 2, close) {
                        return None;
                    }
                    self.push_template_token(VTokenKind::VExpressionEnd, close, close + 2, "}}".to_owned());
                    proof {
                        assert("{{"@ =~= seq!['{', '{']);
                        assert("}}"@ =~= seq!['}', '}']);
                        assert(self.tt() =~= t0 + (data_step(s, pos as int, end as int, kind)->0).0);
                    }
                    return Some(close + 2);
                },
                None => {},
            }
        }
        if !self.source_text.is_char_boundary(pos + 1) {
            return None;
        }
        let open_needle = vec![0x7bu8, 0x7bu8];
        proof {
            crate::json::lemma_first_occ_pub(s, open_braces(), pos + 1);
        }
        let next_expr = match find_bytes_from(bytes, open_needle.as_slice(), pos + 1) {
            Some(k) => if k < end {
                k
            } else {
                end
            },
            None => end,
        };
        proof {
            if next_expr < end {
                assert(s.subrange(next_expr as int, next_expr + 2) == open_braces());
                assert(s[next_expr as int] == s.subrange(next_expr as int, next_expr + 2)[0]);
            }
        }
        self.emit_chunks(pos, next_expr, VTokenKind::HTMLText);
        Some(next_expr)
    }

    /// The tokens of text `[start, end)` with `{{ }}` interpolations;
    /// `false` where the scan cannot go on.
    pub(crate) fn emit_data(&mut self, start: usize, end: usize) -> (ok: bool)
        requires
            start <= end <= old(self).s().len(),
            old(self).fits(),
            ascii_adjacent(old(self).s(), start as int),
            ascii_adjacent(old(self).s(), end as int),
        ensures
            ok == data_tokens(old(self).s(), start as int, end as int, old(self).sfc.source_type) is Some,
            ok ==> final(self).tt() == old(self).tt() + data_tokens(
                old(self).s(),
                start as int,
                end as int,
                old(self).sfc.source_type,
            )->0,
            final(self).same_but_tt(old(self)),
    {
        let ghost s = self.s();
        let ghost kind = self.sfc.source_type;
        let ghost t0 = self.tt();
        let mut pos = start;
        while pos < end
            invariant
                s == self.s(),
                kind == self.sfc.source_type,
                t0 == old(self).tt(),
                self.fits(),
                start <= pos <= s.len(),
                end <= s.len(),
                ascii_adjacent(s, pos as int),
                ascii_adjacent(s, end as int),
                data_tokens(s, start as int, end as int, kind) is Some <==> data_tokens(
                    s,
                    pos as int,
                    end as int,
                    kind,
                ) is Some,
                data_tokens(s, pos as int, end as int, kind) is Some ==> self.tt() + data_tokens(
                    s,
                    pos as int,
                    end as int,
                    kind,
                )->0 == t0 + data_tokens(s, start as int, end as int, kind)->0,
                self.same_but_tt(old(self)),
            decreases s.len() - pos,
        {
            let ghost before = self.tt();
            let ghost p0 = pos as int;
            proof {
                lemma_data_step(s, pos as int, end as int, kind);
            }
            match self.emit_data_step(pos, end) {
                None => {
                    return false;
                },
                Some(q) => {
                    proof {
                        if data_tokens(s, q as int, end as int, kind) is Some {
                            assert(self.tt() + data_tokens(s, q as int, end as int, kind)->0 =~= before
                                + data_tokens(s, p0, end as int, kind)->0);
                        }
                    }
                    pos = q;
                },
            }
        }
        assert(self.tt() + seq![] =~= self.tt());
        true
    }
}

} // verus!
