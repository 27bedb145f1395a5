//! The scan loop over a component source, the `<script>` bodies it hands
//! to the JavaScript tokenizer, and the public entry points.
use vstd::prelude::*;
use vstd::string::StringSliceAdditionalSpecFns;
use vstd::string::StrSliceExecFns;
use vstd::utf8::*;
use vstd::std_specs::iter::IteratorSpec;

use crate::ast::{mjs_kind, SourceKind};
use crate::tokens::Sfc;
use crate::bounds::{comments_within, scan_spans_lie_in_source, toks_within};
use crate::json::find_bytes_from;
use crate::oxc::{is_irregular_whitespace, is_irregular_ws, occurs_at, source_kind_from_extension};
use crate::scan::{
    data_tokens, tag_branch, text_branch, scan_from, start_state, scan_step, body_step, inner_json, json_entry, last_occ_to, rfind_in, script_kind, script_open, script_step,
    setup_word, vtok, wrapped, ScanState,
};
use crate::span::Span;
use crate::text::{ascii_adjacent, slice_between_ascii, starts_with_at};
use crate::scanner::eq_bytes;
use crate::text::{lower, seq_eq_ignore_case};
use crate::tokens::{
    is_foreign_content, CommentKind, pop_element, tag_at, tag_is, TagInfo, is_raw_text_element, is_rcdata_element, attr_value, comments_view, stack_view, toks_view, SerializableToken, TokView,
    VToken, VTokenKind, VueParser,
};
use crate::emit::lemma_toks_push;

verus! {

broadcast use vstd::string::group_string_axioms, vstd::utf8::encode_utf8_valid_utf8;

impl<'a> VueParser<'a> {
    /// The scan state that the parser and the scan's local state make up.
    pub open spec fn state(&self, seen_script: bool, seen_setup: bool, stack: Seq<String>) -> ScanState {
        ScanState {
            tt: self.tt(),
            sc: self.sc(),
            cm: comments_view(self.sfc.template_comments@),
            kind: self.sfc.source_type,
            seen_script,
            seen_setup,
            stack: stack_view(stack),
        }
    }

    /// The last index at which `needle` stands entirely before `end`.
    fn rfind_before(&self, end: usize, needle: &[u8]) -> (r: Option<usize>)
        requires
            end <= self.s().len(),
        ensures
            r == (match rfind_in(self.s().subrange(0, end as int), needle@) {
                Some(k) => Some(k as usize),
                None => None,
            }),
    {
        let ghost h = self.s().subrange(0, end as int);
        let bytes = self.source_text.as_bytes();
        let n = needle.len();
        let mut i = end;
        loop
            invariant
                bytes@ == self.s(),
                h == self.s().subrange(0, end as int),
                end <= bytes@.len(),
                n == needle@.len(),
                i <= end,
                last_occ_to(h, needle@, end as int) == last_occ_to(h, needle@, i as int),
            decreases i,
        {
            let fits = n <= end - i;
            let here = fits && starts_with_at(bytes, i, needle);
            proof {
                if fits {
                    assert(h.subrange(i as int, i + n) =~= bytes@.subrange(i as int, i + n));
                }
                assert(here == occurs_at(h, needle@, i as int));
            }
            if here {
                return Some(i);
            }
            if i == 0 {
                assert(last_occ_to(h, needle@, -1) is None);
                return None;
            }
            i -= 1;
        }
    }

    /// The script tokens of the body `[bs, be)` of a `<script>` element,
    /// with the source type its start tag selects.
    fn emit_script_tokens(&mut self, bs: usize, be: usize, seen_script: &mut bool, seen_setup: &mut bool)
        requires
            1 <= bs <= be <= old(self).s().len(),
            old(self).fits(),
            ascii_adjacent(old(self).s(), bs as int),
            ascii_adjacent(old(self).s(), be as int),
            old(self).s()[bs - 1] == 0x3e,
        ensures
            ({
                let r = script_step(
                    old(self).s(),
                    bs as int,
                    be as int,
                    old(self).state(*old(seen_script), *old(seen_setup), seq![]),
                );
                &&& final(self).tt() == r.tt
                &&& final(self).sc() == r.sc
                &&& comments_view(final(self).sfc.template_comments@) == r.cm
                &&& final(self).sfc.source_type == r.kind
                &&& *final(seen_script) == r.seen_script
                &&& *final(seen_setup) == r.seen_setup
            }),
            final(self).source_text == old(self).source_text,
    {
        let ghost s = self.s();
        let ghost sc0 = self.sc();
        let ghost st0 = old(self).state(*old(seen_script), *old(seen_setup), seq![]);
        let script_needle = vec![0x3cu8, 0x73u8, 0x63u8, 0x72u8, 0x69u8, 0x70u8, 0x74u8];
        let open_start = match self.rfind_before(bs, script_needle.as_slice()) {
            None => {
                return;
            },
            Some(o) => o,
        };
        proof {
            crate::scan::lemma_last_occ(s.subrange(0, bs as int), script_open(), bs as int);
        }
        let open_end = bs - 1;
        let bytes = self.source_text.as_bytes();
        let setup = vec![0x73u8, 0x65u8, 0x74u8, 0x75u8, 0x70u8];
        let tag_bytes = &bytes[open_start..open_end];
        let is_setup = find_bytes_from(tag_bytes, setup.as_slice(), 0).is_some();
        if is_setup {
            if *seen_setup || bs == be {
                *seen_setup = true;
                return;
            }
            *seen_setup = true;
        } else {
            if *seen_script || (*seen_setup && bs == be) {
                return;
            }
            *seen_script = true;
        }
        proof {
            reveal_strlit("<script>");
            reveal_strlit("</script>");
            reveal_strlit("lang");
            reveal_strlit(">");
            reveal_strlit("");
        }
        proof {
            assert(tag_bytes@ == s.subrange(open_start as int, open_end as int));
            assert(is_setup == (crate::json::first_occ_from(s.subrange(open_start as int, open_end as int), setup_word(), 0) is Some));
        }
        self.push_script_punctuator(open_start, open_end + 1, "<script>".to_owned());
        self.apply_script_source_type(open_start, open_end + 1);
        let ghost sc1 = self.sc();
        let ghost kind = self.sfc.source_type;
        if bs < be {
            proof {
                reveal_strlit("");
                assert(""@ =~= Seq::<char>::empty());
            }
            let text = self.wrapped_text(bs, be, "", "");
            match self.run_tokenizer(text.as_str()) {
                Some(j) => {
                    let jn = j.as_str().unicode_len();
                    let inner = j.as_str().substring_char(1, jn - 1);
                    if !inner.is_empty() {
                        let e = SerializableToken::Json(inner.to_owned());
                        proof {
                            lemma_toks_push(self.sfc.script_tokens@, e);
                        }
                        self.sfc.script_tokens.push(e);
                    }
                },
                None => {},
            }
        }
        let gt = vec![0x3eu8];
        proof {
            crate::json::lemma_first_occ_pub(s, gt@, be as int);
        }
        let close_end = match find_bytes_from(bytes, gt.as_slice(), be) {
            Some(e) => e + 1,
            None => be,
        };
        let ghost sc2 = self.sc();
        self.push_script_punctuator(be, close_end, "</script>".to_owned());
        proof {
            assert("<script>"@ =~= seq!['<', 's', 'c', 'r', 'i', 'p', 't', '>']);
            assert("</script>"@ =~= seq!['<', '/', 's', 'c', 'r', 'i', 'p', 't', '>']);
            let r = script_step(s, bs as int, be as int, st0);
            let open = vtok(VTokenKind::Punctuator, open_start as int, bs as int, seq!['<', 's', 'c', 'r', 'i', 'p', 't', '>']);
            assert(sc1 == sc0.push(open));
            assert(kind == script_kind(s, open_start as int, bs as int));
            let body = if bs < be {
                match crate::oxc::oxc_token_json(wrapped(s, bs as int, be as int, seq![], seq![]), kind) {
                    Some(j) => json_entry(Some(inner_json(j))),
                    None => seq![],
                }
            } else {
                seq![]
            };
            assert(sc2 == sc1 + body);
            let ce = match crate::json::first_occ_from(s, seq![0x3eu8], be as int) {
                Some(e) => e + 1,
                None => be as int,
            };
            assert(gt@ == seq![0x3eu8]);
            assert(close_end == ce);
            let close = vtok(VTokenKind::Punctuator, be as int, ce, seq!['<', '/', 's', 'c', 'r', 'i', 'p', 't', '>']);
            assert(self.sc() == sc2.push(close));
            assert(rfind_in(s.subrange(0, bs as int), script_open()) == Some(open_start as int));
            assert(r.sc == sc0 + seq![open] + body + seq![close]);
            assert(self.sc() =~= r.sc);
        }
    }

    /// Appends a script token.
    fn push_script_punctuator(&mut self, start: usize, end: usize, value: String)
        requires
            start <= u32::MAX,
            end <= u32::MAX,
        ensures
            final(self).sc() == old(self).sc().push(vtok(VTokenKind::Punctuator, start as int, end as int, value@)),
            final(self).tt() == old(self).tt(),
            final(self).sfc.template_comments@ == old(self).sfc.template_comments@,
            final(self).sfc.source_type == old(self).sfc.source_type,
            final(self).source_text == old(self).source_text,
    {
        let t = SerializableToken::Token(
            VToken { kind: VTokenKind::Punctuator, span: Span::new(start as u32, end as u32), value: Some(value) },
        );
        proof {
            lemma_toks_push(self.sfc.script_tokens@, t);
        }
        self.sfc.script_tokens.push(t);
    }

    /// Sets the source type from the `lang` attribute of the `<script>`
    /// start tag `[start, end)`.
    fn apply_script_source_type(&mut self, start: usize, end: usize)
        requires
            start <= end <= old(self).s().len(),
            ascii_adjacent(old(self).s(), start as int),
            ascii_adjacent(old(self).s(), end as int),
        ensures
            final(self).sfc.source_type == script_kind(old(self).s(), start as int, end as int),
            final(self).sc() == old(self).sc(),
            final(self).tt() == old(self).tt(),
            final(self).sfc.template_comments@ == old(self).sfc.template_comments@,
            final(self).source_text == old(self).source_text,
    {
        let attrs = slice_between_ascii(self.source_text, start, end);
        proof {
            reveal_strlit("lang");
            assert("lang"@ =~= seq!['l', 'a', 'n', 'g']);
        }
        let kind = match attr_value(attrs, "lang") {
            Some(lang) => match source_kind_from_extension(lang) {
                Some(k) => SourceKind { module_kind: crate::ast::ModuleKind::Module, ..k },
                None => SourceKind::mjs(),
            },
            None => SourceKind::mjs(),
        };
        self.sfc.source_type = kind;
    }
}

impl<'a> VueParser<'a> {
    /// The body of a raw-text or RCDATA element `name` from `pos`: its
    /// text tokens (and, for `<script>`, its script tokens) up to its end
    /// tag, or to the end of the source. Returns where the scan goes on,
    /// or `None` where an RCDATA text stalls.
    #[verifier::rlimit(40)]
    fn parse_element_body(
        &mut self,
        pos: usize,
        name: &str,
        seen_script: &mut bool,
        seen_setup: &mut bool,
    ) -> (r: Option<usize>)
        requires
            1 <= pos <= old(self).s().len(),
            old(self).fits(),
            old(self).s()[pos - 1] == 0x3e,
        ensures
            ({
                let st = old(self).state(*old(seen_script), *old(seen_setup), seq![]);
                match body_step(old(self).s(), pos as int, name@, st) {
                    None => r is None,
                    Some((st2, q)) => r == Some(q as usize) && final(self).tt() == st2.tt
                        && final(self).sc() == st2.sc && comments_view(final(self).sfc.template_comments@)
                        == st2.cm && final(self).sfc.source_type == st2.kind && *final(seen_script)
                        == st2.seen_script && *final(seen_setup) == st2.seen_setup,
                }
            }),
            r matches Some(q) ==> q <= old(self).s().len() && ascii_adjacent(old(self).s(), q as int),
            final(self).source_text == old(self).source_text,
    {
        let ghost s = self.s();
        let ghost st = old(self).state(*old(seen_script), *old(seen_setup), seq![]);
        let nb = name.as_bytes();
        let len = self.source_text.as_bytes().len();
        let raw = is_raw_text_element(name);
        let rc = is_rcdata_element(name);
        if !raw && !rc {
            return Some(pos);
        }
        let mut close: Vec<u8> = Vec::new();
        close.push(0x3c);
        close.push(0x2f);
        let mut t: usize = 0;
        while t < nb.len()
            invariant
                t <= nb@.len(),
                close@ == seq![0x3cu8, 0x2fu8] + nb@.subrange(0, t as int),
            decreases nb@.len() - t,
        {
            close.push(nb[t]);
            t += 1;
            assert(close@ =~= seq![0x3cu8, 0x2fu8] + nb@.subrange(0, t as int));
        }
        assert(close@ =~= seq![0x3cu8, 0x2fu8] + nb@);
        proof {
            crate::scan::lemma_ci_le(s, close@, pos as int, s.len() - close@.len());
            crate::scan::lemma_ci_from_ge(s, close@, pos as int, s.len() - close@.len());
        }
        let found = self.find_ascii_case_insensitive(pos, close.as_slice());
        let stop = match found {
            Some(c) => c,
            None => len,
        };
        proof {
            if found is Some {
                let c = stop as int;
                assert(seq_eq_ignore_case(s.subrange(c, c + close@.len()), close@));
                assert(lower(s.subrange(c, c + close@.len())[0]) == lower(close@[0]));
                assert(s[c] == 0x3c);
            }
        }
        if raw {
            self.emit_chunks(pos, stop, VTokenKind::HTMLRawText);
            let is_script = eq_bytes(nb, "script".as_bytes());
            if found.is_some() && is_script {
                self.emit_script_tokens(pos, stop, seen_script, seen_setup);
            }
            Some(stop)
        } else {
            if !self.emit_rcdata_text_chunks(pos, stop) {
                return None;
            }
            Some(stop)
        }
    }
}

/// The parser, with the scan's local state, is the scan state `st`.
pub open spec fn is_state(p: VueParser, seen_script: bool, seen_setup: bool, stack: Seq<String>, st: ScanState) -> bool {
    &&& p.tt() == st.tt
    &&& p.sc() == st.sc
    &&& comments_view(p.sfc.template_comments@) == st.cm
    &&& p.sfc.source_type == st.kind
    &&& seen_script == st.seen_script
    &&& seen_setup == st.seen_setup
    &&& stack_view(stack) == st.stack
}

impl<'a> VueParser<'a> {
    /// A tag at `pos`: its tokens, then the element stack and, for a
    /// raw-text or RCDATA element, its body.
    #[verifier::rlimit(60)]
    fn tag_step(
        &mut self,
        pos: usize,
        tag: &TagInfo,
        seen_script: &mut bool,
        seen_setup: &mut bool,
        stack: &mut Vec<String>,
    ) -> (r: Option<usize>)
        requires
            pos + 1 < old(self).s().len(),
            old(self).fits(),
            old(self).s()[pos as int] == 0x3c,
            tag_at(old(self).s(), pos as int) matches Some(m) && tag_is(*tag, m),
        ensures
            match tag_branch(old(self).s(), pos as int, old(self).state(*old(seen_script), *old(seen_setup), old(stack)@)) {
                None => r is None,
                Some((st2, q)) => r == Some(q as usize) && is_state(*final(self), *final(seen_script), *final(seen_setup), final(stack)@, st2),
            },
            r matches Some(q) ==> q <= old(self).s().len() && ascii_adjacent(old(self).s(), q as int),
            final(self).source_text == old(self).source_text,
    {
        let ghost s = self.s();
        let ghost st = old(self).state(*old(seen_script), *old(seen_setup), old(stack)@);
        let ghost m = tag_at(s, pos as int)->0;
        proof {
            reveal(tag_branch);
        }
        proof {
            let ns = if s[pos + 1] == 0x2f { pos + 2 } else { pos + 1 };
            crate::tokens::lemma_scan_name_end(s, ns as int);
            crate::tokens::lemma_gt_from(s, m.name_end);
            assert(!occurs_at(s, crate::scan::comment_open(), pos as int)) by {
                if occurs_at(s, crate::scan::comment_open(), pos as int) {
                    assert(s.subrange(pos as int, pos + 4)[1] == s[pos + 1]);
                }
            }
            assert(!occurs_at(s, seq![0x3cu8, 0x21u8], pos as int)) by {
                if occurs_at(s, seq![0x3cu8, 0x21u8], pos as int) {
                    assert(s.subrange(pos as int, pos + 2)[1] == s[pos + 1]);
                }
            }
            assert(!occurs_at(s, crate::scan::cdata_open(), pos as int)) by {
                if occurs_at(s, crate::scan::cdata_open(), pos as int) {
                    assert(s.subrange(pos as int, pos + 9)[1] == s[pos + 1]);
                }
            }
        }
        if !self.emit_tag(pos, tag) {
            return None;
        }
        let p1 = tag.tag_end + 1;
        let name = self.lower_source(tag.name_start, tag.name_end);
        if tag.is_end {
            pop_element(stack, name.as_str());
            return Some(p1);
        }
        if tag.is_self_closing {
            return Some(p1);
        }
        let ghost st1 = self.state(*seen_script, *seen_setup, stack@);
        match self.parse_element_body(p1, name.as_str(), seen_script, seen_setup) {
            None => None,
            Some(p2) => {
                proof {
                    assert(stack_view(stack@.push(name)) =~= stack_view(stack@).push(name@));
                }
                stack.push(name);
                Some(p2)
            },
        }
    }
}

impl<'a> VueParser<'a> {
    /// One step of the scan at `pos`: a comment, CDATA text, a bogus
    /// comment, a tag, or text up to the next `<`.
    #[verifier::rlimit(80)]
    fn scan_step_at(
        &mut self,
        pos: usize,
        seen_script: &mut bool,
        seen_setup: &mut bool,
        stack: &mut Vec<String>,
    ) -> (r: Option<usize>)
        requires
            pos < old(self).s().len(),
            old(self).fits(),
            ascii_adjacent(old(self).s(), pos as int),
        ensures
            match scan_step(old(self).s(), pos as int, old(self).state(*old(seen_script), *old(seen_setup), old(stack)@)) {
                None => r is None,
                Some((st2, q)) => r == Some(q as usize) && is_state(*final(self), *final(seen_script), *final(seen_setup), final(stack)@, st2),
            },
            r matches Some(q) ==> q <= old(self).s().len() && ascii_adjacent(old(self).s(), q as int),
            final(self).source_text == old(self).source_text,
    {
        let ghost s = self.s();
        let bytes = self.source_text.as_bytes();
        let len = bytes.len();
        let comment_needle = vec![0x3cu8, 0x21u8, 0x2du8, 0x2du8];
        if starts_with_at(bytes, pos, comment_needle.as_slice()) {
            let close = vec![0x2du8, 0x2du8, 0x3eu8];
            let (end, ve) = self.closed(pos + 4, close.as_slice());
            proof {
                assert(s.subrange(pos as int, pos + 4)[3] == s[pos + 3]);
                if ve < end {
                    assert(s.subrange(ve as int, ve + 3)[0] == s[ve as int]);
                    assert(s.subrange(ve as int, ve + 3)[2] == s[ve + 2]);
                }
            }
            self.push_comment(CommentKind::HTMLComment, pos, end, pos + 4, ve);
            return Some(end);
        }
        let cdata_needle = vec![0x3cu8, 0x21u8, 0x5bu8, 0x43u8, 0x44u8, 0x41u8, 0x54u8, 0x41u8, 0x5bu8];
        if starts_with_at(bytes, pos, cdata_needle.as_slice()) && is_foreign_content(stack.as_slice()) {
            let close = vec![0x5du8, 0x5du8, 0x3eu8];
            let (end, ve) = self.closed(pos + 9, close.as_slice());
            proof {
                assert(s.subrange(pos as int, pos + 9)[8] == s[pos + 8]);
                if ve < end {
                    assert(s.subrange(ve as int, ve + 3)[0] == s[ve as int]);
                    assert(s.subrange(ve as int, ve + 3)[2] == s[ve + 2]);
                }
            }
            let v = slice_between_ascii(self.source_text, pos + 9, ve).to_owned();
            self.push_template_token(VTokenKind::HTMLCDataText, pos, end, v);
            return Some(end);
        }
        let bang = vec![0x3cu8, 0x21u8];
        if starts_with_at(bytes, pos, bang.as_slice()) {
            let close = vec![0x3eu8];
            let (end, ve) = self.closed(pos + 2, close.as_slice());
            proof {
                assert(close@ == seq![0x3eu8]);
                assert(bang@ == seq![0x3cu8, 0x21u8]);
                assert(comment_needle@ == crate::scan::comment_open());
                assert(cdata_needle@ == crate::scan::cdata_open());
                assert(s.subrange(pos as int, pos + 2)[1] == s[pos + 1]);
                if ve < end {
                    assert(s.subrange(ve as int, ve + 1)[0] == s[ve as int]);
                }
            }
            self.push_comment(CommentKind::HTMLBogusComment, pos, end, pos + 2, ve);
            return Some(end);
        }
        if bytes[pos] == 0x3c {
            if pos + 1 >= len {
                return None;
            }
            match self.read_tag(pos) {
                Some(tag) => {
                    return self.tag_step(pos, &tag, seen_script, seen_setup, stack);
                },
                None => {},
            }
        }
        self.text_step(pos, Ghost(*seen_script), Ghost(*seen_setup), Ghost(stack@))
    }

    /// Text from `pos` up to the next `<`.
    fn text_step(&mut self, pos: usize, Ghost(ss): Ghost<bool>, Ghost(su): Ghost<bool>, Ghost(stk): Ghost<Seq<String>>) -> (r: Option<usize>)
        requires
            pos < old(self).s().len(),
            old(self).fits(),
            ascii_adjacent(old(self).s(), pos as int),
        ensures
            match text_branch(old(self).s(), pos as int, old(self).state(ss, su, stk)) {
                None => r is None,
                Some((st2, q)) => r == Some(q as usize) && is_state(*final(self), ss, su, stk, st2),
            },
            r matches Some(q) ==> q <= old(self).s().len() && ascii_adjacent(old(self).s(), q as int),
            final(self).source_text == old(self).source_text,
    {
        proof {
            reveal(text_branch);
        }
        let ghost s = self.s();
        let bytes = self.source_text.as_bytes();
        let len = bytes.len();
        if !self.source_text.is_char_boundary(pos + 1) {
            return None;
        }
        let lt = vec![0x3cu8];
        proof {
            assert(lt@ == seq![0x3cu8]);
            crate::json::lemma_first_occ_pub(s, lt@, pos + 1);
        }
        let next = match find_bytes_from(bytes, lt.as_slice(), pos + 1) {
            Some(k) => k,
            None => len,
        };
        proof {
            if next < len {
                assert(s.subrange(next as int, next + 1)[0] == s[next as int]);
            }
        }
        let ghost st = old(self).state(ss, su, stk);
        if !self.emit_data(pos, next) {
            assert(text_branch(s, pos as int, st) is None);
            return None;
        }
        proof {
            let toks = data_tokens(s, pos as int, next as int, st.kind)->0;
            assert(text_branch(s, pos as int, st) == Some((ScanState { tt: st.tt + toks, ..st }, next as int)));
            assert(self.tt() == st.tt + toks);
            assert(self.sc() == st.sc);
        }
        Some(next)
    }
}

impl<'a> VueParser<'a> {
    /// Scans the whole source; `false` where the scan cannot go on.
    fn parse_tokens(&mut self) -> (ok: bool)
        requires
            old(self).fits(),
            is_state(*old(self), false, false, seq![], start_state()),
        ensures
            ok == scan_from(old(self).s(), 0, start_state()) is Some,
            ok ==> {
                let r = scan_from(old(self).s(), 0, start_state())->0;
                &&& final(self).tt() == r.tt
                &&& final(self).sc() == r.sc
                &&& comments_view(final(self).sfc.template_comments@) == r.cm
                &&& final(self).sfc.source_type == r.kind
            },
            final(self).source_text == old(self).source_text,
    {
        let ghost s = self.s();
        let mut seen_script = false;
        let mut seen_setup = false;
        let mut stack: Vec<String> = Vec::new();
        let len = self.source_text.as_bytes().len();
        let mut pos: usize = 0;
        assert(stack_view(stack@) =~= Seq::<Seq<char>>::empty());
        while pos < len
            invariant
                s == self.s(),
                len == s.len(),
                self.fits(),
                pos <= len,
                ascii_adjacent(s, pos as int),
                self.source_text == old(self).source_text,
                scan_from(s, 0, start_state()) == scan_from(
                    s,
                    pos as int,
                    self.state(seen_script, seen_setup, stack@),
                ),
            decreases len - pos,
        {
            let ghost st = self.state(seen_script, seen_setup, stack@);
            proof {
                crate::scan::lemma_scan_step(s, pos as int, st);
            }
            match self.scan_step_at(pos, &mut seen_script, &mut seen_setup, &mut stack) {
                None => {
                    return false;
                },
                Some(q) => {
                    proof {
                        let st2 = (scan_step(s, pos as int, st)->0).0;
                        assert(self.state(seen_script, seen_setup, stack@) == st2);
                    }
                    pos = q;
                },
            }
        }
        true
    }
}

/// The number of bytes that encode `c`.
pub open spec fn char_len(c: char) -> int {
    encode_utf8(seq![c]).len() as int
}

/// The spans of the irregular whitespace characters of `cs`, whose first
/// character starts at byte `off`.
pub open spec fn irregular_spans(cs: Seq<char>, off: int) -> Seq<(int, int)>
    decreases cs.len(),
{
    if cs.len() == 0 {
        seq![]
    } else {
        let l = char_len(cs[0]);
        (if is_irregular_ws(cs[0]) {
            seq![(off, off + l)]
        } else {
            seq![]
        }) + irregular_spans(cs.drop_first(), off + l)
    }
}

pub open spec fn spans_view(v: Seq<Span>) -> Seq<(int, int)> {
    v.map_values(|sp: Span| (sp.start as int, sp.end as int))
}

/// `char::len_utf8`: the bytes that encode `c`.
fn utf8_len(c: char) -> (r: u32)
    ensures
        r == char_len(c),
        1 <= r <= 4,
{
    let u = c as u32;
    proof {
        assert(seq![c].drop_first() =~= Seq::<char>::empty());
        assert(encode_utf8(seq![c]) == encode_scalar(c as u32) + encode_utf8(Seq::<char>::empty()));
    }
    if u < 0x80 {
        1
    } else if u < 0x800 {
        2
    } else if u < 0x10000 {
        3
    } else {
        4
    }
}

proof fn lemma_irregular_split(cs: Seq<char>, k: int, off: int)
    requires
        0 <= k < cs.len(),
    ensures
        irregular_spans(cs.skip(k), off) == (if is_irregular_ws(cs[k]) {
            seq![(off, off + char_len(cs[k]))]
        } else {
            seq![]
        }) + irregular_spans(cs.skip(k + 1), off + char_len(cs[k])),
{
    assert(cs.skip(k).drop_first() =~= cs.skip(k + 1));
    assert(cs.skip(k)[0] == cs[k]);
}

proof fn lemma_encode_take(cs: Seq<char>, k: int)
    requires
        0 <= k < cs.len(),
    ensures
        encode_utf8(cs.take(k + 1)).len() == encode_utf8(cs.take(k)).len() + char_len(cs[k]),
        encode_utf8(cs.take(k + 1)).len() <= encode_utf8(cs).len(),
{
    crate::emit::lemma_encode_concat(cs.take(k), seq![cs[k]]);
    assert(cs.take(k + 1) =~= cs.take(k) + seq![cs[k]]);
    crate::emit::lemma_encode_concat(cs.take(k + 1), cs.skip(k + 1));
    assert(cs =~= cs.take(k + 1) + cs.skip(k + 1));
}

/// `span` is the bytes of a character of `cs` that `is_irregular_ws`
/// holds of, where the first character of `cs` starts at byte `off`.
pub open spec fn is_irregular_char_span(cs: Seq<char>, off: int, span: (int, int)) -> bool {
    exists|k: int|
        0 <= k < cs.len() && is_irregular_ws(#[trigger] cs[k]) && span.0 == off + encode_utf8(cs.take(k)).len()
            && span.1 == span.0 + char_len(cs[k])
}

proof fn lemma_irregular_complete(cs: Seq<char>, off: int)
    ensures
        forall|k: int|
            0 <= k < cs.len() && is_irregular_ws(#[trigger] cs[k]) ==> irregular_spans(cs, off).contains(
                (off + encode_utf8(cs.take(k)).len(), off + encode_utf8(cs.take(k)).len() + char_len(cs[k])),
            ),
    decreases cs.len(),
{
    if cs.len() > 0 {
        let rest = cs.drop_first();
        let l = char_len(cs[0]);
        lemma_irregular_complete(rest, off + l);
        let head: Seq<(int, int)> = if is_irregular_ws(cs[0]) {
            seq![(off, off + l)]
        } else {
            seq![]
        };
        let tail = irregular_spans(rest, off + l);
        let sp = irregular_spans(cs, off);
        assert(sp == head + tail);
        assert forall|k: int| 0 <= k < cs.len() && is_irregular_ws(#[trigger] cs[k]) implies sp.contains(
            (off + encode_utf8(cs.take(k)).len(), off + encode_utf8(cs.take(k)).len() + char_len(cs[k])),
        ) by {
            if k == 0 {
                assert(cs.take(0) =~= Seq::<char>::empty());
                assert(sp[0] == (off, off + l));
            } else {
                assert(rest[k - 1] == cs[k]);
                assert(tail.contains(
                    (off + l + encode_utf8(rest.take(k - 1)).len(), off + l + encode_utf8(rest.take(k - 1)).len() + char_len(rest[k - 1])),
                ));
                let x = choose|x: int| 0 <= x < tail.len() && tail[x] == (off + l + encode_utf8(rest.take(k - 1)).len(), off + l + encode_utf8(rest.take(k - 1)).len() + char_len(rest[k - 1]));
                crate::emit::lemma_encode_concat(seq![cs[0]], rest.take(k - 1));
                assert(cs.take(k) =~= seq![cs[0]] + rest.take(k - 1));
                assert(sp[head.len() + x] == tail[x]);
            }
        }
    }
}

proof fn lemma_irregular_ordered(cs: Seq<char>, off: int)
    ensures
        ({
            let sp = irregular_spans(cs, off);
            &&& forall|i: int|
                0 <= i < sp.len() ==> off <= #[trigger] sp[i].0 < sp[i].1 <= off + encode_utf8(cs).len()
            &&& forall|i: int, j: int| 0 <= i < j < sp.len() ==> #[trigger] sp[i].1 <= #[trigger] sp[j].0
            &&& forall|i: int| 0 <= i < sp.len() ==> is_irregular_char_span(cs, off, #[trigger] sp[i])
        }),
    decreases cs.len(),
{
    if cs.len() > 0 {
        let rest = cs.drop_first();
        let l = char_len(cs[0]);
        lemma_irregular_ordered(rest, off + l);
        crate::emit::lemma_encode_concat(seq![cs[0]], rest);
        assert(cs =~= seq![cs[0]] + rest);
        assert(encode_utf8(cs).len() == l + encode_utf8(rest).len());
        assert(l >= 1) by {
            assert(seq![cs[0]].drop_first() =~= Seq::<char>::empty());
        }
        let head: Seq<(int, int)> = if is_irregular_ws(cs[0]) {
            seq![(off, off + l)]
        } else {
            seq![]
        };
        let tail = irregular_spans(rest, off + l);
        let sp = irregular_spans(cs, off);
        assert(sp == head + tail);
        assert forall|i: int| 0 <= i < sp.len() implies off <= #[trigger] sp[i].0 < sp[i].1 <= off + encode_utf8(
            cs,
        ).len() by {
            if i >= head.len() {
                assert(sp[i] == tail[i - head.len()]);
            }
        }
        assert forall|i: int, j: int| 0 <= i < j < sp.len() implies #[trigger] sp[i].1 <= #[trigger] sp[j].0 by {
            assert(sp[j] == tail[j - head.len()]);
            if i >= head.len() {
                assert(sp[i] == tail[i - head.len()]);
            }
        }
        assert forall|i: int| 0 <= i < sp.len() implies is_irregular_char_span(cs, off, #[trigger] sp[i]) by {
            if i < head.len() {
                assert(cs.take(0) =~= Seq::<char>::empty());
                assert(sp[i].0 == off + encode_utf8(cs.take(0)).len());
                assert(is_irregular_ws(cs[0]));
            } else {
                let t = i - head.len();
                assert(sp[i] == tail[t]);
                assert(is_irregular_char_span(rest, off + l, tail[t]));
                let k = choose|k: int|
                    0 <= k < rest.len() && is_irregular_ws(#[trigger] rest[k]) && tail[t].0 == off + l
                        + encode_utf8(rest.take(k)).len() && tail[t].1 == tail[t].0 + char_len(rest[k]);
                crate::emit::lemma_encode_concat(seq![cs[0]], rest.take(k));
                assert(cs.take(k + 1) =~= seq![cs[0]] + rest.take(k));
                assert(cs[k + 1] == rest[k]);
                assert(is_irregular_ws(cs[k + 1]));
            }
        }
    } else {
        assert(irregular_spans(cs, off) =~= Seq::<(int, int)>::empty());
    }
}

/// Law: the irregular whitespace spans come in source order without
/// overlap, each lies inside the text, each is exactly the bytes of one
/// character that `is_irregular_ws` holds of, and every such character has
/// its span.
pub proof fn irregular_spans_are_ordered_characters(cs: Seq<char>, off: int)
    ensures
        ({
            let sp = irregular_spans(cs, off);
            &&& forall|i: int|
                0 <= i < sp.len() ==> off <= #[trigger] sp[i].0 < sp[i].1 <= off + encode_utf8(cs).len()
            &&& forall|i: int, j: int| 0 <= i < j < sp.len() ==> #[trigger] sp[i].1 <= #[trigger] sp[j].0
            &&& forall|i: int| 0 <= i < sp.len() ==> is_irregular_char_span(cs, off, #[trigger] sp[i])
            &&& forall|k: int|
                0 <= k < cs.len() && is_irregular_ws(#[trigger] cs[k]) ==> sp.contains(
                    (off + encode_utf8(cs.take(k)).len(), off + encode_utf8(cs.take(k)).len() + char_len(cs[k])),
                )
        }),
{
    lemma_irregular_ordered(cs, off);
    lemma_irregular_complete(cs, off);
}

/// The byte spans of the characters of `source_text` that oxc reports as
/// irregular whitespace.
pub fn collect_irregular_whitespaces(source_text: &str) -> (r: Vec<Span>)
    requires
        source_text.spec_bytes().len() <= u32::MAX,
    ensures
        spans_view(r@) == irregular_spans(source_text@, 0),
{
    let ghost cs = source_text@;
    let mut out: Vec<Span> = Vec::new();
    let mut offset: u32 = 0;
    let n = source_text.unicode_len();
    let mut it = source_text.chars();
    let mut k: usize = 0;
    assert(cs.skip(0) =~= cs);
    assert(cs.take(0) =~= Seq::<char>::empty());
    while k < n
        invariant
            n == cs.len(),
            k <= n,
            cs == source_text@,
            encode_utf8(cs).len() <= u32::MAX,
            it.remaining() == cs.skip(k as int),
            it.obeys_prophetic_iter_laws(),
            offset == encode_utf8(cs.take(k as int)).len(),
            spans_view(out@) + irregular_spans(cs.skip(k as int), offset as int) == irregular_spans(cs, 0),
        decreases n - k,
    {
        let c = match it.next() {
            Some(c) => c,
            None => {
                assert(false);
                return out;
            },
        };
        assert(c == cs[k as int]);
        let l = utf8_len(c);
        proof {
            lemma_encode_take(cs, k as int);
            lemma_irregular_split(cs, k as int, offset as int);
        }
        let ghost before = out@;
        if is_irregular_whitespace(c) {
            out.push(Span::sized(offset, l));
            assert(spans_view(out@) =~= spans_view(before).push((offset as int, offset + l)));
        }
        offset = offset + l;
        k += 1;
        proof {
            assert(cs.skip(k - 1).drop_first() =~= cs.skip(k as int));
            assert(spans_view(out@) + irregular_spans(cs.skip(k as int), offset as int) =~= spans_view(before)
                + irregular_spans(cs.skip(k - 1), offset - l));
        }
    }
    assert(cs.skip(n as int) =~= Seq::<char>::empty());
    assert(irregular_spans(cs.skip(n as int), offset as int) =~= Seq::<(int, int)>::empty());
    assert(spans_view(out@) + Seq::<(int, int)>::empty() =~= spans_view(out@));
    out
}

/// What a parse hands back: the tokens and comments of the component, the
/// irregular whitespace in it and what the JavaScript tokenizer reported.
pub struct VueParserReturn<'a> {
    pub sfc: Sfc<'a>,
    pub irregular_whitespaces: Vec<Span>,
    pub errors: Vec<oxc_diagnostics::OxcDiagnostic>,
    pub panicked: bool,
}

impl<'a> VueParser<'a> {
    /// A parser over `source_text` that has produced nothing yet.
    pub fn new(source_text: &'a str) -> (r: VueParser<'a>)
        ensures
            r.source_text == source_text,
            r.sfc.template_tokens@.len() == 0,
            r.sfc.script_tokens@.len() == 0,
            r.sfc.template_comments@.len() == 0,
            r.sfc.script_comments@.len() == 0,
            r.errors@.len() == 0,
            r.sfc.source_type == mjs_kind(),
    {
        VueParser {
            source_text,
            sfc: Sfc {
                source_type: SourceKind::mjs(),
                template_tokens: Vec::new(),
                script_tokens: Vec::new(),
                template_comments: Vec::new(),
                script_comments: Vec::new(),
            },
            errors: Vec::new(),
        }
    }

    /// Tokenizes the whole component: the template and block tokens, the
    /// script tokens, the comments, and the irregular whitespace.
    pub fn parse(self) -> (r: VueParserReturn<'a>)
        requires
            self.fits(),
            self.sfc.template_tokens@.len() == 0,
            self.sfc.script_tokens@.len() == 0,
            self.sfc.template_comments@.len() == 0,
            scan_from(self.s(), 0, start_state()) is Some,
        ensures
            ({
                let res = scan_from(self.s(), 0, start_state())->0;
                &&& toks_view(r.sfc.template_tokens@) == res.tt
                &&& toks_view(r.sfc.script_tokens@) == res.sc
                &&& comments_view(r.sfc.template_comments@) == res.cm
                &&& r.sfc.source_type == res.kind
            }),
            spans_view(r.irregular_whitespaces@) == irregular_spans(self.source_text@, 0),
            !r.panicked,
            toks_within(toks_view(r.sfc.template_tokens@), 0, self.s().len() as int),
            toks_within(toks_view(r.sfc.script_tokens@), 0, self.s().len() as int),
            comments_within(comments_view(r.sfc.template_comments@), self.s().len() as int),
    {
        proof {
            scan_spans_lie_in_source(self.s());
        }
        let mut me = self;
        me.sfc.source_type = SourceKind::mjs();
        proof {
            assert(toks_view(me.sfc.template_tokens@) =~= Seq::<TokView>::empty());
            assert(toks_view(me.sfc.script_tokens@) =~= Seq::<TokView>::empty());
            assert(comments_view(me.sfc.template_comments@) =~= Seq::<(CommentKind, int, int, Seq<u8>)>::empty());
            assert(stack_view(Seq::<String>::empty()) =~= Seq::<Seq<char>>::empty());
        }
        let _ = me.parse_tokens();
        let irregular_whitespaces = collect_irregular_whitespaces(me.source_text);
        VueParserReturn { sfc: me.sfc, irregular_whitespaces, errors: me.errors, panicked: false }
    }
}

/// Tokenizes `source_text` where the scan can run to the end, and `None`
/// where it cannot (a stray `&` in an RCDATA body, a `<` as the last byte,
/// text that runs on from a tag into a multi-byte character).
pub fn try_parse<'a>(source_text: &'a str) -> (r: Option<VueParserReturn<'a>>)
    ensures
        r is Some <==> (source_text.spec_bytes().len() <= u32::MAX && scan_from(source_text.spec_bytes(), 0, start_state()) is Some),
        r is Some ==> ({
            let res = scan_from(source_text.spec_bytes(), 0, start_state())->0;
            let out = r->0;
            &&& toks_view(out.sfc.template_tokens@) == res.tt
            &&& toks_view(out.sfc.script_tokens@) == res.sc
            &&& comments_view(out.sfc.template_comments@) == res.cm
            &&& out.sfc.source_type == res.kind
            &&& spans_view(out.irregular_whitespaces@) == irregular_spans(source_text@, 0)
            &&& !out.panicked
        }),
{
    if source_text.as_bytes().len() > 0xffff_ffff {
        return None;
    }
    let mut probe = VueParser::new(source_text);
    proof {
        assert(toks_view(probe.sfc.template_tokens@) =~= Seq::<TokView>::empty());
        assert(toks_view(probe.sfc.script_tokens@) =~= Seq::<TokView>::empty());
        assert(comments_view(probe.sfc.template_comments@) =~= Seq::<(CommentKind, int, int, Seq<u8>)>::empty());
        assert(stack_view(Seq::<String>::empty()) =~= Seq::<Seq<char>>::empty());
    }
    if probe.parse_tokens() {
        Some(VueParser::new(source_text).parse())
    } else {
        None
    }
}

} // verus!
