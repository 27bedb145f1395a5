//! The template and script token streams of a component, and the byte
//! scanning that the token scanner is built from: tags, character
//! references, element classes and the open-element stack, `v-for`
//! splitting and the `lang` attribute.
use vstd::prelude::*;
use vstd::string::StringSliceAdditionalSpecFns;
use vstd::string::StrSliceExecFns;
use vstd::utf8::*;

use crate::ast::SourceKind;
use crate::json::{find_bytes_from, first_occ_from};
use crate::oxc::occurs_at;
use crate::scanner::eq_bytes;
use crate::span::Span;
use crate::text::{
    ascii_adjacent, ascii_lowercase, eq_ignore_case_at, lower_char, slice_between_ascii, starts_with_at,
    is_alnum, is_ascii_alphanumeric, is_ascii_whitespace, is_ws, lower, seq_eq_ignore_case,
    is_unicode_ws,
};

verus! {

broadcast use vstd::string::group_string_axioms, vstd::utf8::encode_utf8_valid_utf8;

// ---------------------------------------------------------------------------
// Tokens
// ---------------------------------------------------------------------------
#[derive(Clone, Copy, Debug, PartialEq, Eq, Structural)]
pub enum VTokenKind {
    HTMLTagOpen,
    HTMLEndTagOpen,
    HTMLTagClose,
    HTMLSelfClosingTagClose,
    HTMLIdentifier,
    HTMLAssociation,
    HTMLLiteral,
    HTMLWhitespace,
    HTMLText,
    HTMLRawText,
    HTMLRCDataText,
    HTMLCDataText,
    Punctuator,
    VExpressionStart,
    VExpressionEnd,
}

/// A token of the template or script stream.
#[derive(Clone, Debug)]
pub struct VToken {
    pub kind: VTokenKind,
    pub span: Span,
    pub value: Option<String>,
}

/// An entry of a token stream: one token, or a run of ESTree token
/// objects (comma-separated JSON) that the JavaScript tokenizer produced.
#[derive(Clone, Debug)]
pub enum SerializableToken {
    Token(VToken),
    Json(String),
}

#[derive(Clone, Copy, Debug, PartialEq, Eq, Structural)]
pub enum CommentKind {
    HTMLComment,
    HTMLBogusComment,
}

/// An HTML comment (`<!-- -->`) or bogus comment (`<! >`, `<? >`).
#[derive(Clone, Debug)]
pub struct VComment<'a> {
    pub kind: CommentKind,
    pub value: &'a str,
    pub span: Span,
}

/// A token as the contracts see it.
pub enum TokView {
    Tok(VTokenKind, int, int, Option<Seq<char>>),
    Json(Seq<char>),
}

pub open spec fn tok_view(t: SerializableToken) -> TokView {
    match t {
        SerializableToken::Token(v) => TokView::Tok(
            v.kind,
            v.span.start as int,
            v.span.end as int,
            match v.value {
                Some(x) => Some(x@),
                None => None,
            },
        ),
        SerializableToken::Json(j) => TokView::Json(j@),
    }
}

pub open spec fn toks_view(v: Seq<SerializableToken>) -> Seq<TokView> {
    v.map_values(|t: SerializableToken| tok_view(t))
}

/// A comment as the contracts see it: its kind, its span and the range of
/// its text.
pub open spec fn comment_view(c: VComment) -> (CommentKind, int, int, Seq<u8>) {
    (c.kind, c.span.start as int, c.span.end as int, c.value.spec_bytes())
}

pub open spec fn comments_view(v: Seq<VComment>) -> Seq<(CommentKind, int, int, Seq<u8>)> {
    v.map_values(|c: VComment| comment_view(c))
}

/// The text of the bytes `[a, b)` of `s`.
pub open spec fn dec(s: Seq<u8>, a: int, b: int) -> Seq<char> {
    decode_utf8(s.subrange(a, b))
}

// ---------------------------------------------------------------------------
// Byte scanning
// ---------------------------------------------------------------------------
/// First index at or after `p`, and before `end`, that is not ASCII
/// whitespace (or `end`).
pub open spec fn ws_to(s: Seq<u8>, p: int, end: int) -> int
    decreases end - p,
{
    if p < end && 0 <= p < s.len() && is_ws(s[p]) {
        ws_to(s, p + 1, end)
    } else {
        p
    }
}

/// `end` moved back over trailing ASCII whitespace, not below `start`.
pub open spec fn trim_to(s: Seq<u8>, start: int, end: int) -> int
    decreases end - start,
{
    if end > start && 0 < end <= s.len() && is_ws(s[end - 1]) {
        trim_to(s, start, end - 1)
    } else {
        end
    }
}

/// Where a quoted run that started before `p` ends: past its closing
/// quote `q`, with `\` escaping the next byte; at `end` when unclosed.
pub open spec fn quoted_end(s: Seq<u8>, p: int, end: int, q: u8) -> int
    decreases end - p,
{
    if p >= end || p < 0 || p >= s.len() {
        p
    } else if s[p] == 0x5c {
        quoted_end(
            s,
            if p + 2 < end {
                p + 2
            } else {
                end
            },
            end,
            q,
        )
    } else if s[p] == q {
        p + 1
    } else {
        quoted_end(s, p + 1, end, q)
    }
}

/// The first index in `[start, end)` that holds `b`.
pub open spec fn find_in(s: Seq<u8>, start: int, end: int, b: u8) -> Option<int>
    decreases end - start,
{
    if start >= end || start < 0 || start >= s.len() {
        None
    } else if s[start] == b {
        Some(start)
    } else {
        find_in(s, start + 1, end, b)
    }
}

pub proof fn lemma_ws_to(s: Seq<u8>, p: int, end: int)
    requires
        0 <= p <= end <= s.len(),
    ensures
        p <= ws_to(s, p, end) <= end,
        ws_to(s, p, end) < end ==> !is_ws(s[ws_to(s, p, end)]),
        forall|k: int| p <= k < ws_to(s, p, end) ==> is_ws(#[trigger] s[k]),
    decreases end - p,
{
    if p < end && is_ws(s[p]) {
        lemma_ws_to(s, p + 1, end);
    }
}

pub proof fn lemma_trim_to(s: Seq<u8>, start: int, end: int)
    requires
        0 <= start <= end <= s.len(),
    ensures
        start <= trim_to(s, start, end) <= end,
        trim_to(s, start, end) > start ==> !is_ws(s[trim_to(s, start, end) - 1]),
        forall|k: int| trim_to(s, start, end) <= k < end ==> is_ws(#[trigger] s[k]),
    decreases end - start,
{
    if end > start && is_ws(s[end - 1]) {
        lemma_trim_to(s, start, end - 1);
    }
}

pub proof fn lemma_quoted_end(s: Seq<u8>, p: int, end: int, q: u8)
    requires
        0 <= p <= end <= s.len(),
    ensures
        p <= quoted_end(s, p, end, q) <= end,
    decreases end - p,
{
    if p < end {
        if s[p] == 0x5c {
            lemma_quoted_end(
                s,
                if p + 2 < end {
                    p + 2
                } else {
                    end
                },
                end,
                q,
            );
        } else if s[p] != q {
            lemma_quoted_end(s, p + 1, end, q);
        }
    }
}

pub proof fn lemma_find_in(s: Seq<u8>, start: int, end: int, b: u8)
    ensures
        find_in(s, start, end, b) matches Some(k) ==> start <= k < end && 0 <= k < s.len() && s[k]
            == b,
    decreases end - start,
{
    if start < end && 0 <= start < s.len() && s[start] != b {
        lemma_find_in(s, start + 1, end, b);
    }
}

/// What the token scanner fills in for a component.
pub struct Sfc<'a> {
    /// The source type that script regions are read with.
    pub source_type: SourceKind,
    pub template_tokens: Vec<SerializableToken>,
    pub script_tokens: Vec<SerializableToken>,
    pub template_comments: Vec<VComment<'a>>,
    /// Comments that the JavaScript tokenizer reported.
    pub script_comments: Vec<oxc_ast::Comment>,
}

/// The token scanner over a component source.
pub struct VueParser<'a> {
    pub source_text: &'a str,
    pub sfc: Sfc<'a>,
    /// Diagnostics that the JavaScript tokenizer reported.
    pub errors: Vec<oxc_diagnostics::OxcDiagnostic>,
}

impl<'a> VueParser<'a> {
    pub open spec fn s(&self) -> Seq<u8> {
        self.source_text.spec_bytes()
    }

    pub fn byte(&self, pos: usize) -> (r: u8)
        requires
            pos < self.s().len(),
        ensures
            r == self.s()[pos as int],
    {
        self.source_text.as_bytes()[pos]
    }

    pub fn skip_ws(&self, pos: usize, end: usize) -> (r: usize)
        requires
            pos <= end <= self.s().len(),
        ensures
            r == ws_to(self.s(), pos as int, end as int),
    {
        let mut p = pos;
        while p < end && is_ascii_whitespace(self.byte(p))
            invariant
                pos <= p <= end <= self.s().len(),
                ws_to(self.s(), pos as int, end as int) == ws_to(self.s(), p as int, end as int),
            decreases end - p,
        {
            p += 1;
        }
        p
    }

    pub fn trim_end_ws(&self, start: usize, end: usize) -> (r: usize)
        requires
            start <= end <= self.s().len(),
        ensures
            r == trim_to(self.s(), start as int, end as int),
    {
        let mut e = end;
        while e > start && is_ascii_whitespace(self.byte(e - 1))
            invariant
                start <= e <= end <= self.s().len(),
                trim_to(self.s(), start as int, end as int) == trim_to(self.s(), start as int, e as int),
            decreases e - start,
        {
            e -= 1;
        }
        e
    }

    /// Skips the quoted run that starts at `pos` (its quote), honouring
    /// `\` escapes; an unclosed run ends at `end`.
    pub fn skip_quoted(&self, pos: usize, end: usize) -> (r: usize)
        requires
            pos < end <= self.s().len(),
        ensures
            r == quoted_end(self.s(), pos + 1, end as int, self.s()[pos as int]),
    {
        let quote = self.byte(pos);
        self.skip_to_close(pos + 1, end, quote)
    }

    /// Skips the template literal that starts at `pos` (its backquote).
    pub fn skip_template_literal(&self, pos: usize, end: usize) -> (r: usize)
        requires
            pos < end <= self.s().len(),
        ensures
            r == quoted_end(self.s(), pos + 1, end as int, 0x60),
    {
        self.skip_to_close(pos + 1, end, 0x60)
    }

    fn skip_to_close(&self, from: usize, end: usize, q: u8) -> (r: usize)
        requires
            from <= end <= self.s().len(),
        ensures
            r == quoted_end(self.s(), from as int, end as int, q),
    {
        let mut p = from;
        while p < end
            invariant
                from <= p <= end <= self.s().len(),
                quoted_end(self.s(), from as int, end as int, q) == quoted_end(
                    self.s(),
                    p as int,
                    end as int,
                    q,
                ),
            decreases end - p,
        {
            let b = self.byte(p);
            if b == 0x5c {
                p = if end - p > 2 {
                    p + 2
                } else {
                    end
                };
            } else if b == q {
                return p + 1;
            } else {
                p += 1;
            }
        }
        p
    }

    /// The first index in `[start, end)` that holds `b`.
    pub fn find_byte(&self, start: usize, end: usize, b: u8) -> (r: Option<usize>)
        requires
            start <= end <= self.s().len(),
        ensures
            r == (match find_in(self.s(), start as int, end as int, b) {
                Some(k) => Some(k as usize),
                None => None,
            }),
    {
        let mut p = start;
        while p < end
            invariant
                start <= p <= end <= self.s().len(),
                find_in(self.s(), start as int, end as int, b) == find_in(
                    self.s(),
                    p as int,
                    end as int,
                    b,
                ),
            decreases end - p,
        {
            if self.byte(p) == b {
                return Some(p);
            }
            p += 1;
        }
        None
    }
}

// ---------------------------------------------------------------------------
// Tags, references and element classes
// ---------------------------------------------------------------------------
/// The first `i` in `[i0, last]` where `n` stands at `i` up to ASCII case.
pub open spec fn ci_from(s: Seq<u8>, n: Seq<u8>, i: int, last: int) -> Option<int>
    decreases last + 1 - i,
{
    if i > last || i < 0 {
        None
    } else if seq_eq_ignore_case(s.subrange(i, i + n.len()), n) {
        Some(i)
    } else {
        ci_from(s, n, i + 1, last)
    }
}

/// Where `n` first occurs, ASCII case ignored, at or after `start`.
pub open spec fn find_ci(s: Seq<u8>, start: int, n: Seq<u8>) -> Option<int> {
    if n.len() == 0 || start + n.len() > s.len() {
        None
    } else {
        ci_from(s, n, start, s.len() - n.len())
    }
}

/// The ASCII letters and digits from `p`, before `end`.
pub open spec fn alnum_to(s: Seq<u8>, p: int, end: int) -> int
    decreases end - p,
{
    if p < end && 0 <= p < s.len() && is_alnum(s[p]) {
        alnum_to(s, p + 1, end)
    } else {
        p
    }
}

/// The character reference `&name;` at `start`, limited to `end`: where
/// it ends and the text it stands for. Only `amp`, `lt`, `gt`, `quot` and
/// `apos` are known.
pub open spec fn char_ref(s: Seq<u8>, start: int, end: int) -> Option<(int, Seq<char>)> {
    let ne = alnum_to(s, start + 1, end);
    if ne >= end || s[ne] != 0x3b {
        None
    } else {
        let name = s.subrange(start + 1, ne);
        if name == "amp".spec_bytes() {
            Some((ne + 1, seq!['&']))
        } else if name == "lt".spec_bytes() {
            Some((ne + 1, seq!['<']))
        } else if name == "gt".spec_bytes() {
            Some((ne + 1, seq!['>']))
        } else if name == "quot".spec_bytes() {
            Some((ne + 1, seq!['"']))
        } else if name == "apos".spec_bytes() {
            Some((ne + 1, seq!['\'']))
        } else {
            None
        }
    }
}

pub open spec fn is_scan_name_part(b: u8) -> bool {
    is_alnum(b) || b == 0x2d || b == 0x5f || b == 0x2e
}

pub open spec fn scan_name_end(s: Seq<u8>, p: int) -> int
    decreases s.len() - p,
{
    if 0 <= p < s.len() && is_scan_name_part(s[p]) {
        scan_name_end(s, p + 1)
    } else {
        p
    }
}

/// The `>` that ends a tag whose name ends before `p`; quoted values are
/// skipped, and an unclosed quote means there is none.
pub open spec fn gt_from(s: Seq<u8>, p: int) -> Option<int>
    decreases s.len() - p,
{
    if p < 0 || p >= s.len() {
        None
    } else if s[p] == 0x27 || s[p] == 0x22 {
        match find_in(s, p + 1, s.len() as int, s[p]) {
            None => None,
            Some(k) => {
                proof {
                    lemma_find_in(s, p + 1, s.len() as int, s[p]);
                }
                gt_from(s, k + 1)
            },
        }
    } else if s[p] == 0x3e {
        Some(p)
    } else {
        gt_from(s, p + 1)
    }
}

/// A tag as the scanner reads it: where its name lies, the index of its
/// `>`, whether it is an end tag, and whether it ends with `/>`.
pub struct TagModel {
    pub name_start: int,
    pub name_end: int,
    pub tag_end: int,
    pub is_end: bool,
    pub self_closing: bool,
}

/// The tag whose `<` is at `start` (a byte follows it).
pub open spec fn tag_at(s: Seq<u8>, start: int) -> Option<TagModel> {
    let is_end = s[start + 1] == 0x2f;
    let ns = if is_end {
        start + 2
    } else {
        start + 1
    };
    let ne = scan_name_end(s, ns);
    if ne == ns {
        None
    } else {
        match gt_from(s, ne) {
            None => None,
            Some(te) => {
                let cp = trim_to(s, ne, te);
                Some(
                    TagModel {
                        name_start: ns,
                        name_end: ne,
                        tag_end: te,
                        is_end,
                        self_closing: cp > ne && s[cp - 1] == 0x2f,
                    },
                )
            },
        }
    }
}

/// A tag that the scanner read.
#[derive(Clone, Copy, Debug)]
pub struct TagInfo {
    pub name_start: usize,
    pub name_end: usize,
    pub tag_end: usize,
    pub is_end: bool,
    pub is_self_closing: bool,
}

pub open spec fn tag_is(t: TagInfo, m: TagModel) -> bool {
    &&& t.name_start == m.name_start
    &&& t.name_end == m.name_end
    &&& t.tag_end == m.tag_end
    &&& t.is_end == m.is_end
    &&& t.is_self_closing == m.self_closing
}

pub open spec fn is_raw_text_name(n: Seq<u8>) -> bool {
    ||| n == "script".spec_bytes()
    ||| n == "style".spec_bytes()
    ||| n == "xmp".spec_bytes()
    ||| n == "iframe".spec_bytes()
    ||| n == "noembed".spec_bytes()
    ||| n == "noframes".spec_bytes()
    ||| n == "noscript".spec_bytes()
    ||| n == "plaintext".spec_bytes()
}

pub open spec fn is_rcdata_name(n: Seq<u8>) -> bool {
    n == "textarea".spec_bytes() || n == "title".spec_bytes()
}

pub open spec fn is_foreign_name(n: Seq<char>) -> bool {
    n == seq!['s', 'v', 'g'] || n == seq!['m', 'a', 't', 'h']
}

/// The names of the open elements, innermost last.
pub open spec fn stack_view(v: Seq<String>) -> Seq<Seq<char>> {
    v.map_values(|x: String| x@)
}

/// Whether an element whose name is `svg` or `math` is open.
pub fn is_foreign_content(element_stack: &[String]) -> (r: bool)
    ensures
        r == exists|i: int|
            0 <= i < element_stack@.len() && is_foreign_name(#[trigger] stack_view(element_stack@)[i]),
{
    let mut i = element_stack.len();
    while i > 0
        invariant
            i <= element_stack@.len(),
            forall|j: int|
                i <= j < element_stack@.len() ==> !is_foreign_name(#[trigger] stack_view(element_stack@)[j]),
        decreases i,
    {
        i -= 1;
        let b = element_stack[i].as_str().as_bytes();
        let hit = eq_bytes(b, "svg".as_bytes()) || eq_bytes(b, "math".as_bytes());
        proof {
            reveal_strlit("svg");
            reveal_strlit("math");
            let n = element_stack@[i as int]@;
            assert(stack_view(element_stack@)[i as int] == n);
            encode_utf8_decode_utf8(n);
            encode_utf8_decode_utf8(seq!['s', 'v', 'g']);
            encode_utf8_decode_utf8(seq!['m', 'a', 't', 'h']);
            assert("svg"@ == seq!['s', 'v', 'g']);
            assert("math"@ == seq!['m', 'a', 't', 'h']);
        }
        if hit {
            return true;
        }
    }
    false
}

/// The last index below `i` of the stack that holds `name`.
pub open spec fn last_index_of(stack: Seq<Seq<char>>, name: Seq<char>, i: int) -> Option<int>
    decreases i,
{
    if i <= 0 {
        None
    } else if stack[i - 1] == name {
        Some(i - 1)
    } else {
        last_index_of(stack, name, i - 1)
    }
}

/// The stack after the end tag of `name`: the innermost open element of
/// that name is closed with everything opened inside it; nothing happens
/// when none is open.
pub open spec fn popped(stack: Seq<Seq<char>>, name: Seq<char>) -> Seq<Seq<char>> {
    match last_index_of(stack, name, stack.len() as int) {
        Some(k) => stack.subrange(0, k),
        None => stack,
    }
}

proof fn lemma_last_index_of(stack: Seq<Seq<char>>, name: Seq<char>, i: int)
    requires
        i <= stack.len(),
    ensures
        last_index_of(stack, name, i) matches Some(k) ==> 0 <= k < i && stack[k] == name && forall|j: int|
            k < j < i ==> #[trigger] stack[j] != name,
        last_index_of(stack, name, i) is None ==> forall|j: int| 0 <= j < i ==> #[trigger] stack[j] != name,
    decreases i,
{
    if i > 0 && stack[i - 1] != name {
        lemma_last_index_of(stack, name, i - 1);
    }
}

/// Law: an end tag leaves a prefix of the open elements. When an element of
/// that name is open, exactly the innermost one and everything opened after
/// it are closed; otherwise the stack is unchanged.
pub proof fn end_tag_closes_innermost(stack: Seq<Seq<char>>, name: Seq<char>)
    ensures
        popped(stack, name).len() <= stack.len(),
        popped(stack, name) == stack.subrange(0, popped(stack, name).len() as int),
        stack.contains(name) ==> {
            let k = popped(stack, name).len() as int;
            &&& stack[k] == name
            &&& forall|j: int| k < j < stack.len() ==> #[trigger] stack[j] != name
        },
        !stack.contains(name) ==> popped(stack, name) == stack,
{
    lemma_last_index_of(stack, name, stack.len() as int);
    if stack.contains(name) {
        let w = choose|w: int| 0 <= w < stack.len() && stack[w] == name;
        assert(stack[w] == name);
    } else {
        assert(stack.subrange(0, stack.len() as int) =~= stack);
    }
}

/// Closes the innermost open element named `name`, with everything
/// opened inside it.
pub fn pop_element(element_stack: &mut Vec<String>, name: &str)
    ensures
        stack_view(final(element_stack)@) == popped(stack_view(old(element_stack)@), name@),
{
    let ghost v0 = stack_view(element_stack@);
    let nb = name.as_bytes();
    let mut i = element_stack.len();
    while i > 0
        invariant
            i <= element_stack@.len(),
            nb@ == name.spec_bytes(),
            element_stack@ == old(element_stack)@,
            v0 == stack_view(element_stack@),
            last_index_of(v0, name@, v0.len() as int) == last_index_of(v0, name@, i as int),
        decreases i,
    {
        let cur = element_stack[i - 1].as_str();
        let cb = cur.as_bytes();
        let same = eq_bytes(cb, nb);
        proof {
            let a = element_stack@[i - 1]@;
            assert(v0[i - 1] == a);
            encode_utf8_decode_utf8(a);
            encode_utf8_decode_utf8(name@);
            assert(cur@ == a);
            assert(cb@ == encode_utf8(a));
            assert(nb@ == encode_utf8(name@));
            if cb@ == nb@ {
                assert(decode_utf8(cb@) == decode_utf8(nb@));
            }
            assert(same == (a == name@));
        }
        if same {
            element_stack.truncate(i - 1);
            assert(stack_view(element_stack@) =~= v0.subrange(0, i - 1));
            return;
        }
        i -= 1;
    }
}

// ---------------------------------------------------------------------------
// `v-for` and the `lang` attribute
// ---------------------------------------------------------------------------
/// The parts of `alias in list` (or `of`): the alias, the operator and the
/// list, each without surrounding whitespace.
pub struct VForModel {
    pub left: (int, int),
    pub op: (int, int),
    pub right: (int, int),
}

pub open spec fn sat_dec(d: int) -> int {
    if d > 0 {
        d - 1
    } else {
        0
    }
}

/// The `v-for` split of `[start, end)` continued from `pos`, with the
/// bracket depths seen so far. Quoted strings and template literals are
/// skipped; the operator is the first `in` or `of` that follows
/// whitespace at depth zero and is followed by whitespace.
pub open spec fn vfor_from(s: Seq<u8>, start: int, end: int, pos: int, dp: int, db: int, dc: int) -> Option<VForModel>
    decreases end - pos,
{
    if pos >= end || pos < 0 || end > s.len() {
        None
    } else {
        let b = s[pos];
        if b == 0x27 || b == 0x22 || b == 0x60 {
            let q = quoted_end(s, pos + 1, end, b);
            proof {
                lemma_quoted_end(s, pos + 1, end, b);
            }
            vfor_from(s, start, end, q, dp, db, dc)
        } else if b == 0x28 {
            vfor_from(s, start, end, pos + 1, dp + 1, db, dc)
        } else if b == 0x29 {
            vfor_from(s, start, end, pos + 1, sat_dec(dp), db, dc)
        } else if b == 0x5b {
            vfor_from(s, start, end, pos + 1, dp, db + 1, dc)
        } else if b == 0x5d {
            vfor_from(s, start, end, pos + 1, dp, sat_dec(db), dc)
        } else if b == 0x7b {
            vfor_from(s, start, end, pos + 1, dp, db, dc + 1)
        } else if b == 0x7d {
            vfor_from(s, start, end, pos + 1, dp, db, sat_dec(dc))
        } else if is_ws(b) && dp == 0 && db == 0 && dc == 0 {
            let os = ws_to(s, pos, end);
            let oe = os + 2;
            if !(oe <= end && ((s[os] == 0x69 && s[os + 1] == 0x6e) || (s[os] == 0x6f && s[os + 1]
                == 0x66))) || oe >= end || !is_ws(s[oe]) {
                vfor_from(s, start, end, pos + 1, dp, db, dc)
            } else {
                let ls = ws_to(s, start, pos);
                let le = trim_to(s, ls, pos);
                let rs = ws_to(s, oe, end);
                let re = trim_to(s, rs, end);
                if ls >= le || rs >= re {
                    None
                } else {
                    Some(VForModel { left: (ls, le), op: (os, oe), right: (rs, re) })
                }
            }
        } else {
            vfor_from(s, start, end, pos + 1, dp, db, dc)
        }
    }
}

/// The parts of a split `v-for` value lie in order inside it, and each
/// of their ends touches an ASCII byte.
pub proof fn vfor_bounds(s: Seq<u8>, start: int, end: int, pos: int, dp: int, db: int, dc: int)
    requires
        0 <= start <= pos,
        end <= s.len(),
        ascii_adjacent(s, start),
        ascii_adjacent(s, end),
    ensures
        vfor_from(s, start, end, pos, dp, db, dc) matches Some(m) ==> {
            &&& start <= m.left.0 < m.left.1 <= m.op.0 < m.op.1 <= m.right.0 < m.right.1 <= end
            &&& m.op.1 == m.op.0 + 2
            &&& ascii_adjacent(s, m.left.0)
            &&& ascii_adjacent(s, m.left.1)
            &&& ascii_adjacent(s, m.op.0)
            &&& ascii_adjacent(s, m.op.1)
            &&& ascii_adjacent(s, m.right.0)
            &&& ascii_adjacent(s, m.right.1)
        },
    decreases end - pos,
{
    if pos < end {
        let b = s[pos];
        if b == 0x27 || b == 0x22 || b == 0x60 {
            lemma_quoted_end(s, pos + 1, end, b);
            vfor_bounds(s, start, end, quoted_end(s, pos + 1, end, b), dp, db, dc);
        } else if b == 0x28 {
            vfor_bounds(s, start, end, pos + 1, dp + 1, db, dc);
        } else if b == 0x29 {
            vfor_bounds(s, start, end, pos + 1, sat_dec(dp), db, dc);
        } else if b == 0x5b {
            vfor_bounds(s, start, end, pos + 1, dp, db + 1, dc);
        } else if b == 0x5d {
            vfor_bounds(s, start, end, pos + 1, dp, sat_dec(db), dc);
        } else if b == 0x7b {
            vfor_bounds(s, start, end, pos + 1, dp, db, dc + 1);
        } else if b == 0x7d {
            vfor_bounds(s, start, end, pos + 1, dp, db, sat_dec(dc));
        } else if is_ws(b) && dp == 0 && db == 0 && dc == 0 {
            lemma_ws_to(s, pos, end);
            let os = ws_to(s, pos, end);
            let oe = os + 2;
            if !(oe <= end && ((s[os] == 0x69 && s[os + 1] == 0x6e) || (s[os] == 0x6f && s[os + 1]
                == 0x66))) || oe >= end || !is_ws(s[oe]) {
                vfor_bounds(s, start, end, pos + 1, dp, db, dc);
            } else {
                lemma_ws_to(s, start, pos);
                let ls = ws_to(s, start, pos);
                lemma_trim_to(s, ls, pos);
                lemma_ws_to(s, oe, end);
                let rs = ws_to(s, oe, end);
                lemma_trim_to(s, rs, end);
            }
        } else {
            vfor_bounds(s, start, end, pos + 1, dp, db, dc);
        }
    }
}

/// The parts of a `v-for` value.
#[derive(Clone, Copy, Debug)]
pub struct VForParts<'a> {
    pub left_start: usize,
    pub left_end: usize,
    pub operator: &'a str,
    pub operator_start: usize,
    pub operator_end: usize,
    pub right_start: usize,
    pub right_end: usize,
}

/// The first `i` at or after `p` where the characters `n` stand.
pub open spec fn char_occ_from(c: Seq<char>, n: Seq<char>, p: int) -> Option<int>
    decreases c.len() + 1 - p,
{
    if p < 0 || p + n.len() > c.len() {
        None
    } else if c.subrange(p, p + n.len()) == n {
        Some(p)
    } else {
        char_occ_from(c, n, p + 1)
    }
}

pub proof fn lemma_char_occ(c: Seq<char>, n: Seq<char>, p: int)
    requires
        0 <= p,
    ensures
        char_occ_from(c, n, p) matches Some(k) ==> p <= k && k + n.len() <= c.len(),
    decreases c.len() + 1 - p,
{
    if p + n.len() <= c.len() && c.subrange(p, p + n.len()) != n {
        lemma_char_occ(c, n, p + 1);
    }
}

/// Leading Unicode whitespace from `p`.
pub open spec fn uws_to(c: Seq<char>, p: int) -> int
    decreases c.len() - p,
{
    if 0 <= p < c.len() && is_unicode_ws(c[p]) {
        uws_to(c, p + 1)
    } else {
        p
    }
}

/// The quoted value of the attribute `name` in the attribute text `c`:
/// after the first occurrence of `name`, optional whitespace, `=`,
/// optional whitespace and a quote, up to the matching quote.
pub open spec fn attr_value_range(c: Seq<char>, name: Seq<char>) -> Option<(int, int)> {
    match char_occ_from(c, name, 0) {
        None => None,
        Some(i) => {
            let r1 = uws_to(c, i + name.len());
            if r1 >= c.len() || c[r1] != '=' {
                None
            } else {
                let r2 = uws_to(c, r1 + 1);
                if r2 >= c.len() || !(c[r2] == '\'' || c[r2] == '"') {
                    None
                } else {
                    match char_occ_from(c, seq![c[r2]], r2 + 1) {
                        None => None,
                        Some(e) => Some((r2 + 1, e)),
                    }
                }
            }
        },
    }
}

/// How an attribute's value is tokenised.
#[derive(Clone, Copy, Debug, PartialEq, Eq, Structural)]
pub enum AttrValueKind {
    Literal,
    Expression,
    Handler,
    SlotParams,
    VFor,
}

pub open spec fn bytes_start_with(n: Seq<u8>, p: Seq<u8>) -> bool {
    p.len() <= n.len() && n.subrange(0, p.len() as int) == p
}

/// How the value of the attribute named `n` is tokenised.
pub open spec fn value_kind_of_name(n: Seq<u8>) -> AttrValueKind {
    if n == "v-for".spec_bytes() {
        AttrValueKind::VFor
    } else if n == "v-on".spec_bytes() || bytes_start_with(n, "v-on:".spec_bytes()) {
        AttrValueKind::Handler
    } else if n.len() > 1 && n[0] == 0x40 {
        AttrValueKind::Handler
    } else if (n.len() > 1 && n[0] == 0x23) || (bytes_start_with(n, "v-slot:".spec_bytes())
        && n.last() != 0x3a) {
        AttrValueKind::SlotParams
    } else if (n.len() > 1 && n[0] == 0x3a) || n == "v-bind".spec_bytes() || n
        == "v-if".spec_bytes() || n == "v-else-if".spec_bytes() || n == "v-model".spec_bytes()
        || bytes_start_with(n, "v-bind:".spec_bytes()) {
        AttrValueKind::Expression
    } else {
        AttrValueKind::Literal
    }
}

fn starts_with_bytes(n: &[u8], p: &[u8]) -> (r: bool)
    ensures
        r == bytes_start_with(n@, p@),
{
    if p.len() > n.len() {
        return false;
    }
    let mut i: usize = 0;
    while i < p.len()
        invariant
            p@.len() <= n@.len(),
            i <= p@.len(),
            forall|t: int| 0 <= t < i ==> n@[t] == p@[t],
        decreases p@.len() - i,
    {
        if n[i] != p[i] {
            assert(n@.subrange(0, p@.len() as int)[i as int] == n@[i as int]);
            return false;
        }
        i += 1;
    }
    assert(n@.subrange(0, p@.len() as int) =~= p@);
    true
}

/// How the value of the attribute named `attr_name` is tokenised.
pub fn attr_value_kind(attr_name: &str) -> (r: AttrValueKind)
    ensures
        r == value_kind_of_name(attr_name.spec_bytes()),
{
    let n = attr_name.as_bytes();
    if eq_bytes(n, "v-for".as_bytes()) {
        return AttrValueKind::VFor;
    }
    if eq_bytes(n, "v-on".as_bytes()) || starts_with_bytes(n, "v-on:".as_bytes()) {
        return AttrValueKind::Handler;
    }
    if n.len() > 1 && n[0] == 0x40 {
        return AttrValueKind::Handler;
    }
    proof {
        reveal_strlit("v-slot:");
    }
    if (n.len() > 1 && n[0] == 0x23) || (starts_with_bytes(n, "v-slot:".as_bytes()) && n[n.len()
        - 1] != 0x3a) {
        return AttrValueKind::SlotParams;
    }
    if (n.len() > 1 && n[0] == 0x3a) || eq_bytes(n, "v-bind".as_bytes()) || eq_bytes(
        n,
        "v-if".as_bytes(),
    ) || eq_bytes(n, "v-else-if".as_bytes()) || eq_bytes(n, "v-model".as_bytes())
        || starts_with_bytes(n, "v-bind:".as_bytes()) {
        return AttrValueKind::Expression;
    }
    AttrValueKind::Literal
}

/// Elements whose content is raw text up to their end tag.
pub fn is_raw_text_element(name: &str) -> (r: bool)
    ensures
        r == is_raw_text_name(name.spec_bytes()),
{
    let b = name.as_bytes();
    eq_bytes(b, "script".as_bytes()) || eq_bytes(b, "style".as_bytes()) || eq_bytes(
        b,
        "xmp".as_bytes(),
    ) || eq_bytes(b, "iframe".as_bytes()) || eq_bytes(b, "noembed".as_bytes()) || eq_bytes(
        b,
        "noframes".as_bytes(),
    ) || eq_bytes(b, "noscript".as_bytes()) || eq_bytes(b, "plaintext".as_bytes())
}

/// Elements whose content is text with character references.
pub fn is_rcdata_element(name: &str) -> (r: bool)
    ensures
        r == is_rcdata_name(name.spec_bytes()),
{
    let b = name.as_bytes();
    eq_bytes(b, "textarea".as_bytes()) || eq_bytes(b, "title".as_bytes())
}

/// The quoted value of the attribute `name` in the attribute text
/// `source`.
pub fn attr_value<'s>(source: &'s str, name: &str) -> (r: Option<&'s str>)
    ensures
        match attr_value_range(source@, name@) {
            Some((a, b)) => r matches Some(v) && v@ == source@.subrange(a, b),
            None => r is None,
        },
{
    let n = source.unicode_len();
    let m = name.unicode_len();
    let ghost c = source@;
    proof {
        lemma_char_occ(c, name@, 0);
    }
    let i = match find_chars(source, name) {
        None => {
            return None;
        },
        Some(i) => i,
    };
    let mut r1 = i + m;
    while r1 < n && is_unicode_whitespace(source.get_char(r1))
        invariant
            n == c.len(),
            c == source@,
            i + m <= r1 <= n,
            uws_to(c, (i + m) as int) == uws_to(c, r1 as int),
        decreases n - r1,
    {
        r1 += 1;
    }
    assert(uws_to(c, r1 as int) == r1);
    assert(char_occ_from(c, name@, 0) == Some(i as int));
    if r1 >= n || source.get_char(r1) != '=' {
        return None;
    }
    let mut r2 = r1 + 1;
    while r2 < n && is_unicode_whitespace(source.get_char(r2))
        invariant
            n == c.len(),
            c == source@,
            r1 + 1 <= r2 <= n,
            uws_to(c, (r1 + 1) as int) == uws_to(c, r2 as int),
        decreases n - r2,
    {
        r2 += 1;
    }
    assert(uws_to(c, r2 as int) == r2);
    if r2 >= n {
        return None;
    }
    let q = source.get_char(r2);
    if !(q == '\'' || q == '"') {
        return None;
    }
    let mut e = r2 + 1;
    while e < n && source.get_char(e) != q
        invariant
            n == c.len(),
            c == source@,
            r2 + 1 <= e <= n,
            q == c[r2 as int],
            char_occ_from(c, seq![q], r2 + 1) == char_occ_from(c, seq![q], e as int),
        decreases n - e,
    {
        assert(c.subrange(e as int, e + 1) != seq![q]) by {
            assert(c.subrange(e as int, e + 1)[0] == c[e as int]);
        }
        e += 1;
    }
    if e >= n {
        return None;
    }
    assert(c.subrange(e as int, e + 1) =~= seq![q]);
    Some(source.substring_char(r2 + 1, e))
}

/// The first character index where `name` occurs in `source`.
fn find_chars(source: &str, name: &str) -> (r: Option<usize>)
    ensures
        r == (match char_occ_from(source@, name@, 0) {
            Some(k) => Some(k as usize),
            None => None,
        }),
        r matches Some(k) ==> k + name@.len() <= source@.len(),
{
    let n = source.unicode_len();
    let m = name.unicode_len();
    let ghost c = source@;
    if m > n {
        return None;
    }
    let mut i: usize = 0;
    while i <= n - m
        invariant
            n == c.len(),
            m == name@.len(),
            m <= n,
            c == source@,
            char_occ_from(c, name@, 0) == char_occ_from(c, name@, i as int),
        decreases n - i,
    {
        let mut k: usize = 0;
        let mut same = true;
        while k < m
            invariant
                n == c.len(),
                m == name@.len(),
                c == source@,
                i + m <= n,
                k <= m,
                same == (forall|t: int| 0 <= t < k ==> c[i + t] == name@[t]),
            decreases m - k,
        {
            if source.get_char(i + k) != name.get_char(k) {
                same = false;
            }
            k += 1;
        }
        if same {
            assert(c.subrange(i as int, i + m) =~= name@);
            return Some(i);
        }
        assert(c.subrange(i as int, i + m) != name@) by {
            if c.subrange(i as int, i + m) == name@ {
                assert forall|t: int| 0 <= t < m implies c[i + t] == name@[t] by {
                    assert(c.subrange(i as int, i + m)[t] == c[i + t]);
                }
            }
        }
        i += 1;
    }
    None
}

/// `char::is_whitespace`: the Unicode `White_Space` property.
fn is_unicode_whitespace(c: char) -> (r: bool)
    ensures
        r == is_unicode_ws(c),
{
    let u = c as u32;
    (0x09 <= u && u <= 0x0d) || u == 0x20 || u == 0x85 || u == 0xa0 || u == 0x1680 || (0x2000 <= u
        && u <= 0x200a) || u == 0x2028 || u == 0x2029 || u == 0x202f || u == 0x205f || u == 0x3000
}

pub proof fn lemma_gt_from(s: Seq<u8>, p: int)
    requires
        0 <= p,
    ensures
        gt_from(s, p) matches Some(k) ==> p <= k < s.len() && s[k] == 0x3e,
    decreases s.len() - p,
{
    if 0 <= p < s.len() {
        if s[p] == 0x27 || s[p] == 0x22 {
            lemma_find_in(s, p + 1, s.len() as int, s[p]);
            match find_in(s, p + 1, s.len() as int, s[p]) {
                Some(k) => lemma_gt_from(s, k + 1),
                None => {},
            }
        } else if s[p] != 0x3e {
            lemma_gt_from(s, p + 1);
        }
    }
}

pub proof fn lemma_scan_name_end(s: Seq<u8>, p: int)
    requires
        0 <= p <= s.len(),
    ensures
        p <= scan_name_end(s, p) <= s.len(),
        forall|k: int| p <= k < scan_name_end(s, p) ==> is_scan_name_part(#[trigger] s[k]),
    decreases s.len() - p,
{
    if p < s.len() && is_scan_name_part(s[p]) {
        lemma_scan_name_end(s, p + 1);
    }
}

pub proof fn lemma_alnum_to(s: Seq<u8>, p: int, end: int)
    requires
        0 <= p <= end <= s.len(),
    ensures
        p <= alnum_to(s, p, end) <= end,
        forall|k: int| p <= k < alnum_to(s, p, end) ==> is_alnum(#[trigger] s[k]),
    decreases end - p,
{
    if p < end && is_alnum(s[p]) {
        lemma_alnum_to(s, p + 1, end);
    }
}

pub proof fn lemma_ci_from(s: Seq<u8>, n: Seq<u8>, i: int, last: int)
    requires
        0 <= i,
    ensures
        ci_from(s, n, i, last) matches Some(k) ==> i <= k <= last,
    decreases last + 1 - i,
{
    if i <= last && !seq_eq_ignore_case(s.subrange(i, i + n.len()), n) {
        lemma_ci_from(s, n, i + 1, last);
    }
}

/// `n` occurs at `k` in `s`, ASCII case ignored.
pub open spec fn occurs_ci_at(s: Seq<u8>, n: Seq<u8>, k: int) -> bool {
    &&& 0 <= k
    &&& k + n.len() <= s.len()
    &&& seq_eq_ignore_case(s.subrange(k, k + n.len()), n)
}

proof fn lemma_ci_from_first(s: Seq<u8>, n: Seq<u8>, i: int, last: int)
    requires
        0 <= i,
        last == s.len() - n.len(),
    ensures
        match ci_from(s, n, i, last) {
            Some(k) => i <= k && occurs_ci_at(s, n, k) && forall|j: int|
                i <= j < k ==> !#[trigger] occurs_ci_at(s, n, j),
            None => forall|j: int| i <= j ==> !#[trigger] occurs_ci_at(s, n, j),
        },
    decreases last + 1 - i,
{
    if i <= last && !seq_eq_ignore_case(s.subrange(i, i + n.len()), n) {
        lemma_ci_from_first(s, n, i + 1, last);
    }
}

/// Law: the case-insensitive search gives the least index at or after
/// `start` where the needle occurs, ASCII case ignored, and nothing when
/// the needle is empty or occurs nowhere from `start` on.
pub proof fn find_ci_is_first_occurrence(s: Seq<u8>, start: int, n: Seq<u8>)
    requires
        0 <= start,
    ensures
        match find_ci(s, start, n) {
            Some(k) => n.len() > 0 && start <= k && occurs_ci_at(s, n, k) && forall|j: int|
                start <= j < k ==> !#[trigger] occurs_ci_at(s, n, j),
            None => n.len() == 0 || forall|j: int| start <= j ==> !#[trigger] occurs_ci_at(s, n, j),
        },
{
    if n.len() > 0 && start + n.len() <= s.len() {
        lemma_ci_from_first(s, n, start, s.len() - n.len());
    }
}

impl<'a> VueParser<'a> {
    /// The first occurrence of `needle` at or after `start`.
    pub fn find_from(&self, start: usize, needle: &str) -> (r: Option<usize>)
        requires
            start <= self.s().len(),
        ensures
            r == (match first_occ_from(self.s(), needle.spec_bytes(), start as int) {
                Some(k) => Some(k as usize),
                None => None,
            }),
    {
        find_bytes_from(self.source_text.as_bytes(), needle.as_bytes(), start)
    }

    /// Whether `needle` stands at `pos`.
    pub fn starts_with(&self, pos: usize, needle: &str) -> (r: bool)
        requires
            pos <= self.s().len(),
        ensures
            r == occurs_at(self.s(), needle.spec_bytes(), pos as int),
    {
        let r = starts_with_at(self.source_text.as_bytes(), pos, needle.as_bytes());
        r
    }

    /// Where `needle` first stands at or after `start`, ASCII case ignored.
    pub fn find_ascii_case_insensitive(&self, start: usize, needle: &[u8]) -> (r: Option<usize>)
        ensures
            r == (match find_ci(self.s(), start as int, needle@) {
                Some(k) => Some(k as usize),
                None => None,
            }),
    {
        let bytes = self.source_text.as_bytes();
        let nb = needle;
        if nb.len() == 0 || start > bytes.len() || nb.len() > bytes.len() - start {
            return None;
        }
        let blen = bytes.len();
        let last = blen - nb.len();
        let mut i = start;
        proof {
            lemma_ci_from(self.s(), nb@, start as int, last as int);
        }
        while i <= last
            invariant
                bytes@ == self.s(),
                nb@ == needle@,
                nb@.len() > 0,
                blen == bytes@.len(),
                start + nb@.len() <= bytes@.len(),
                last == bytes@.len() - nb@.len(),
                start <= i,
                ci_from(self.s(), nb@, start as int, last as int) == ci_from(
                    self.s(),
                    nb@,
                    i as int,
                    last as int,
                ),
            decreases last + 1 - i,
        {
            if eq_ignore_case_at(bytes, i, nb) {
                return Some(i);
            }
            i += 1;
        }
        None
    }

    /// The character reference `&name;` at `start`, before `end`.
    pub fn read_character_reference(&self, start: usize, end: usize) -> (r: Option<(usize, String)>)
        requires
            start < end <= self.s().len(),
        ensures
            match char_ref(self.s(), start as int, end as int) {
                Some((e, v)) => r matches Some((re, rv)) && re == e && rv@ == v,
                None => r is None,
            },
    {
        let bytes = self.source_text.as_bytes();
        let name_start = start + 1;
        let mut name_end = name_start;
        while name_end < end && is_ascii_alphanumeric(bytes[name_end])
            invariant
                bytes@ == self.s(),
                name_start <= name_end <= end <= bytes@.len(),
                alnum_to(self.s(), name_start as int, end as int) == alnum_to(
                    self.s(),
                    name_end as int,
                    end as int,
                ),
            decreases end - name_end,
        {
            name_end += 1;
        }
        if name_end >= end || bytes[name_end] != 0x3b {
            return None;
        }
        let name = &bytes[name_start..name_end];
        proof {
            reveal_strlit("&");
            reveal_strlit("<");
            reveal_strlit(">");
            reveal_strlit("\"");
            reveal_strlit("'");
        }
        let value = if eq_bytes(name, "amp".as_bytes()) {
            "&"
        } else if eq_bytes(name, "lt".as_bytes()) {
            "<"
        } else if eq_bytes(name, "gt".as_bytes()) {
            ">"
        } else if eq_bytes(name, "quot".as_bytes()) {
            "\""
        } else if eq_bytes(name, "apos".as_bytes()) {
            "'"
        } else {
            return None;
        };
        Some((name_end + 1, value.to_owned()))
    }

    /// The index of the `>` that ends the tag whose name ends before
    /// `pos`; `None` when a quoted value is never closed or no `>` comes.
    pub fn find_tag_end(&self, pos: usize) -> (r: Option<usize>)
        requires
            pos <= self.s().len(),
        ensures
            r == (match gt_from(self.s(), pos as int) {
                Some(k) => Some(k as usize),
                None => None,
            }),
    {
        let len = self.source_text.as_bytes().len();
        let mut p = pos;
        while p < len
            invariant
                len == self.s().len(),
                pos <= p <= len,
                gt_from(self.s(), pos as int) == gt_from(self.s(), p as int),
            decreases len - p,
        {
            let b = self.byte(p);
            if b == 0x27 || b == 0x22 {
                proof {
                    lemma_find_in(self.s(), p + 1, len as int, b);
                }
                match self.find_byte(p + 1, len, b) {
                    None => {
                        return None;
                    },
                    Some(k) => {
                        p = k + 1;
                    },
                }
            } else if b == 0x3e {
                return Some(p);
            } else {
                p += 1;
            }
        }
        None
    }

    /// Reads the tag whose `<` is at `start`.
    pub fn read_tag(&self, start: usize) -> (r: Option<TagInfo>)
        requires
            start + 1 < self.s().len(),
        ensures
            match tag_at(self.s(), start as int) {
                Some(m) => r matches Some(t) && tag_is(t, m),
                None => r is None,
            },
    {
        let len = self.source_text.as_bytes().len();
        let mut pos = start + 1;
        let is_end = self.byte(pos) == 0x2f;
        if is_end {
            pos += 1;
        }
        let name_start = pos;
        while pos < len && (is_ascii_alphanumeric(self.byte(pos)) || self.byte(pos) == 0x2d
            || self.byte(pos) == 0x5f || self.byte(pos) == 0x2e)
            invariant
                len == self.s().len(),
                name_start <= pos <= len,
                scan_name_end(self.s(), name_start as int) == scan_name_end(self.s(), pos as int),
            decreases len - pos,
        {
            pos += 1;
        }
        if pos == name_start {
            return None;
        }
        let name_end = pos;
        proof {
            lemma_gt_from(self.s(), name_end as int);
        }
        let tag_end = match self.find_tag_end(pos) {
            None => {
                return None;
            },
            Some(t) => t,
        };
        proof {
            lemma_trim_to(self.s(), name_end as int, tag_end as int);
        }
        let close_probe = self.trim_end_ws(name_end, tag_end);
        Some(
            TagInfo {
                name_start,
                name_end,
                tag_end,
                is_end,
                is_self_closing: close_probe > name_end && self.byte(close_probe - 1) == 0x2f,
            },
        )
    }

    /// The ASCII lower-cased text of `[start, end)`, a tag name.
    pub fn lower_source(&self, start: usize, end: usize) -> (r: String)
        requires
            start <= end <= self.s().len(),
            ascii_adjacent(self.s(), start as int),
            ascii_adjacent(self.s(), end as int),
        ensures
            r@ == dec(self.s(), start as int, end as int).map_values(|c: char| lower_char(c)),
    {
        ascii_lowercase(slice_between_ascii(self.source_text, start, end))
    }

    /// Splits a `v-for` value in `[start, end)` at its `in` or `of`.
    pub fn split_v_for_expression(&self, start: usize, end: usize) -> (r: Option<VForParts<'a>>)
        requires
            start <= end <= self.s().len(),
            self.s().len() <= u32::MAX,
        ensures
            match vfor_from(self.s(), start as int, end as int, start as int, 0, 0, 0) {
                Some(m) => r matches Some(p) && p.left_start == m.left.0 && p.left_end == m.left.1
                    && p.operator_start == m.op.0 && p.operator_end == m.op.1 && p.right_start
                    == m.right.0 && p.right_end == m.right.1 && p.operator.spec_bytes()
                    == self.s().subrange(m.op.0, m.op.1),
                None => r is None,
            },
    {
        let ghost s = self.s();
        let mut pos = start;
        let mut paren: u32 = 0;
        let mut bracket: u32 = 0;
        let mut brace: u32 = 0;
        while pos < end
            invariant
                s == self.s(),
                start <= pos <= end <= s.len(),
                s.len() <= u32::MAX,
                paren <= pos - start,
                bracket <= pos - start,
                brace <= pos - start,
                vfor_from(s, start as int, end as int, start as int, 0, 0, 0) == vfor_from(
                    s,
                    start as int,
                    end as int,
                    pos as int,
                    paren as int,
                    bracket as int,
                    brace as int,
                ),
            decreases end - pos,
        {
            let b = self.byte(pos);
            if b == 0x27 || b == 0x22 {
                proof {
                    lemma_quoted_end(s, pos + 1, end as int, b);
                }
                pos = self.skip_quoted(pos, end);
                continue;
            }
            if b == 0x60 {
                proof {
                    lemma_quoted_end(s, pos + 1, end as int, b);
                }
                pos = self.skip_template_literal(pos, end);
                continue;
            }
            if b == 0x28 {
                paren += 1;
            } else if b == 0x29 {
                paren = if paren > 0 { paren - 1 } else { 0 };
            } else if b == 0x5b {
                bracket += 1;
            } else if b == 0x5d {
                bracket = if bracket > 0 { bracket - 1 } else { 0 };
            } else if b == 0x7b {
                brace += 1;
            } else if b == 0x7d {
                brace = if brace > 0 { brace - 1 } else { 0 };
            } else if is_ascii_whitespace(b) && paren == 0 && bracket == 0 && brace == 0 {
                let operator_start = self.skip_ws(pos, end);
                proof {
                    lemma_ws_to(s, pos as int, end as int);
                }
                let is_op = end - operator_start >= 2 && ((self.byte(operator_start) == 0x69
                    && self.byte(operator_start + 1) == 0x6e) || (self.byte(operator_start) == 0x6f
                    && self.byte(operator_start + 1) == 0x66));
                if !is_op {
                    pos += 1;
                    continue;
                }
                let operator_end = operator_start + 2;
                if operator_end >= end || !is_ascii_whitespace(self.byte(operator_end)) {
                    pos += 1;
                    continue;
                }
                let left_start = self.skip_ws(start, pos);
                proof {
                    lemma_ws_to(s, start as int, pos as int);
                }
                let left_end = self.trim_end_ws(left_start, pos);
                let right_start = self.skip_ws(operator_end, end);
                proof {
                    lemma_ws_to(s, operator_end as int, end as int);
                }
                let right_end = self.trim_end_ws(right_start, end);
                proof {
                    let os = ws_to(s, pos as int, end as int);
                    assert(os == operator_start);
                    assert(vfor_from(s, start as int, end as int, pos as int, 0, 0, 0) == (if left_start
                        >= left_end || right_start >= right_end {
                        None
                    } else {
                        Some(
                            VForModel {
                                left: (left_start as int, left_end as int),
                                op: (operator_start as int, operator_end as int),
                                right: (right_start as int, right_end as int),
                            },
                        )
                    }));
                }
                if left_start >= left_end || right_start >= right_end {
                    return None;
                }
                let operator = slice_between_ascii(self.source_text, operator_start, operator_end);
                return Some(
                    VForParts {
                        left_start,
                        left_end,
                        operator,
                        operator_start,
                        operator_end,
                        right_start,
                        right_end,
                    },
                );
            }
            pos += 1;
        }
        None
    }
}

} // verus!
