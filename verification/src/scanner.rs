//! Byte-level source scanner and the attribute / directive parser built on
//! it.
use vstd::prelude::*;
use vstd::string::StringSliceAdditionalSpecFns;
use vstd::utf8::*;

use crate::span::Span;
use crate::sfc::find_byte_from;
use crate::text::{slice_between_ascii, str_slice};

verus! {

broadcast use vstd::string::group_string_axioms, vstd::utf8::encode_utf8_valid_utf8;

/// A recoverable error, with the source ranges that it points at.
#[derive(Debug, Clone)]
pub struct Diagnostic {
    pub message: String,
    pub labels: Vec<Span>,
}

/// Scanner state over a component source.
pub struct Parser<'a> {
    pub source_text: &'a str,
    /// Current byte offset.
    pub pos: usize,
    /// Recoverable errors, in the order they were found.
    pub errors: Vec<Diagnostic>,
}

/// Whitespace as the scanner skips it: space, tab, line feed, carriage
/// return.
pub open spec fn is_scan_ws(b: u8) -> bool {
    b == 0x20 || b == 0x09 || b == 0x0a || b == 0x0d
}

/// First index at or after `p` that is not scanner whitespace.
pub open spec fn skip_ws_from(s: Seq<u8>, p: int) -> int
    decreases s.len() - p,
{
    if 0 <= p < s.len() && is_scan_ws(s[p]) {
        skip_ws_from(s, p + 1)
    } else {
        p
    }
}

pub proof fn lemma_skip_ws_from(s: Seq<u8>, p: int)
    requires
        0 <= p,
    ensures
        p <= skip_ws_from(s, p),
        p <= s.len() ==> skip_ws_from(s, p) <= s.len(),
        skip_ws_from(s, p) < s.len() ==> !is_scan_ws(s[skip_ws_from(s, p)]),
        forall|t: int| p <= t < skip_ws_from(s, p) ==> is_scan_ws(#[trigger] s[t]),
    decreases s.len() - p,
{
    if 0 <= p < s.len() && is_scan_ws(s[p]) {
        lemma_skip_ws_from(s, p + 1);
    }
}

impl<'a> Parser<'a> {
    pub open spec fn src(&self) -> Seq<u8> {
        self.source_text.spec_bytes()
    }

    /// A scanner at the start of `source_text`, with no errors.
    pub fn new(source_text: &'a str) -> (p: Parser<'a>)
        ensures
            p.source_text == source_text,
            p.pos == 0,
            p.errors@.len() == 0,
    {
        Parser { source_text, pos: 0, errors: Vec::new() }
    }

    /// Current byte at `pos`, or `None` at the end of the source.
    pub fn current_byte(&self) -> (r: Option<u8>)
        ensures
            r == if self.pos < self.src().len() {
                Some(self.src()[self.pos as int])
            } else {
                None::<u8>
            },
    {
        let bytes = self.source_text.as_bytes();
        if self.pos < bytes.len() {
            Some(bytes[self.pos])
        } else {
            None
        }
    }

    /// Whether the scanner has consumed all input.
    pub fn is_eof(&self) -> (r: bool)
        ensures
            r == (self.pos >= self.src().len()),
    {
        self.pos >= self.source_text.as_bytes().len()
    }

    /// The byte `offset` bytes ahead of `pos`, without advancing.
    pub fn peek_byte(&self, offset: usize) -> (r: Option<u8>)
        requires
            self.pos + offset <= usize::MAX,
        ensures
            r == if self.pos + offset < self.src().len() {
                Some(self.src()[self.pos + offset])
            } else {
                None::<u8>
            },
    {
        let bytes = self.source_text.as_bytes();
        let at = self.pos + offset;
        if at < bytes.len() {
            Some(bytes[at])
        } else {
            None
        }
    }

    /// Whether the source has the bytes of `s` at `pos`.
    pub fn matches_at(&self, pos: usize, s: &str) -> (r: bool)
        requires
            pos + s.spec_bytes().len() <= usize::MAX,
        ensures
            r == (pos + s.spec_bytes().len() <= self.src().len() && self.src().subrange(
                pos as int,
                pos + s.spec_bytes().len(),
            ) == s.spec_bytes()),
    {
        let bytes = self.source_text.as_bytes();
        let needle = s.as_bytes();
        let end = pos + needle.len();
        if end > bytes.len() {
            return false;
        }
        crate::text::starts_with_at(bytes, pos, needle)
    }

    /// Whether the source has the bytes of `s` at the current position.
    pub fn matches(&self, s: &str) -> (r: bool)
        requires
            self.pos + s.spec_bytes().len() <= usize::MAX,
        ensures
            r == (self.pos + s.spec_bytes().len() <= self.src().len() && self.src().subrange(
                self.pos as int,
                self.pos + s.spec_bytes().len(),
            ) == s.spec_bytes()),
    {
        self.matches_at(self.pos, s)
    }

    /// Move `pos` forward by `n` bytes.
    pub fn advance(&mut self, n: usize)
        requires
            old(self).pos + n <= usize::MAX,
        ensures
            final(self).pos == old(self).pos + n,
            final(self).source_text == old(self).source_text,
            final(self).errors == old(self).errors,
    {
        self.pos = self.pos + n;
    }

    /// Consume the byte at `pos`; `None` (and no move) at the end of the
    /// source.
    pub fn consume_byte(&mut self) -> (r: Option<u8>)
        ensures
            r == if old(self).pos < old(self).src().len() {
                Some(old(self).src()[old(self).pos as int])
            } else {
                None::<u8>
            },
            final(self).pos == if r is Some {
                old(self).pos + 1
            } else {
                old(self).pos as int
            },
            final(self).source_text == old(self).source_text,
            final(self).errors == old(self).errors,
    {
        let n = self.source_text.as_bytes().len();
        let b = self.current_byte();
        if b.is_some() {
            assert(self.pos < n);
            self.pos = self.pos + 1;
        }
        b
    }

    /// The current position as a `u32` (wrapping, as `as u32` does).
    pub fn pos_u32(&self) -> (r: u32)
        ensures
            r == self.pos as u32,
    {
        self.pos as u32
    }

    /// `source_text[start..end]`.
    pub fn slice(&self, start: u32, end: u32) -> (r: &'a str)
        requires
            start <= end <= self.src().len(),
            is_char_boundary(self.src(), start as int),
            is_char_boundary(self.src(), end as int),
        ensures
            r.spec_bytes() == self.src().subrange(start as int, end as int),
    {
        str_slice(self.source_text, start as usize, end as usize)
    }

    /// Skip spaces, tabs, line feeds and carriage returns.
    pub fn skip_whitespace(&mut self)
        ensures
            final(self).pos == skip_ws_from(old(self).src(), old(self).pos as int),
            final(self).source_text == old(self).source_text,
            final(self).errors == old(self).errors,
    {
        let ghost s = self.src();
        let ghost p0 = self.pos as int;
        let bytes = self.source_text.as_bytes();
        let n = bytes.len();
        while self.pos < n && (bytes[self.pos] == 0x20 || bytes[self.pos] == 0x09 || bytes[self.pos]
            == 0x0a || bytes[self.pos] == 0x0d)
            invariant
                s == bytes@,
                n == s.len(),
                s == self.src(),
                self.source_text == old(self).source_text,
                self.errors == old(self).errors,
                skip_ws_from(s, p0) == skip_ws_from(s, self.pos as int),
            decreases n - self.pos,
        {
            self.pos = self.pos + 1;
        }
    }

    /// Record a recoverable error.
    pub fn push_error(&mut self, err: Diagnostic)
        ensures
            final(self).errors@ == old(self).errors@.push(err),
            final(self).pos == old(self).pos,
            final(self).source_text == old(self).source_text,
    {
        self.errors.push(err);
    }

    /// The span from `start` to the current position.
    pub fn span_from(&self, start: u32) -> (r: Span)
        ensures
            r.start == start,
            r.end == self.pos as u32,
    {
        Span::new(start, self.pos_u32())
    }
}


// ---------------------------------------------------------------------------
// Attributes and directives
// ---------------------------------------------------------------------------
/// The known directive names; anything else after `v-` is `Custom`.
#[derive(Debug, Clone)]
pub enum DirectiveName {
    For,
    If,
    ElseIf,
    Else,
    Show,
    Model,
    On,
    Bind,
    Slot,
    Custom(String),
}

/// A directive argument (`v-bind:arg`, `:arg`, `:[expr]`), with its span.
#[derive(Debug, Clone)]
pub enum DirectiveArgument {
    Static(String, Span),
    Dynamic(String, Span),
}

#[derive(Debug, Clone)]
pub struct VAttributeValue {
    pub span: Span,
    pub raw: String,
}

/// A plain attribute.
#[derive(Debug, Clone)]
pub struct VAttribute {
    pub name: String,
    pub name_span: Span,
    pub value: Option<VAttributeValue>,
    pub span: Span,
}

/// A directive attribute (`v-*`, `:`, `@` or `#`).
#[derive(Debug, Clone)]
pub struct VDirective {
    pub name: DirectiveName,
    pub argument: Option<DirectiveArgument>,
    pub modifiers: Vec<String>,
    pub value_raw: Option<String>,
    pub value_span: Option<Span>,
    pub span: Span,
}

#[derive(Debug, Clone)]
pub enum VAttrOrDirective {
    Attribute(VAttribute),
    Directive(VDirective),
}

/// A byte that ends an attribute name.
pub open spec fn is_name_stop(b: u8) -> bool {
    b == 0x3d || b == 0x3e || b == 0x2f || is_scan_ws(b)
}

pub open spec fn attr_name_end(s: Seq<u8>, p: int) -> int
    decreases s.len() - p,
{
    if 0 <= p < s.len() && !is_name_stop(s[p]) {
        attr_name_end(s, p + 1)
    } else {
        p
    }
}

/// A byte that ends an unquoted attribute value.
pub open spec fn is_unquoted_stop(b: u8) -> bool {
    is_scan_ws(b) || b == 0x3e || b == 0x2f
}

pub open spec fn unquoted_end(s: Seq<u8>, p: int) -> int
    decreases s.len() - p,
{
    if 0 <= p < s.len() && !is_unquoted_stop(s[p]) {
        unquoted_end(s, p + 1)
    } else {
        p
    }
}

/// The attribute value at `p`: its raw range (inside the quotes, if it is
/// quoted) and the position after it.
pub open spec fn attr_value_at(s: Seq<u8>, p: int) -> (Option<(int, int)>, int) {
    if 0 <= p < s.len() && (s[p] == 0x22 || s[p] == 0x27) {
        let e = find_byte_from(s, p + 1, s[p]);
        (Some((p + 1, e)), if e < s.len() {
            e + 1
        } else {
            e
        })
    } else {
        let e = unquoted_end(s, p);
        if e == p {
            (None, p)
        } else {
            (Some((p, e)), e)
        }
    }
}

/// An attribute as ranges of the source: its name, its value if any, and
/// where it ends.
pub struct AttrModel {
    pub name: (int, int),
    pub value: Option<(int, int)>,
    pub end: int,
}

/// The attribute that starts at `p`, if its name is not empty.
pub open spec fn attr_at(s: Seq<u8>, p: int) -> Option<AttrModel> {
    let ne = attr_name_end(s, p);
    if ne == p {
        None
    } else {
        let q = skip_ws_from(s, ne);
        if q < s.len() && s[q] == 0x3d {
            let v = attr_value_at(s, skip_ws_from(s, q + 1));
            Some(AttrModel { name: (p, ne), value: v.0, end: v.1 })
        } else {
            Some(AttrModel { name: (p, ne), value: None, end: q })
        }
    }
}

pub open spec fn is_directive_name_spec(n: Seq<u8>) -> bool {
    ||| (n.len() >= 2 && n[0] == 0x76 && n[1] == 0x2d)
    ||| (n.len() >= 1 && (n[0] == 0x3a || n[0] == 0x40 || n[0] == 0x23))
}

pub open spec fn is_v_form(n: Seq<u8>) -> bool {
    n.len() >= 2 && n[0] == 0x76 && n[1] == 0x2d
}

pub open spec fn is_shorthand(n: Seq<u8>) -> bool {
    n.len() >= 1 && (n[0] == 0x3a || n[0] == 0x40 || n[0] == 0x23)
}

/// Where the argument-and-modifiers part of a directive name starts, if it
/// has one.
pub open spec fn rest_start(n: Seq<u8>) -> Option<int> {
    if is_v_form(n) {
        let c = find_byte_from(n, 2, 0x3a);
        if c < n.len() {
            Some(c + 1)
        } else {
            None
        }
    } else if is_shorthand(n) {
        Some(1)
    } else {
        None
    }
}

/// The model of a directive name.
pub enum DirectiveNameModel {
    For,
    If,
    ElseIf,
    Else,
    Show,
    Model,
    On,
    Bind,
    Slot,
    Custom(Seq<u8>),
}

pub open spec fn directive_name_of(part: Seq<u8>) -> DirectiveNameModel {
    if part == "for".spec_bytes() {
        DirectiveNameModel::For
    } else if part == "if".spec_bytes() {
        DirectiveNameModel::If
    } else if part == "else-if".spec_bytes() {
        DirectiveNameModel::ElseIf
    } else if part == "else".spec_bytes() {
        DirectiveNameModel::Else
    } else if part == "show".spec_bytes() {
        DirectiveNameModel::Show
    } else if part == "model".spec_bytes() {
        DirectiveNameModel::Model
    } else if part == "on".spec_bytes() {
        DirectiveNameModel::On
    } else if part == "bind".spec_bytes() {
        DirectiveNameModel::Bind
    } else if part == "slot".spec_bytes() {
        DirectiveNameModel::Slot
    } else {
        DirectiveNameModel::Custom(part)
    }
}

/// The directive's name, with shorthands normalised (`:` is `bind`, `@` is
/// `on`, `#` is `slot`).
pub open spec fn name_part_of(n: Seq<u8>) -> DirectiveNameModel {
    if is_v_form(n) {
        directive_name_of(n.subrange(2, find_byte_from(n, 2, 0x3a)))
    } else if n.len() >= 1 && n[0] == 0x3a {
        DirectiveNameModel::Bind
    } else if n.len() >= 1 && n[0] == 0x40 {
        DirectiveNameModel::On
    } else if n.len() >= 1 && n[0] == 0x23 {
        DirectiveNameModel::Slot
    } else {
        directive_name_of(n)
    }
}

/// The argument range after `rs` (up to the first `.`), and whether it is
/// a dynamic `[...]` argument (whose brackets are then not part of it).
pub open spec fn arg_of(n: Seq<u8>, rs: int) -> ((int, int), bool) {
    let d = find_byte_from(n, rs, 0x2e);
    if d - rs >= 2 && n[rs] == 0x5b && n[d - 1] == 0x5d {
        ((rs + 1, d - 1), true)
    } else {
        ((rs, d), false)
    }
}

/// The non-empty `.`-separated parts of `n` from `p` on.
pub open spec fn mod_parts(n: Seq<u8>, p: int) -> Seq<(int, int)>
    decreases n.len() - p,
{
    if p < 0 || p > n.len() {
        seq![]
    } else {
        let e = find_byte_from(n, p, 0x2e);
        proof {
            crate::sfc::lemma_find_byte_from(n, p, 0x2e);
        }
        let head = if e > p {
            seq![(p, e)]
        } else {
            seq![]
        };
        if e < n.len() {
            head + mod_parts(n, e + 1)
        } else {
            head
        }
    }
}

/// The modifier ranges of a directive name.
pub open spec fn mods_of(n: Seq<u8>) -> Seq<(int, int)> {
    match rest_start(n) {
        Some(rs) => {
            let d = find_byte_from(n, rs, 0x2e);
            if d < n.len() {
                mod_parts(n, d + 1)
            } else {
                seq![]
            }
        },
        None => seq![],
    }
}

pub open spec fn name_matches(d: DirectiveName, m: DirectiveNameModel) -> bool {
    match m {
        DirectiveNameModel::For => d is For,
        DirectiveNameModel::If => d is If,
        DirectiveNameModel::ElseIf => d is ElseIf,
        DirectiveNameModel::Else => d is Else,
        DirectiveNameModel::Show => d is Show,
        DirectiveNameModel::Model => d is Model,
        DirectiveNameModel::On => d is On,
        DirectiveNameModel::Bind => d is Bind,
        DirectiveNameModel::Slot => d is Slot,
        DirectiveNameModel::Custom(b) => d matches DirectiveName::Custom(x) && x@ == decode_utf8(b),
    }
}

/// `strs` hold, in order, the text of the ranges `r` of `n`.
pub open spec fn strings_match(strs: Seq<String>, r: Seq<(int, int)>, n: Seq<u8>) -> bool {
    strs.len() == r.len() && forall|k: int|
        0 <= k < strs.len() ==> (#[trigger] strs[k])@ == decode_utf8(n.subrange(r[k].0, r[k].1))
}

pub proof fn lemma_find_byte_from(s: Seq<u8>, from: int, b: u8)
    requires
        0 <= from <= s.len(),
    ensures
        from <= find_byte_from(s, from, b) <= s.len(),
        find_byte_from(s, from, b) < s.len() ==> s[find_byte_from(s, from, b)] == b,
        forall|t: int| from <= t < find_byte_from(s, from, b) ==> #[trigger] s[t] != b,
{
    crate::sfc::lemma_find_byte_from(s, from, b);
}

/// First index of `b` in `bytes` at or after `from`, or the length.
pub fn find_byte(bytes: &[u8], from: usize, b: u8) -> (r: usize)
    requires
        from <= bytes@.len(),
    ensures
        r == find_byte_from(bytes@, from as int, b),
{
    let n = bytes.len();
    let mut i = from;
    while i < n && bytes[i] != b
        invariant
            n == bytes@.len(),
            from <= i <= n,
            find_byte_from(bytes@, from as int, b) == find_byte_from(bytes@, i as int, b),
        decreases n - i,
    {
        i += 1;
    }
    i
}

/// Returns true if an attribute name is a directive.
pub fn is_directive_name(name: &str) -> (r: bool)
    ensures
        r == is_directive_name_spec(name.spec_bytes()),
{
    let b = name.as_bytes();
    (b.len() >= 2 && b[0] == 0x76 && b[1] == 0x2d) || (b.len() >= 1 && (b[0] == 0x3a || b[0]
        == 0x40 || b[0] == 0x23))
}


/// The directive `d` was read from the name bytes `n` whose first byte is
/// at `name_start`, with attribute span `span` and the given value.
pub open spec fn directive_matches(
    d: VDirective,
    n: Seq<u8>,
    name_start: int,
    name_end: int,
    value_raw: Option<String>,
    value_span: Option<Span>,
    span: Span,
) -> bool {
    &&& name_matches(d.name, name_part_of(n))
    &&& match rest_start(n) {
        Some(rs) => {
            let (ar, dynf) = arg_of(n, rs);
            &&& d.argument matches Some(a)
            &&& match a {
                DirectiveArgument::Dynamic(t, sp) => dynf && t@ == decode_utf8(
                    n.subrange(ar.0, ar.1),
                ) && sp.start == name_start + rs && sp.end == name_end,
                DirectiveArgument::Static(t, sp) => !dynf && t@ == decode_utf8(
                    n.subrange(ar.0, ar.1),
                ) && sp.start == name_start + rs && sp.end == name_end,
            }
        },
        None => d.argument is None,
    }
    &&& strings_match(d.modifiers@, mods_of(n), n)
    &&& d.value_raw == value_raw
    &&& d.value_span == value_span
    &&& d.span == span
}

pub fn eq_bytes(a: &[u8], b: &[u8]) -> (r: bool)
    ensures
        r == (a@ == b@),
{
    if a.len() != b.len() {
        return false;
    }
    let mut i: usize = 0;
    while i < a.len()
        invariant
            a@.len() == b@.len(),
            i <= a@.len(),
            forall|t: int| 0 <= t < i ==> a@[t] == b@[t],
        decreases a@.len() - i,
    {
        if a[i] != b[i] {
            return false;
        }
        i += 1;
    }
    assert(a@ =~= b@);
    true
}

/// The directive name that `part` spells.
fn directive_name_from(part: &str) -> (r: DirectiveName)
    ensures
        name_matches(r, directive_name_of(part.spec_bytes())),
{
    let b = part.as_bytes();
    if eq_bytes(b, "for".as_bytes()) {
        DirectiveName::For
    } else if eq_bytes(b, "if".as_bytes()) {
        DirectiveName::If
    } else if eq_bytes(b, "else-if".as_bytes()) {
        DirectiveName::ElseIf
    } else if eq_bytes(b, "else".as_bytes()) {
        DirectiveName::Else
    } else if eq_bytes(b, "show".as_bytes()) {
        DirectiveName::Show
    } else if eq_bytes(b, "model".as_bytes()) {
        DirectiveName::Model
    } else if eq_bytes(b, "on".as_bytes()) {
        DirectiveName::On
    } else if eq_bytes(b, "bind".as_bytes()) {
        DirectiveName::Bind
    } else if eq_bytes(b, "slot".as_bytes()) {
        DirectiveName::Slot
    } else {
        let owned = part.to_owned();
        proof {
            encode_utf8_decode_utf8(part@);
        }
        DirectiveName::Custom(owned)
    }
}

/// Split a directive name such as `v-bind:arg.mod1.mod2`, `:arg`, `@evt`
/// or `#slot` into its name (shorthands normalised), its argument (with
/// whether it is a dynamic `[...]` argument) and its non-empty modifiers.
pub fn parse_directive_parts(full_name: &str) -> (r: (
    DirectiveName,
    Option<(String, bool)>,
    Vec<String>,
))
    ensures
        name_matches(r.0, name_part_of(full_name.spec_bytes())),
        match rest_start(full_name.spec_bytes()) {
            Some(rs) => r.1 matches Some((t, dynf)) && {
                let (ar, d) = arg_of(full_name.spec_bytes(), rs);
                t@ == decode_utf8(full_name.spec_bytes().subrange(ar.0, ar.1)) && dynf == d
            },
            None => r.1 is None,
        },
        strings_match(r.2@, mods_of(full_name.spec_bytes()), full_name.spec_bytes()),
{
    let b = full_name.as_bytes();
    let ghost s = full_name.spec_bytes();
    let n = b.len();
    let v_form = n >= 2 && b[0] == 0x76 && b[1] == 0x2d;
    let short = n >= 1 && (b[0] == 0x3a || b[0] == 0x40 || b[0] == 0x23);
    let (name, rest): (DirectiveName, Option<usize>) = if v_form {
        let c = find_byte(b, 2, 0x3a);
        proof {
            lemma_find_byte_from(s, 2, 0x3a);
        }
        let part = slice_between_ascii(full_name, 2, c);
        (directive_name_from(part), if c < n {
            Some(c + 1)
        } else {
            None
        })
    } else if short {
        let nm = if b[0] == 0x3a {
            DirectiveName::Bind
        } else if b[0] == 0x40 {
            DirectiveName::On
        } else {
            DirectiveName::Slot
        };
        (nm, Some(1))
    } else {
        (directive_name_from(full_name), None)
    };
    let rs = match rest {
        Some(rs) => rs,
        None => {
            return (name, None, Vec::new());
        },
    };
    let d = find_byte(b, rs, 0x2e);
    proof {
        lemma_find_byte_from(s, rs as int, 0x2e);
    }
    let arg = if d >= rs && d - rs >= 2 && b[rs] == 0x5b && b[d - 1] == 0x5d {
        let t = slice_between_ascii(full_name, rs + 1, d - 1).to_owned();
        (t, true)
    } else {
        let t = slice_between_ascii(full_name, rs, d).to_owned();
        (t, false)
    };
    let mut mods: Vec<String> = Vec::new();
    if d < n {
        let mut p = d + 1;
        let ghost mut pre: Seq<(int, int)> = seq![];
        loop
            invariant_except_break
                pre + mod_parts(s, p as int) == mod_parts(s, d + 1),
            invariant
                s == b@,
                s == full_name.spec_bytes(),
                n == s.len(),
                d + 1 <= p <= n,
                s[p - 1] == 0x2e,
                strings_match(mods@, pre, s),
            ensures
                strings_match(mods@, mod_parts(s, d + 1), s),
            decreases n - p,
        {
            let e = find_byte(b, p, 0x2e);
            proof {
                lemma_find_byte_from(s, p as int, 0x2e);
            }
            let ghost head: Seq<(int, int)> = if e > p {
                seq![(p as int, e as int)]
            } else {
                seq![]
            };
            let ghost old_mods = mods@;
            if e > p {
                let t = slice_between_ascii(full_name, p, e).to_owned();
                mods.push(t);
            }
            proof {
                assert(strings_match(mods@, pre + head, s)) by {
                    if e > p {
                        assert(mods@ == old_mods.push(mods@.last()));
                        assert forall|k: int| 0 <= k < mods@.len() implies (#[trigger] mods@[k])@
                            == decode_utf8(s.subrange((pre + head)[k].0, (pre + head)[k].1)) by {
                            if k < old_mods.len() {
                                assert(mods@[k] == old_mods[k]);
                            }
                        }
                    } else {
                        assert(pre + head =~= pre);
                    }
                }
            }
            if e < n {
                proof {
                    assert(mod_parts(s, p as int) == head + mod_parts(s, e + 1));
                    assert(pre + head + mod_parts(s, e + 1) =~= pre + (head + mod_parts(
                        s,
                        e + 1,
                    )));
                    pre = pre + head;
                }
                p = e + 1;
            } else {
                proof {
                    assert(mod_parts(s, p as int) == head);
                    pre = pre + head;
                    assert(pre =~= mod_parts(s, d + 1));
                }
                break ;
            }
        }
    } else {
    }
    (name, Some(arg), mods)
}


/// Law: every built-in directive is told apart by its name part. The part
/// `for`, `if`, `else-if`, `else`, `show`, `model`, `on`, `bind` or `slot`
/// gives its own variant and no other part gives it; any other part gives
/// `Custom` holding that very part. So two different name parts never give
/// the same directive name.
pub proof fn directive_names_are_distinct(a: Seq<u8>, b: Seq<u8>)
    ensures
        directive_name_of(a) == DirectiveNameModel::For <==> a == "for".spec_bytes(),
        directive_name_of(a) == DirectiveNameModel::If <==> a == "if".spec_bytes(),
        directive_name_of(a) == DirectiveNameModel::ElseIf <==> a == "else-if".spec_bytes(),
        directive_name_of(a) == DirectiveNameModel::Else <==> a == "else".spec_bytes(),
        directive_name_of(a) == DirectiveNameModel::Show <==> a == "show".spec_bytes(),
        directive_name_of(a) == DirectiveNameModel::Model <==> a == "model".spec_bytes(),
        directive_name_of(a) == DirectiveNameModel::On <==> a == "on".spec_bytes(),
        directive_name_of(a) == DirectiveNameModel::Bind <==> a == "bind".spec_bytes(),
        directive_name_of(a) == DirectiveNameModel::Slot <==> a == "slot".spec_bytes(),
        !(a == "for".spec_bytes() || a == "if".spec_bytes() || a == "else-if".spec_bytes() || a == "else".spec_bytes() || a == "show".spec_bytes() || a == "model".spec_bytes() || a == "on".spec_bytes() || a == "bind".spec_bytes() || a == "slot".spec_bytes()) ==> directive_name_of(a) == DirectiveNameModel::Custom(a),
        directive_name_of(a) == directive_name_of(b) ==> a == b,
{
    reveal_strlit("for");
    vstd::string::is_ascii_spec_bytes("for");
    assert("for".spec_bytes() =~= seq![0x66u8, 0x6fu8, 0x72u8]);
    reveal_strlit("if");
    vstd::string::is_ascii_spec_bytes("if");
    assert("if".spec_bytes() =~= seq![0x69u8, 0x66u8]);
    reveal_strlit("else-if");
    vstd::string::is_ascii_spec_bytes("else-if");
    assert("else-if".spec_bytes() =~= seq![0x65u8, 0x6cu8, 0x73u8, 0x65u8, 0x2du8, 0x69u8, 0x66u8]);
    reveal_strlit("else");
    vstd::string::is_ascii_spec_bytes("else");
    assert("else".spec_bytes() =~= seq![0x65u8, 0x6cu8, 0x73u8, 0x65u8]);
    reveal_strlit("show");
    vstd::string::is_ascii_spec_bytes("show");
    assert("show".spec_bytes() =~= seq![0x73u8, 0x68u8, 0x6fu8, 0x77u8]);
    reveal_strlit("model");
    vstd::string::is_ascii_spec_bytes("model");
    assert("model".spec_bytes() =~= seq![0x6du8, 0x6fu8, 0x64u8, 0x65u8, 0x6cu8]);
    reveal_strlit("on");
    vstd::string::is_ascii_spec_bytes("on");
    assert("on".spec_bytes() =~= seq![0x6fu8, 0x6eu8]);
    reveal_strlit("bind");
    vstd::string::is_ascii_spec_bytes("bind");
    assert("bind".spec_bytes() =~= seq![0x62u8, 0x69u8, 0x6eu8, 0x64u8]);
    reveal_strlit("slot");
    vstd::string::is_ascii_spec_bytes("slot");
    assert("slot".spec_bytes() =~= seq![0x73u8, 0x6cu8, 0x6fu8, 0x74u8]);
}

/// `r` is a modifier of the name `n`: a non-empty range of `n` holding no `.`.
pub open spec fn is_modifier_range(n: Seq<u8>, r: (int, int)) -> bool {
    &&& 0 <= r.0 < r.1 <= n.len()
    &&& forall|t: int| r.0 <= t < r.1 ==> n[t] != 0x2e
}

proof fn lemma_mod_parts(n: Seq<u8>, p: int)
    requires
        0 <= p <= n.len(),
    ensures
        forall|k: int|
            0 <= k < mod_parts(n, p).len() ==> p <= (#[trigger] mod_parts(n, p)[k]).0 && is_modifier_range(
                n,
                mod_parts(n, p)[k],
            ),
    decreases n.len() - p,
{
    lemma_find_byte_from(n, p, 0x2e);
    let e = find_byte_from(n, p, 0x2e);
    let head = if e > p {
        seq![(p, e)]
    } else {
        seq![]
    };
    if e < n.len() {
        lemma_mod_parts(n, e + 1);
        let tail = mod_parts(n, e + 1);
        assert(mod_parts(n, p) == head + tail);
        assert forall|k: int| 0 <= k < mod_parts(n, p).len() implies p <= (#[trigger] mod_parts(
            n,
            p,
        )[k]).0 && is_modifier_range(n, mod_parts(n, p)[k]) by {
            if k < head.len() {
                assert(mod_parts(n, p)[k] == (p, e));
            } else {
                assert(mod_parts(n, p)[k] == tail[k - head.len()]);
            }
        }
    } else {
        assert(mod_parts(n, p) == head);
    }
}

/// Law: how a directive name splits. Every modifier is a non-empty range
/// without `.`; a name without an argument has no modifiers; the
/// shorthands `:`, `@` and `#` stand for `bind`, `on` and `slot` and always
/// have an argument; a `v-` name with no `:` after the prefix has none.
pub proof fn directive_parts_are_well_formed(n: Seq<u8>)
    ensures
        forall|k: int| 0 <= k < mods_of(n).len() ==> is_modifier_range(n, #[trigger] mods_of(n)[k]),
        rest_start(n) is None ==> mods_of(n).len() == 0,
        n.len() >= 1 && n[0] == 0x3a ==> name_part_of(n) == DirectiveNameModel::Bind && rest_start(n) is Some,
        n.len() >= 1 && n[0] == 0x40 ==> name_part_of(n) == DirectiveNameModel::On && rest_start(n) is Some,
        n.len() >= 1 && n[0] == 0x23 ==> name_part_of(n) == DirectiveNameModel::Slot && rest_start(n) is Some,
        is_v_form(n) && (forall|t: int| 2 <= t < n.len() ==> n[t] != 0x3a) ==> rest_start(n) is None,
{
    if is_v_form(n) {
        lemma_find_byte_from(n, 2, 0x3a);
    }
    match rest_start(n) {
        Some(rs) => {
            lemma_find_byte_from(n, rs, 0x2e);
            let d = find_byte_from(n, rs, 0x2e);
            if d < n.len() {
                lemma_mod_parts(n, d + 1);
            }
        },
        None => {},
    }
}

/// Law: where a directive name's argument lies. It starts right after the
/// shorthand `:`, `@` or `#`, or right after the first `:` of a `v-` name
/// (whose name part then holds no `:`); it runs to the first `.` after that
/// or to the end and holds no `.`; written `[x]` it is dynamic and is `x`
/// without its brackets; and every modifier lies after it.
pub proof fn directive_argument_is_cut_at_the_first_dot(n: Seq<u8>)
    ensures
        match rest_start(n) {
            Some(rs) => {
                let d = find_byte_from(n, rs, 0x2e);
                let ar = arg_of(n, rs).0;
                let dynf = arg_of(n, rs).1;
                &&& is_shorthand(n) ==> rs == 1
                &&& is_v_form(n) ==> 3 <= rs && n[rs - 1] == 0x3a && forall|t: int|
                    2 <= t < rs - 1 ==> n[t] != 0x3a
                &&& rs <= d <= n.len()
                &&& d < n.len() ==> n[d] == 0x2e
                &&& forall|t: int| rs <= t < d ==> n[t] != 0x2e
                &&& dynf <==> (d - rs >= 2 && n[rs] == 0x5b && n[d - 1] == 0x5d)
                &&& dynf ==> ar == (rs + 1, d - 1)
                &&& !dynf ==> ar == (rs, d)
                &&& forall|k: int| 0 <= k < mods_of(n).len() ==> (#[trigger] mods_of(n)[k]).0 > d
            },
            None => true,
        },
{
    if is_v_form(n) {
        lemma_find_byte_from(n, 2, 0x3a);
    }
    if let Some(rs) = rest_start(n) {
        lemma_find_byte_from(n, rs, 0x2e);
        let d = find_byte_from(n, rs, 0x2e);
        if d < n.len() {
            lemma_mod_parts(n, d + 1);
        }
    }
}

pub proof fn lemma_attr_name_end(s: Seq<u8>, p: int)
    requires
        0 <= p <= s.len(),
    ensures
        p <= attr_name_end(s, p) <= s.len(),
        attr_name_end(s, p) < s.len() ==> is_name_stop(s[attr_name_end(s, p)]),
    decreases s.len() - p,
{
    if p < s.len() && !is_name_stop(s[p]) {
        lemma_attr_name_end(s, p + 1);
    }
}

pub proof fn lemma_unquoted_end(s: Seq<u8>, p: int)
    requires
        0 <= p <= s.len(),
    ensures
        p <= unquoted_end(s, p) <= s.len(),
        unquoted_end(s, p) < s.len() ==> is_unquoted_stop(s[unquoted_end(s, p)]),
    decreases s.len() - p,
{
    if p < s.len() && !is_unquoted_stop(s[p]) {
        lemma_unquoted_end(s, p + 1);
    }
}

/// The string holds the text of the source range `r`.
pub open spec fn text_is(t: String, s: Seq<u8>, r: (int, int)) -> bool {
    t@ == decode_utf8(s.subrange(r.0, r.1))
}

pub open spec fn span_of(sp: Span, r: (int, int)) -> bool {
    sp.start == r.0 && sp.end == r.1
}

/// The attribute or directive `x` was read from the model `m` of `s`.
pub open spec fn attr_matches(x: VAttrOrDirective, m: AttrModel, s: Seq<u8>) -> bool {
    let n = s.subrange(m.name.0, m.name.1);
    let span = Span { start: m.name.0 as u32, end: m.end as u32 };
    let value_span = match m.value {
        Some(v) => Some(Span { start: v.0 as u32, end: v.1 as u32 }),
        None => None,
    };
    if is_directive_name_spec(n) {
        x matches VAttrOrDirective::Directive(d) && directive_matches(
            d,
            n,
            m.name.0,
            m.name.1,
            d.value_raw,
            value_span,
            span,
        ) && match m.value {
            Some(v) => d.value_raw matches Some(t) && text_is(t, s, v),
            None => d.value_raw is None,
        }
    } else {
        x matches VAttrOrDirective::Attribute(a) && text_is(a.name, s, m.name) && span_of(
            a.name_span,
            m.name,
        ) && a.span == span && match m.value {
            Some(v) => a.value matches Some(av) && text_is(av.raw, s, v) && span_of(av.span, v),
            None => a.value is None,
        }
    }
}

impl<'a> Parser<'a> {
    /// Read an attribute name: everything up to `=`, `>`, `/` or
    /// whitespace.
    fn read_attr_name(&mut self) -> (r: Option<&'a str>)
        requires
            old(self).pos <= old(self).src().len(),
            is_char_boundary(old(self).src(), old(self).pos as int),
        ensures
            final(self).pos == attr_name_end(old(self).src(), old(self).pos as int),
            final(self).source_text == old(self).source_text,
            final(self).errors == old(self).errors,
            match r {
                None => final(self).pos == old(self).pos,
                Some(t) => final(self).pos > old(self).pos && t.spec_bytes() == old(
                    self,
                ).src().subrange(old(self).pos as int, final(self).pos as int),
            },
    {
        let ghost s = self.src();
        let start = self.pos;
        let bytes = self.source_text.as_bytes();
        let n = bytes.len();
        proof {
            lemma_attr_name_end(s, start as int);
        }
        while self.pos < n && !(bytes[self.pos] == 0x3d || bytes[self.pos] == 0x3e || bytes[self.pos]
            == 0x2f || bytes[self.pos] == 0x20 || bytes[self.pos] == 0x09 || bytes[self.pos]
            == 0x0a || bytes[self.pos] == 0x0d)
            invariant
                s == bytes@,
                n == s.len(),
                s == self.src(),
                start <= self.pos <= n,
                self.source_text == old(self).source_text,
                self.errors == old(self).errors,
                attr_name_end(s, start as int) == attr_name_end(s, self.pos as int),
            decreases n - self.pos,
        {
            self.pos = self.pos + 1;
        }
        if self.pos == start {
            None
        } else {
            proof {
                crate::text::lemma_boundary(self.source_text, self.pos as int);
            }
            Some(str_slice(self.source_text, start, self.pos))
        }
    }

    /// Read an attribute value: `"..."`, `'...'` (the closing quote may be
    /// missing at the end of the source) or an unquoted run.
    fn read_attr_value(&mut self) -> (r: (Option<String>, Option<Span>))
        requires
            old(self).pos <= old(self).src().len(),
            old(self).src().len() <= u32::MAX,
            is_char_boundary(old(self).src(), old(self).pos as int),
        ensures
            final(self).pos == attr_value_at(old(self).src(), old(self).pos as int).1,
            final(self).source_text == old(self).source_text,
            final(self).errors == old(self).errors,
            match attr_value_at(old(self).src(), old(self).pos as int).0 {
                Some(v) => (r.0 matches Some(t) && text_is(t, old(self).src(), v)) && (
                r.1 matches Some(sp) && span_of(sp, v)),
                None => r.0 is None && r.1 is None,
            },
    {
        let ghost s = self.src();
        let bytes = self.source_text.as_bytes();
        let n = bytes.len();
        let p0 = self.pos;
        if p0 < n && (bytes[p0] == 0x22 || bytes[p0] == 0x27) {
            let quote = bytes[p0];
            self.pos = p0 + 1;
            let start = self.pos;
            let end = find_byte(bytes, start, quote);
            proof {
                lemma_find_byte_from(s, start as int, quote);
                crate::text::lemma_boundary(self.source_text, start as int);
                crate::text::lemma_boundary(self.source_text, end as int);
            }
            self.pos = end;
            if end < n {
                self.pos = end + 1;
            }
            let t = str_slice(self.source_text, start, end);
            proof {
                encode_utf8_decode_utf8(t@);
            }
            (Some(t.to_owned()), Some(Span::new(start as u32, end as u32)))
        } else {
            let start = p0;
            while self.pos < n && !(bytes[self.pos] == 0x20 || bytes[self.pos] == 0x09
                || bytes[self.pos] == 0x0a || bytes[self.pos] == 0x0d || bytes[self.pos] == 0x3e
                || bytes[self.pos] == 0x2f)
                invariant
                    s == bytes@,
                    n == s.len(),
                    s == self.src(),
                    start <= self.pos <= n,
                    self.source_text == old(self).source_text,
                    self.errors == old(self).errors,
                    unquoted_end(s, start as int) == unquoted_end(s, self.pos as int),
                decreases n - self.pos,
            {
                self.pos = self.pos + 1;
            }
            let end = self.pos;
            if start == end {
                (None, None)
            } else {
                proof {
                    lemma_unquoted_end(s, start as int);
                    crate::text::lemma_boundary(self.source_text, end as int);
                }
                let t = str_slice(self.source_text, start, end);
                proof {
                    encode_utf8_decode_utf8(t@);
                }
                (Some(t.to_owned()), Some(Span::new(start as u32, end as u32)))
            }
        }
    }

    /// Parse a directive from a name like `v-bind:class.mod1.mod2`,
    /// `:class`, `@click` or `#slot`. The argument's span starts after the
    /// directive prefix and runs to the end of the name.
    pub fn parse_directive(
        &mut self,
        full_name: &str,
        name_span: Span,
        value_raw: Option<String>,
        value_span: Option<Span>,
        span: Span,
    ) -> (r: VDirective)
        requires
            name_span.start + full_name.spec_bytes().len() <= u32::MAX,
        ensures
            directive_matches(
                r,
                full_name.spec_bytes(),
                name_span.start as int,
                name_span.end as int,
                value_raw,
                value_span,
                span,
            ),
            final(self).pos == old(self).pos,
            final(self).source_text == old(self).source_text,
            final(self).errors == old(self).errors,
    {
        let ghost n = full_name.spec_bytes();
        let (directive_name, arg_str, modifiers) = parse_directive_parts(full_name);
        let b = full_name.as_bytes();
        let argument = match arg_str {
            Some((arg, is_dynamic)) => {
                // The argument starts right after the directive's `:` (or
                // after a shorthand's prefix character).
                let short = b.len() >= 1 && (b[0] == 0x3a || b[0] == 0x40 || b[0] == 0x23);
                let skip = if short {
                    1
                } else {
                    let c = find_byte(b, 0, 0x3a);
                    proof {
                        lemma_find_byte_from(n, 0, 0x3a);
                        lemma_find_byte_from(n, 2, 0x3a);
                        if find_byte_from(n, 0, 0x3a) < 2 {
                            assert(n[find_byte_from(n, 0, 0x3a)] == 0x3a);
                        }
                        lemma_find_from_skip(n, 0x3a);
                    }
                    c + 1
                };
                let arg_span = Span::new(name_span.start + skip as u32, name_span.end);
                if is_dynamic {
                    Some(DirectiveArgument::Dynamic(arg, arg_span))
                } else {
                    Some(DirectiveArgument::Static(arg, arg_span))
                }
            },
            None => None,
        };
        VDirective {
            name: directive_name,
            argument,
            modifiers,
            value_raw,
            value_span,
            span,
        }
    }

    /// Parse one attribute or directive at the current position; `None` when
    /// no attribute name starts here (at `>`, `/`, `=`, whitespace or the
    /// end of the source).
    pub fn parse_attribute(&mut self) -> (r: Option<VAttrOrDirective>)
        requires
            old(self).pos <= old(self).src().len(),
            old(self).src().len() <= u32::MAX,
            is_char_boundary(old(self).src(), old(self).pos as int),
        ensures
            final(self).source_text == old(self).source_text,
            final(self).errors == old(self).errors,
            match attr_at(old(self).src(), old(self).pos as int) {
                None => r is None && final(self).pos == old(self).pos,
                Some(m) => final(self).pos == m.end && (r matches Some(x) && attr_matches(
                    x,
                    m,
                    old(self).src(),
                )),
            },
    {
        let ghost s = self.src();
        let ghost p0 = self.pos as int;
        let attr_start = self.pos_u32();
        let name_str = match self.read_attr_name() {
            Some(name) => name,
            None => {
                return None;
            },
        };
        let name_end = self.pos_u32();
        let ghost ne = self.pos as int;
        proof {
            lemma_attr_name_end(s, p0);
            lemma_skip_ws_from(s, ne);
        }
        self.skip_whitespace();
        let (value_raw, value_span) = if self.current_byte() == Some(0x3du8) {
            self.advance(1);
            let ghost q1 = self.pos as int;
            proof {
                lemma_skip_ws_from(s, q1);
            }
            self.skip_whitespace();
            proof {
                let v0 = self.pos as int;
                if v0 < s.len() {
                    crate::text::lemma_ascii_char_boundary(s, v0 - 1);
                } else {
                    is_char_boundary_start_end_of_seq(s);
                }
            }
            self.read_attr_value()
        } else {
            (None, None)
        };
        let attr_end = self.pos_u32();
        let span = Span::new(attr_start, attr_end);
        let name_span = Span::new(attr_start, name_end);
        if is_directive_name(name_str) {
            let directive = self.parse_directive(name_str, name_span, value_raw, value_span, span);
            Some(VAttrOrDirective::Directive(directive))
        } else {
            let value = match value_raw {
                Some(raw) => Some(
                    VAttributeValue {
                        span: match value_span {
                            Some(vs) => vs,
                            None => span,
                        },
                        raw,
                    },
                ),
                None => None,
            };
            let name = name_str.to_owned();
            proof {
                encode_utf8_decode_utf8(name_str@);
            }
            Some(VAttrOrDirective::Attribute(VAttribute { name, name_span, value, span }))
        }
    }
}

/// The first `b` of a `v-` name is the first one from index 2 on.
proof fn lemma_find_from_skip(n: Seq<u8>, b: u8)
    requires
        n.len() >= 2,
        n[0] != b,
        n[1] != b,
    ensures
        find_byte_from(n, 0, b) == find_byte_from(n, 2, b),
{
    reveal_with_fuel(find_byte_from, 3);
}

} // verus!
