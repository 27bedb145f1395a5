//! The layout of a component's top-level blocks, and the search for the
//! end of one block's body.
use vstd::prelude::*;
use vstd::string::StringSliceAdditionalSpecFns;

use vstd::utf8::*;

use crate::ast::{
    mjs_kind, Language, SourceKind, VDocumentFragment, VElement, VElementChild, VEndTag, VNamespace, VRootChild,
    VStartTag, VText,
};
use crate::attr::{attr_built, build_vattributes, eq_ignore_case, AttrTok};
use crate::span::Span;
use crate::template::{children_match, kids_from, nodes_ok, parse_template_body, try_parse_template_body};
use crate::text::{eq_ignore_case_at, seq_eq_ignore_case, str_slice};

verus! {

/// One top-level block of a component.
pub struct LayoutBlock<'a> {
    pub tag: &'a str,
    pub range: Span,
    pub start_tag_range: Span,
    pub end_tag_range: Option<Span>,
    pub content_range: Span,
    pub attrs: Vec<AttrTok<'a>>,
    pub self_closing: bool,
}

/// The top-level blocks of a component in source order, and the text
/// between them.
pub struct ParsedLayout<'a> {
    pub blocks: Vec<LayoutBlock<'a>>,
    pub text_segments: Vec<(Span, &'a str)>,
}

/// A byte that may follow a tag name in a marker: `>`, `/` or ASCII
/// whitespace other than form feed.
pub open spec fn ends_marker(b: u8) -> bool {
    b == 0x3e || b == 0x2f || b == 0x20 || b == 0x09 || b == 0x0d || b == 0x0a
}

/// `marker` occurs at `k` in `s` up to ASCII case, and is followed by the
/// end of `s` or by a byte that ends a tag name.
pub open spec fn marker_at(s: Seq<u8>, marker: Seq<u8>, k: int) -> bool {
    &&& 0 <= k
    &&& k + marker.len() <= s.len()
    &&& seq_eq_ignore_case(s.subrange(k, k + marker.len()), marker)
    &&& (k + marker.len() == s.len() || ends_marker(s[k + marker.len()]))
}

/// One past the first `>` at or after `m`, or the end of `s`.
pub open spec fn past_gt(s: Seq<u8>, m: int) -> int
    decreases s.len() - m,
{
    if 0 <= m < s.len() {
        if s[m] == 0x3e {
            m + 1
        } else {
            past_gt(s, m + 1)
        }
    } else {
        s.len() as int
    }
}

/// The end of a block body scanned from `k` with `depth` blocks of the same
/// name open: the content end, and the end tag's range where there is one.
/// A `close` marker lowers the depth and an `open` marker raises it; the
/// close marker that brings it to zero ends the body.
pub open spec fn body_end(s: Seq<u8>, close: Seq<u8>, open: Seq<u8>, k: int, depth: int) -> (int, Option<(int, int)>)
    decreases s.len() - k,
{
    if k < 0 || k >= s.len() {
        (s.len() as int, None)
    } else if s[k] == 0x3c && marker_at(s, close, k) {
        if depth - 1 == 0 {
            (k, Some((k, past_gt(s, k + close.len()))))
        } else {
            body_end(s, close, open, k + 1, depth - 1)
        }
    } else if s[k] == 0x3c && marker_at(s, open, k) {
        body_end(s, close, open, k + 1, depth + 1)
    } else {
        body_end(s, close, open, k + 1, depth)
    }
}

proof fn lemma_past_gt(s: Seq<u8>, m: int)
    requires
        0 <= m,
    ensures
        m <= s.len() ==> m < past_gt(s, m) || (m == s.len() && past_gt(s, m) == m),
        past_gt(s, m) <= s.len(),
    decreases s.len() - m,
{
    if 0 <= m < s.len() && s[m] != 0x3e {
        lemma_past_gt(s, m + 1);
    }
}

/// Law: a block body that starts inside the source ends at or after its
/// start and at or before the end of the source; an end tag, where there
/// is one, starts where the content ends, is not empty, and ends inside
/// the source.
pub proof fn block_body_is_within_source(s: Seq<u8>, close: Seq<u8>, open: Seq<u8>, k: int, depth: int)
    requires
        0 <= k <= s.len(),
    ensures
        k <= body_end(s, close, open, k, depth).0 <= s.len(),
        body_end(s, close, open, k, depth).1 matches Some((a, b)) ==> a == body_end(s, close, open, k, depth).0
            && a < b <= s.len(),
    decreases s.len() - k,
{
    if k < s.len() {
        if s[k] == 0x3c && marker_at(s, close, k) {
            lemma_past_gt(s, k + close.len());
            if depth - 1 != 0 {
                block_body_is_within_source(s, close, open, k + 1, depth - 1);
            }
        } else if s[k] == 0x3c && marker_at(s, open, k) {
            block_body_is_within_source(s, close, open, k + 1, depth + 1);
        } else {
            block_body_is_within_source(s, close, open, k + 1, depth);
        }
    }
}

/// `</name` and `<name` as bytes.
pub open spec fn close_marker(name: Seq<u8>) -> Seq<u8> {
    seq![0x3cu8, 0x2fu8] + name
}

pub open spec fn open_marker(name: Seq<u8>) -> Seq<u8> {
    seq![0x3cu8] + name
}

fn marker_bytes(prefix: &[u8], name: &[u8]) -> (r: Vec<u8>)
    ensures
        r@ == prefix@ + name@,
{
    let mut out: Vec<u8> = Vec::new();
    let mut i: usize = 0;
    while i < prefix.len()
        invariant
            i <= prefix@.len(),
            out@ == prefix@.subrange(0, i as int),
        decreases prefix@.len() - i,
    {
        out.push(prefix[i]);
        i += 1;
        assert(out@ =~= prefix@.subrange(0, i as int));
    }
    let mut j: usize = 0;
    while j < name.len()
        invariant
            i == prefix@.len(),
            j <= name@.len(),
            out@ == prefix@ + name@.subrange(0, j as int),
        decreases name@.len() - j,
    {
        out.push(name[j]);
        j += 1;
        assert(out@ =~= prefix@ + name@.subrange(0, j as int));
    }
    assert(name@.subrange(0, name@.len() as int) =~= name@);
    out
}

fn is_marker_at(bytes: &[u8], marker: &[u8], k: usize) -> (r: bool)
    requires
        k <= bytes@.len(),
    ensures
        r == marker_at(bytes@, marker@, k as int),
{
    let len = bytes.len();
    if marker.len() > len - k {
        return false;
    }
    if !eq_ignore_case_at(bytes, k, marker) {
        return false;
    }
    let m = k + marker.len();
    m == len || {
        let b = bytes[m];
        b == 0x3e || b == 0x2f || b == 0x20 || b == 0x09 || b == 0x0d || b == 0x0a
    }
}

/// Finds where the body of the block `name` that starts at `body_lo` ends:
/// at the `</name` (in any ASCII case) that closes it, skipping over
/// nested `<name` … `</name` pairs. Returns the content end and the end
/// tag's span, which runs to just past the next `>`; a body that is not
/// closed runs to the end of `source` with no end tag.
pub fn scan_block_body(source: &str, name: &str, body_lo: u32) -> (r: (u32, Option<Span>))
    requires
        source.spec_bytes().len() <= u32::MAX,
    ensures
        ({
            let s = source.spec_bytes();
            let m = body_end(s, close_marker(name.spec_bytes()), open_marker(name.spec_bytes()), body_lo as int, 1);
            &&& r.0 == m.0
            &&& match m.1 {
                None => r.1 is None,
                Some((a, b)) => r.1 matches Some(sp) && sp.start == a && sp.end == b,
            }
        }),
{
    let bytes = source.as_bytes();
    let len = bytes.len();
    let close = marker_bytes(&[0x3c, 0x2f], name.as_bytes());
    let open = marker_bytes(&[0x3c], name.as_bytes());
    let ghost s = bytes@;
    let ghost c = close@;
    let ghost o = open@;
    proof {
        assert(c =~= close_marker(name.spec_bytes()));
        assert(o =~= open_marker(name.spec_bytes()));
    }
    let mut depth: i64 = 1;
    let mut k = body_lo as usize;
    if k > len {
        return (len as u32, None);
    }
    while k < len
        invariant
            len == s.len(),
            s == source.spec_bytes(),
            s == bytes@,
            len <= u32::MAX,
            c == close@,
            o == open@,
            c == close_marker(name.spec_bytes()),
            o == open_marker(name.spec_bytes()),
            k <= len,
            1 <= depth <= k + 1,
            body_end(s, c, o, body_lo as int, 1) == body_end(s, c, o, k as int, depth as int),
        decreases len - k,
    {
        let ghost d0 = depth as int;
        if bytes[k] == 0x3c {
            if is_marker_at(bytes, close.as_slice(), k) {
                depth = depth - 1;
                if depth == 0 {
                    let content_end = k as u32;
                    let mut m = k + close.len();
                    proof {
                        assert(past_gt(s, (k + c.len()) as int) == past_gt(s, m as int));
                    }
                    while m < len && bytes[m] != 0x3e
                        invariant
                            len == s.len(),
                            s == bytes@,
                            m <= len,
                            past_gt(s, (k + c.len()) as int) == past_gt(s, m as int),
                        decreases len - m,
                    {
                        m += 1;
                    }
                    let end_close = if m < len {
                        m + 1
                    } else {
                        m
                    };
                    proof {
                        assert(past_gt(s, m as int) == end_close);
                        assert(body_end(s, c, o, k as int, d0) == (k as int, Some((k as int, end_close as int))));
                    }
                    return (content_end, Some(Span::new(content_end, end_close as u32)));
                }
            } else if is_marker_at(bytes, open.as_slice(), k) {
                depth = depth + 1;
            }
        }
        k += 1;
    }
    (len as u32, None)
}

/// The source kind that the attributes of a top-level block are read
/// with: TypeScript as an ES module.
pub open spec fn block_attrs_kind() -> SourceKind {
    SourceKind { language: Language::TypeScript, ..mjs_kind() }
}

/// The block is a `<template>` (in any ASCII case) with a body.
pub open spec fn is_template_block(b: LayoutBlock) -> bool {
    seq_eq_ignore_case(b.tag.spec_bytes(), "template".spec_bytes()) && !b.self_closing
}

/// The bytes of the block's content.
pub open spec fn content_of(source: Seq<u8>, b: LayoutBlock) -> Seq<u8> {
    source.subrange(b.content_range.start as int, b.content_range.end as int)
}

/// The block can be built over `source`: its content lies in the source on
/// character boundaries, its attribute keys end below `u32::MAX`, and the
/// body of a `<template>` block can be parsed.
pub open spec fn layout_block_ok(source: Seq<u8>, b: LayoutBlock) -> bool {
    &&& b.content_range.start <= b.content_range.end <= source.len() <= u32::MAX
    &&& is_char_boundary(source, b.content_range.start as int)
    &&& is_char_boundary(source, b.content_range.end as int)
    &&& forall|i: int|
        0 <= i < b.attrs@.len() ==> #[trigger] b.attrs@[i].key_span.start + b.attrs@[i].key.spec_bytes().len()
            <= u32::MAX
    &&& is_template_block(b) ==> nodes_ok(kids_from(content_of(source, b), 0, 0, None).0, content_of(source, b))
}

/// Whether the block can be built (`layout_block_ok`): its content lies in
/// the source on character boundaries, its attribute keys end below
/// `u32::MAX`, and every attribute list in the tree of a `<template>`
/// body ends on a character boundary.
pub fn block_can_be_built(source: &str, block: &LayoutBlock) -> (r: bool)
    ensures
        r == layout_block_ok(source.spec_bytes(), *block),
{
    let bytes = source.as_bytes();
    let n = bytes.len();
    if n > 0xffff_ffffusize {
        return false;
    }
    let cs = block.content_range.start as usize;
    let ce = block.content_range.end as usize;
    if !(cs <= ce && ce <= n) || !source.is_char_boundary(cs) || !source.is_char_boundary(ce) {
        return false;
    }
    let mut i: usize = 0;
    while i < block.attrs.len()
        invariant
            i <= block.attrs@.len(),
            forall|j: int|
                0 <= j < i ==> #[trigger] block.attrs@[j].key_span.start + block.attrs@[j].key.spec_bytes().len()
                    <= u32::MAX,
        decreases block.attrs@.len() - i,
    {
        let a = &block.attrs[i];
        if a.key.as_bytes().len() > (0xffff_ffffu32 - a.key_span.start) as usize {
            return false;
        }
        i += 1;
    }
    let is_template = eq_ignore_case(block.tag.as_bytes(), "template".as_bytes()) && !block.self_closing;
    if is_template {
        let body = str_slice(source, cs, ce);
        assert(body.spec_bytes() == content_of(source.spec_bytes(), *block));
        return try_parse_template_body(body, block.content_range.start).is_some();
    }
    true
}

/// The element `e` is the one built from the block `b` of `source`.
pub open spec fn layout_elem_is(e: VElement, b: LayoutBlock, source: Seq<u8>) -> bool {
    let body = content_of(source, b);
    &&& e.range == b.range
    &&& e.name == b.tag
    &&& e.raw_name == b.tag
    &&& e.namespace == VNamespace::Html
    &&& e.start_tag.range == b.start_tag_range
    &&& e.start_tag.self_closing == b.self_closing
    &&& e.start_tag.attributes@.len() == b.attrs@.len()
    &&& forall|i: int|
        0 <= i < b.attrs@.len() ==> attr_built(#[trigger] e.start_tag.attributes@[i], b.attrs@[i], false, block_attrs_kind())
    &&& match b.end_tag_range {
        None => e.end_tag is None,
        Some(r) => e.end_tag matches Some(t) && t.range == r,
    }
    &&& if is_template_block(b) {
        children_match(e.children@, kids_from(body, 0, 0, None).0, body, b.content_range.start as int)
    } else if !b.self_closing && b.content_range.end > b.content_range.start {
        e.children@.len() == 1 && (e.children@[0] matches VElementChild::Text(t) && t.range == b.content_range
            && t.value.spec_bytes() == body)
    } else {
        e.children@.len() == 0
    }
}

/// Builds the element of a top-level block: its attributes, its start and
/// end tags, and as children the parsed body of a `<template>`, or else
/// its content as one text node (none when the content is empty).
pub fn build_block_element<'a>(source: &'a str, block: &LayoutBlock<'a>, _template_source_type: SourceKind) -> (r: Box<
    VElement<'a>,
>)
    requires
        layout_block_ok(source.spec_bytes(), *block),
    ensures
        layout_elem_is(*r, *block, source.spec_bytes()),
{
    let kind = SourceKind::mjs().with_module(true).with_typescript(true);
    let attrs = build_vattributes(block.attrs.as_slice(), false, kind);
    let start_tag = VStartTag {
        range: block.start_tag_range,
        self_closing: block.self_closing,
        attributes: attrs,
    };
    let end_tag = match block.end_tag_range {
        Some(r) => Some(VEndTag { range: r }),
        None => None,
    };
    let cs = block.content_range.start;
    let ce = block.content_range.end;
    let is_template = eq_ignore_case(block.tag.as_bytes(), "template".as_bytes()) && !block.self_closing;
    let mut children: Vec<VElementChild<'a>> = Vec::new();
    if is_template {
        let body = str_slice(source, cs as usize, ce as usize);
        children = parse_template_body(body, cs);
    } else if !block.self_closing && ce > cs {
        let txt = str_slice(source, cs as usize, ce as usize);
        children.push(VElementChild::Text(VText { range: block.content_range, value: txt }));
    }
    Box::new(
        VElement {
            range: block.range,
            name: block.tag,
            raw_name: block.tag,
            namespace: VNamespace::Html,
            start_tag,
            end_tag,
            children,
        },
    )
}

/// A child of the document: the text segment or the block at an index of
/// the layout.
pub enum RootModel {
    Text(int),
    Block(int),
}

/// The children of the document from byte `off`, with text segments from
/// `ti` and blocks from `bi` still to place: the text segment or else the
/// block that starts at `off`, and so on up to `total`; the walk stops where
/// neither starts at `off`.
pub open spec fn doc_from(texts: Seq<(Span, &str)>, blocks: Seq<LayoutBlock>, ti: int, bi: int, off: int, total: int) -> Seq<RootModel>
    decreases texts.len() - ti + blocks.len() - bi,
{
    if off >= total || ti < 0 || bi < 0 || ti > texts.len() || bi > blocks.len() {
        seq![]
    } else if ti < texts.len() && texts[ti].0.start == off {
        seq![RootModel::Text(ti)] + doc_from(texts, blocks, ti + 1, bi, texts[ti].0.end as int, total)
    } else if bi < blocks.len() && blocks[bi].range.start == off {
        seq![RootModel::Block(bi)] + doc_from(texts, blocks, ti, bi + 1, blocks[bi].range.end as int, total)
    } else {
        seq![]
    }
}

/// The child `c` is the model `m` of the layout over `source`.
pub open spec fn root_child_is(c: VRootChild, m: RootModel, layout: ParsedLayout, source: Seq<u8>) -> bool {
    match m {
        RootModel::Text(i) => c matches VRootChild::Text(t) && t.range == layout.text_segments@[i].0
            && t.value == layout.text_segments@[i].1,
        RootModel::Block(i) => c matches VRootChild::Element(e) && layout_elem_is(e, layout.blocks@[i], source),
    }
}

/// Builds the document of a component from its layout: its text segments
/// and blocks, placed in source order from byte 0 on.
pub fn build_document<'a>(source: &'a str, layout: &ParsedLayout<'a>, template_source_type: SourceKind) -> (r:
    VDocumentFragment<'a>)
    requires
        source.spec_bytes().len() <= u32::MAX,
        forall|i: int| 0 <= i < layout.blocks@.len() ==> layout_block_ok(source.spec_bytes(), #[trigger] layout.blocks@[i]),
    ensures
        r.range.start == 0 && r.range.end == source.spec_bytes().len(),
        ({
            let m = doc_from(layout.text_segments@, layout.blocks@, 0, 0, 0, source.spec_bytes().len() as int);
            &&& r.children@.len() == m.len()
            &&& forall|k: int| 0 <= k < m.len() ==> root_child_is(#[trigger] r.children@[k], m[k], *layout, source.spec_bytes())
        }),
{
    let total = source.as_bytes().len() as u32;
    let texts = &layout.text_segments;
    let blocks = &layout.blocks;
    let mut root: Vec<VRootChild<'a>> = Vec::new();
    let mut ti: usize = 0;
    let mut bi: usize = 0;
    let mut next_offset: u32 = 0;
    let ghost full = doc_from(texts@, blocks@, 0, 0, 0, total as int);
    let ghost mut done: Seq<RootModel> = seq![];
    loop
        invariant
            total == source.spec_bytes().len(),
            ti <= texts@.len(),
            bi <= blocks@.len(),
            texts@ == layout.text_segments@,
            blocks@ == layout.blocks@,
            forall|i: int| 0 <= i < layout.blocks@.len() ==> layout_block_ok(source.spec_bytes(), #[trigger] layout.blocks@[i]),
            full == done + doc_from(texts@, blocks@, ti as int, bi as int, next_offset as int, total as int),
            root@.len() == done.len(),
            forall|k: int| 0 <= k < done.len() ==> root_child_is(#[trigger] root@[k], done[k], *layout, source.spec_bytes()),
        ensures
            full == done,
            root@.len() == done.len(),
            forall|k: int| 0 <= k < done.len() ==> root_child_is(#[trigger] root@[k], done[k], *layout, source.spec_bytes()),
        decreases texts@.len() - ti + blocks@.len() - bi,
    {
        if next_offset >= total {
            assert(done + Seq::<RootModel>::empty() =~= done);
            break;
        }
        if ti < texts.len() && texts[ti].0.start == next_offset {
            let (span, txt) = texts[ti];
            let ghost before = done;
            root.push(VRootChild::Text(VText { range: span, value: txt }));
            proof {
                done = done.push(RootModel::Text(ti as int));
                assert(before + doc_from(texts@, blocks@, ti as int, bi as int, next_offset as int, total as int)
                    =~= done + doc_from(texts@, blocks@, ti + 1, bi as int, span.end as int, total as int));
            }
            next_offset = span.end;
            ti += 1;
            continue;
        }
        if bi < blocks.len() && blocks[bi].range.start == next_offset {
            let block = &blocks[bi];
            proof {
                assert(layout_block_ok(source.spec_bytes(), layout.blocks@[bi as int]));
            }
            let element = build_block_element(source, block, template_source_type);
            let ghost before = done;
            root.push(VRootChild::Element(*element));
            proof {
                done = done.push(RootModel::Block(bi as int));
                assert(before + doc_from(texts@, blocks@, ti as int, bi as int, next_offset as int, total as int)
                    =~= done + doc_from(texts@, blocks@, ti as int, bi + 1, block.range.end as int, total as int));
            }
            next_offset = block.range.end;
            bi += 1;
            continue;
        }
        assert(done + Seq::<RootModel>::empty() =~= done);
        break;
    }
    VDocumentFragment { range: Span::new(0, total), children: root }
}

/// Builds the document as `build_document` does when its `requires` holds:
/// the source ends below `u32::MAX` and every block passes
/// `block_can_be_built`; `None` otherwise.
pub fn try_build_document<'a>(source: &'a str, layout: &ParsedLayout<'a>, template_source_type: SourceKind) -> (r:
    Option<VDocumentFragment<'a>>)
    ensures
        r is Some <==> source.spec_bytes().len() <= u32::MAX && forall|i: int|
            0 <= i < layout.blocks@.len() ==> layout_block_ok(source.spec_bytes(), #[trigger] layout.blocks@[i]),
        r matches Some(d) ==> {
            let m = doc_from(layout.text_segments@, layout.blocks@, 0, 0, 0, source.spec_bytes().len() as int);
            &&& d.range.start == 0 && d.range.end == source.spec_bytes().len()
            &&& d.children@.len() == m.len()
            &&& forall|k: int| 0 <= k < m.len() ==> root_child_is(#[trigger] d.children@[k], m[k], *layout, source.spec_bytes())
        },
{
    if source.as_bytes().len() > 0xffff_ffffusize {
        return None;
    }
    let mut i: usize = 0;
    while i < layout.blocks.len()
        invariant
            i <= layout.blocks@.len(),
            forall|j: int| 0 <= j < i ==> layout_block_ok(source.spec_bytes(), #[trigger] layout.blocks@[j]),
        decreases layout.blocks@.len() - i,
    {
        if !block_can_be_built(source, &layout.blocks[i]) {
            return None;
        }
        i += 1;
    }
    Some(build_document(source, layout, template_source_type))
}

} // verus!
