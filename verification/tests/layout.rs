use vue_oxlint_parser::ast::{SourceKind, VElementChild, VRootChild};
use vue_oxlint_parser::layout::{block_can_be_built, build_document, try_build_document, LayoutBlock, ParsedLayout};
use vue_oxlint_parser::span::Span;

fn block<'a>(tag: &'a str, range: (u32, u32), start: (u32, u32), end: Option<(u32, u32)>) -> LayoutBlock<'a> {
    LayoutBlock {
        tag,
        range: Span::new(range.0, range.1),
        start_tag_range: Span::new(start.0, start.1),
        end_tag_range: end.map(|(a, b)| Span::new(a, b)),
        content_range: Span::new(start.1, end.map_or(start.1, |e| e.0)),
        attrs: Vec::new(),
        self_closing: end.is_none(),
    }
}

#[test]
fn document_places_blocks_and_text_in_order() {
    let src = "<template><p>x</p></template>\n<style>a{}</style>";
    let layout = ParsedLayout {
        blocks: vec![
            block("template", (0, 29), (0, 10), Some((18, 29))),
            block("style", (30, 48), (30, 37), Some((40, 48))),
        ],
        text_segments: vec![(Span::new(29, 30), "\n")],
    };
    let doc = build_document(src, &layout, SourceKind::mjs());
    assert_eq!((doc.range.start, doc.range.end), (0, 48));
    assert_eq!(doc.children.len(), 3);
    match &doc.children[0] {
        VRootChild::Element(e) => {
            assert_eq!(e.name, "template");
            assert_eq!(e.children.len(), 1);
            match &e.children[0] {
                VElementChild::Element(p) => assert_eq!((p.range.start, p.range.end), (10, 18)),
                _ => panic!(),
            }
            assert_eq!(e.end_tag.as_ref().map(|t| (t.range.start, t.range.end)), Some((18, 29)));
        }
        _ => panic!(),
    }
    match &doc.children[1] {
        VRootChild::Text(t) => assert_eq!((t.range.start, t.range.end, t.value), (29, 30, "\n")),
        _ => panic!(),
    }
    match &doc.children[2] {
        VRootChild::Element(e) => {
            assert_eq!(e.name, "style");
            match &e.children[0] {
                VElementChild::Text(t) => assert_eq!((t.range.start, t.range.end, t.value), (37, 40, "a{}")),
                _ => panic!(),
            }
        }
        _ => panic!(),
    }
}

#[test]
fn document_stops_where_nothing_starts() {
    let src = "<x/>  ";
    let layout = ParsedLayout { blocks: vec![block("x", (0, 4), (0, 4), None)], text_segments: Vec::new() };
    let doc = build_document(src, &layout, SourceKind::mjs());
    assert_eq!(doc.children.len(), 1);
    match &doc.children[0] {
        VRootChild::Element(e) => {
            assert!(e.start_tag.self_closing);
            assert!(e.children.is_empty());
        }
        _ => panic!(),
    }
}

#[test]
fn checked_document_builds_where_every_block_passes() {
    let src = "<template><p>x</p></template>\n<style>a{}</style>";
    let layout = ParsedLayout {
        blocks: vec![
            block("template", (0, 29), (0, 10), Some((18, 29))),
            block("style", (30, 48), (30, 37), Some((40, 48))),
        ],
        text_segments: vec![(Span::new(29, 30), "\n")],
    };
    assert!(block_can_be_built(src, &layout.blocks[0]));
    let doc = try_build_document(src, &layout, SourceKind::mjs()).unwrap();
    assert_eq!(doc.children.len(), 3);
}

#[test]
fn checked_document_refuses_a_block_out_of_the_source() {
    let src = "<template>x</template>";
    let bad = ParsedLayout { blocks: vec![block("template", (0, 40), (0, 10), Some((30, 40)))], text_segments: Vec::new() };
    assert!(!block_can_be_built(src, &bad.blocks[0]));
    assert!(try_build_document(src, &bad, SourceKind::mjs()).is_none());
    let src2 = "<template><p é</template>";
    let cut = ParsedLayout { blocks: vec![block("template", (0, 26), (0, 10), Some((15, 26)))], text_segments: Vec::new() };
    assert!(!block_can_be_built(src2, &cut.blocks[0]));
    assert!(try_build_document(src2, &cut, SourceKind::mjs()).is_none());
    let src3 = "<template>é</template>";
    let ok = ParsedLayout { blocks: vec![block("template", (0, 23), (0, 10), Some((12, 23)))], text_segments: Vec::new() };
    assert!(block_can_be_built(src3, &ok.blocks[0]));
    assert_eq!(try_build_document(src3, &ok, SourceKind::mjs()).unwrap().children.len(), 1);
}
