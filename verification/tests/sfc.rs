use vue_oxlint_parser::sfc::{split, SfcError};

#[test]
fn sfc_splits_basic_sfc() {
    let src = "<template>\n  <div>{{ x }}</div>\n</template>\n<script>let x = 1</script>\n";
    let layout = split(src).unwrap();
    assert_eq!(layout.blocks.len(), 2);
    assert_eq!(layout.blocks[0].tag, "template");
    assert_eq!(layout.blocks[1].tag, "script");
}

#[test]
fn sfc_handles_self_closing_block() {
    let src = "<template src=\"./x.html\" />\n";
    let layout = split(src).unwrap();
    assert_eq!(layout.blocks.len(), 1);
    assert!(layout.blocks[0].self_closing);
}

#[test]
fn block_ranges_and_contents() {
    let src = "<script setup>let a = 1</script>";
    let layout = split(src).unwrap();
    let b = &layout.blocks[0];
    assert_eq!(b.tag, "script");
    assert_eq!((b.range.start, b.range.end), (0, 32));
    assert_eq!((b.start_tag_range.start, b.start_tag_range.end), (0, 14));
    let end = b.end_tag_range.unwrap();
    assert_eq!((end.start, end.end), (23, 32));
    assert_eq!((b.content_range.start, b.content_range.end), (14, 23));
    assert_eq!(b.raw_attributes, "setup");
    assert!(!b.self_closing);
}

#[test]
fn text_between_blocks_is_kept() {
    let src = "a<style></style>b";
    let layout = split(src).unwrap();
    assert_eq!(layout.blocks.len(), 1);
    assert_eq!(layout.text_segments.len(), 2);
    assert_eq!(layout.text_segments[0].1, "a");
    assert_eq!(layout.text_segments[1].1, "b");
    assert_eq!((layout.text_segments[1].0.start, layout.text_segments[1].0.end), (16, 17));
}

#[test]
fn pieces_cover_the_whole_source() {
    let src = " x <template><p></p></template>\n<i18n lang=\"json\">{}</i18n> tail";
    let layout = split(src).unwrap();
    let mut ranges: Vec<(u32, u32)> = Vec::new();
    for b in &layout.blocks {
        ranges.push((b.range.start, b.range.end));
    }
    for t in &layout.text_segments {
        ranges.push((t.0.start, t.0.end));
    }
    ranges.sort();
    let mut at = 0u32;
    for (s, e) in ranges {
        assert_eq!(s, at);
        at = e;
    }
    assert_eq!(at as usize, src.len());
}

#[test]
fn unterminated_start_tag_is_an_error() {
    let src = "<template";
    match split(src) {
        Err(SfcError::UnterminatedStartTag { offset }) => assert_eq!(offset, 0),
        _ => panic!("expected an unterminated start tag"),
    }
}

#[test]
fn missing_end_tag_is_an_error() {
    let src = "<script>let a</script";
    match split(src) {
        Err(e) => {
            match e {
                SfcError::MissingEndTag { name, start, end } => {
                    assert_eq!((name, start, end), ("script", 0, 8));
                }
                _ => panic!("expected a missing end tag"),
            }
            let sp = e.label();
            assert_eq!((sp.start, sp.end), (0, 8));
        }
        Ok(_) => panic!("expected an error"),
    }
}

#[test]
fn unclosed_block_is_an_error() {
    match split("<template><div>") {
        Err(e) => {
            match e {
                SfcError::MissingEndTag { name, start, end } => assert_eq!((name, start, end), ("template", 0, 10)),
                _ => panic!("expected a missing end tag"),
            }
            assert_eq!(e.message(), "Missing end tag for `<template>`");
            assert_eq!(e.code_scope(), "vue-sfc");
        }
        Ok(_) => panic!("expected an error"),
    }
}

#[test]
fn unterminated_start_tag_message() {
    let e = split("<template a=\">\"").err().unwrap();
    assert_eq!(e.message(), "Unterminated SFC start tag");
    let sp = e.label();
    assert_eq!((sp.start, sp.end), (0, 1));
    let m = split("<template></template").err().unwrap();
    assert_eq!(m.message(), "Missing end tag for `<template>`");
    let sp = m.label();
    assert_eq!((sp.start, sp.end), (0, 10));
}

#[test]
fn nested_same_name_blocks_balance() {
    let src = "<template><template>x</template></template>";
    let layout = split(src).unwrap();
    assert_eq!(layout.blocks.len(), 1);
    assert_eq!(layout.blocks[0].range.end as usize, src.len());
}
