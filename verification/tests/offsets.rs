use vue_oxlint_parser::source_text::SourceOffsets;
use vue_oxlint_parser::span::Span;
use vue_oxlint_parser::toolkit::JsCommentKind;
use vue_oxlint_parser::transform::{native_comment, native_diagnostic};

#[test]
fn byte_offsets_become_utf16_offsets() {
    let src = "a\u{e9}\u{1d11e}b";
    let o = SourceOffsets::new(src);
    assert_eq!(o.offset(0), 0);
    assert_eq!(o.offset(1), 1);
    assert_eq!(o.offset(3), 2);
    assert_eq!(o.offset(7), 4);
    assert_eq!(o.offset(8), 5);
    assert_eq!(o.offset(2), 2);
    assert_eq!(o.offset(5), 4);
    assert_eq!(o.offset(100), 97);
    assert_eq!(o.range(Span::new(3, 8)), vec![2, 5]);
}

#[test]
fn ascii_offsets_stay_as_they_are() {
    let o = SourceOffsets::new("let x = 1;");
    assert_eq!(o.offset(4), 4);
    assert_eq!(o.range(Span::new(0, 10)), vec![0, 10]);
}

#[test]
fn comments_are_reported_with_utf16_offsets() {
    let src = "x//\u{e9}\ny";
    let o = SourceOffsets::new(src);
    let c = native_comment(src, &o, JsCommentKind::Line, 1, 6);
    assert_eq!(c.kind, "Line");
    assert_eq!(c.value, "\u{e9}");
    assert_eq!((c.start, c.end, c.range), (1, 4, (1, 4)));
    let src = "\u{e9}/*b*/";
    let o = SourceOffsets::new(src);
    let c = native_comment(src, &o, JsCommentKind::Block, 2, 7);
    assert_eq!(c.kind, "Block");
    assert_eq!(c.value, "/*b*/");
    assert_eq!((c.start, c.end, c.range), (1, 6, (1, 6)));
}

#[test]
fn diagnostics_are_reported_with_utf16_offsets() {
    let o = SourceOffsets::new("\u{e9} abc");
    let d = oxc_diagnostics::OxcDiagnostic::error("bad").with_label(oxc_span::Span::new(3, 5));
    let r = native_diagnostic(&o, &d).unwrap();
    assert_eq!((r.message.as_str(), r.start, r.end), ("bad", 2, 4));
    let bare = native_diagnostic(&o, &oxc_diagnostics::OxcDiagnostic::warn("w")).unwrap();
    assert_eq!((bare.start, bare.end), (0, 0));
}
