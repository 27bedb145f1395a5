use vue_oxlint_parser::toolkit::{comment_data, diagnostic_from_parts, diagnostic_record, line_comment_end, native_diagnostic, JsCommentKind};

#[test]
fn line_comment_text_runs_to_the_line_end() {
    let src = "a // note\nb";
    assert_eq!(line_comment_end(src, 4), 9);
    let d = comment_data(src, JsCommentKind::Line, 2, 9);
    assert_eq!(d.value, " note");
    assert_eq!((d.start, d.end), (2, 9));
}

#[test]
fn last_line_comment_runs_to_the_end() {
    let src = "x //end";
    assert_eq!(line_comment_end(src, 4), 7);
    let d = comment_data(src, JsCommentKind::Line, 2, 3);
    assert_eq!(d.value, "end");
    assert_eq!((d.start, d.end), (2, 7));
}

#[test]
fn block_comment_reports_the_whole_token() {
    let src = "a /* b */ c";
    let d = comment_data(src, JsCommentKind::Block, 2, 9);
    assert_eq!(d.value, "/* b */");
    assert_eq!((d.start, d.end), (2, 9));
    let inside = comment_data("é/*x*/", JsCommentKind::Block, 1, 8);
    assert_eq!(inside.value, "");
    assert_eq!((inside.start, inside.end), (1, 8));
}

#[test]
fn diagnostics_report_their_first_label() {
    let d = oxc_diagnostics::OxcDiagnostic::error("bad token").with_label(oxc_span::Span::new(3, 7));
    let r = native_diagnostic(&d).unwrap();
    assert_eq!(r.message, "bad token");
    assert_eq!((r.start, r.end), (3, 7));
    let bare = native_diagnostic(&oxc_diagnostics::OxcDiagnostic::warn("w")).unwrap();
    assert_eq!((bare.message.as_str(), bare.start, bare.end), ("w", 0, 0));
    let rec = diagnostic_record("m".to_string(), Some((10, 5)));
    assert_eq!((rec.start, rec.end), (10, 15));
}

#[test]
fn diagnostic_records_cover_the_first_label() {
    let r = diagnostic_from_parts("m".to_string(), &[(4, 2), (9, 1)]).unwrap();
    assert_eq!((r.message.as_str(), r.start, r.end), ("m", 4, 6));
    let none = diagnostic_from_parts("m".to_string(), &[]).unwrap();
    assert_eq!((none.start, none.end), (0, 0));
    assert!(diagnostic_from_parts("m".to_string(), &[(u32::MAX, 1)]).is_none());
    let two = oxc_diagnostics::OxcDiagnostic::error("e")
        .with_labels([oxc_span::Span::new(1, 2), oxc_span::Span::new(5, 9)]);
    let r = native_diagnostic(&two).unwrap();
    assert_eq!((r.start, r.end), (1, 2));
}
