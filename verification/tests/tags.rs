use vue_oxlint_parser::layout::scan_block_body;
use vue_oxlint_parser::span::Span;
use vue_oxlint_parser::tags::{
    is_raw_text_tag, is_rc_data_tag, is_void_tag, split_directive_argument, split_v_for_expression,
    trimmed_sub_span,
};

#[test]
fn tag_classes_ignore_ascii_case() {
    assert!(is_raw_text_tag("script"));
    assert!(is_raw_text_tag("SCRIPT"));
    assert!(is_raw_text_tag("PlainText"));
    assert!(!is_raw_text_tag("div"));
    assert!(!is_raw_text_tag("scripts"));
    assert!(is_rc_data_tag("Title"));
    assert!(is_rc_data_tag("textarea"));
    assert!(!is_rc_data_tag("text"));
    assert!(is_void_tag("BR"));
    assert!(is_void_tag("img"));
    assert!(!is_void_tag("span"));
}

#[test]
fn directive_argument_and_modifiers() {
    let (arg, mods) = split_directive_argument(":value.trim..lazy");
    assert_eq!(arg, Some(("value", 1)));
    assert_eq!(mods, vec![("trim", 7), ("lazy", 13)]);

    let (arg, mods) = split_directive_argument("click.stop");
    assert_eq!(arg, Some(("click", 0)));
    assert_eq!(mods, vec![("stop", 6)]);

    let (arg, mods) = split_directive_argument(".prop");
    assert_eq!(arg, None);
    assert_eq!(mods, vec![("prop", 1)]);

    let (arg, mods) = split_directive_argument("");
    assert_eq!(arg, None);
    assert!(mods.is_empty());
}

#[test]
fn v_for_value_splits_at_in_before_of() {
    assert_eq!(split_v_for_expression("item in items"), Some(("item", "items", 4)));
    assert_eq!(split_v_for_expression("(a, i) of list"), Some(("(a, i)", "list", 6)));
    assert_eq!(split_v_for_expression("x of y in z"), Some(("x of y", "z", 6)));
    assert_eq!(split_v_for_expression("items"), None);
    assert_eq!(split_v_for_expression("a in"), None);
}

#[test]
fn trimmed_sub_span_skips_surrounding_whitespace() {
    let parent = Span::new(100, 120);
    let r = trimmed_sub_span(parent, " item ", "( item , i) in list");
    assert_eq!((r.start, r.end), (102, 106));
    let missing = trimmed_sub_span(parent, "zz", "abc");
    assert_eq!((missing.start, missing.end), (100, 102));
}

#[test]
fn block_body_ends_at_its_own_end_tag() {
    let src = "<template><template>x</template></template>!";
    let (end, tag) = scan_block_body(src, "template", 10);
    assert_eq!(end, 32);
    let tag = tag.unwrap();
    assert_eq!((tag.start, tag.end), (32, 43));

    let (end, tag) = scan_block_body("<style>a</STYLE >", "style", 7);
    assert_eq!(end, 8);
    assert_eq!(tag.map(|t| (t.start, t.end)), Some((8, 17)));

    let (end, tag) = scan_block_body("<script>a</scripts>", "script", 8);
    assert_eq!(end, 19);
    assert!(tag.is_none());

    let (end, tag) = scan_block_body("<x>a</x", "x", 3);
    assert_eq!(end, 4);
    assert_eq!(tag.map(|t| (t.start, t.end)), Some((4, 7)));
}
