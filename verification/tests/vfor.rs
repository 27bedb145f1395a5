use vue_oxlint_parser::span::Span;
use vue_oxlint_parser::vfor::parse_v_for_spans;

fn spans(src: &str, start: u32, end: u32) -> Option<((u32, u32), (u32, u32))> {
    parse_v_for_spans(src, Span::new(start, end)).map(|(l, r)| ((l.start, l.end), (r.start, r.end)))
}

#[test]
fn v_for_alias_and_list() {
    assert_eq!(spans("item in items", 0, 13), Some(((0, 4), (8, 13))));
    assert_eq!(spans("(a,b) of  xs", 0, 12), Some(((0, 5), (10, 12))));
    assert_eq!(spans("x in y in z", 0, 11), Some(((0, 1), (5, 11))));
    assert_eq!(spans("a in", 0, 4), None);
}

#[test]
fn v_for_spans_are_moved_into_the_source() {
    let src = "<li v-for=\"é in list\">";
    assert_eq!(spans(src, 11, 21), Some(((11, 13), (17, 21))));
}

#[test]
fn v_for_separator_rules() {
    assert_eq!(spans("a\u{3000}in\tb", 0, 8), Some(((0, 1), (7, 8))));
    assert_eq!(spans("ain b", 0, 5), None);
    assert_eq!(spans("a in  b c", 0, 9), Some(((0, 1), (6, 9))));
    assert_eq!(spans(" in x", 0, 5), Some(((0, 0), (4, 5))));
    assert_eq!(spans("a inx", 0, 5), None);
    assert_eq!(spans("a of\n[1]", 0, 8), Some(((0, 1), (5, 8))));
}
