use vue_oxlint_parser::ast::{VAttributeKey, VAttributeValue, VDirectiveKeyArgument, VElementChild};
use vue_oxlint_parser::template::{parse_attributes, parse_template_body};

#[test]
fn plain_attributes_are_literals() {
    let raw = " id=\"app\" hidden";
    let attrs = parse_attributes(raw, raw, 10);
    assert_eq!(attrs.len(), 2);
    assert!(!attrs[0].directive);
    assert_eq!((attrs[0].range.start, attrs[0].range.end), (11, 19));
    match &attrs[0].value {
        Some(VAttributeValue::Literal(l)) => {
            assert_eq!(l.value, "app");
            assert_eq!((l.range.start, l.range.end), (14, 19));
        }
        _ => panic!("literal expected"),
    }
    assert!(attrs[1].value.is_none());
}

#[test]
fn directive_keys_split_name_argument_modifiers() {
    let raw = "v-on:click.stop.prevent=\"go()\"";
    let attrs = parse_attributes(raw, raw, 0);
    assert_eq!(attrs.len(), 1);
    assert!(attrs[0].directive);
    match &attrs[0].key {
        VAttributeKey::Directive(dk) => {
            assert_eq!(dk.name.name, "v-on");
            match &dk.argument {
                Some(VDirectiveKeyArgument::Identifier(id)) => {
                    assert_eq!(id.name, "click");
                    assert_eq!((id.range.start, id.range.end), (5, 10));
                }
                _ => panic!("argument expected"),
            }
            assert_eq!(dk.modifiers.len(), 2);
            assert_eq!(dk.modifiers[1].name, "prevent");
        }
        _ => panic!("directive expected"),
    }
    match &attrs[0].value {
        Some(VAttributeValue::Expression(e)) => {
            assert_eq!(e.raw_expression, "go()");
            assert_eq!((e.expression_range.start, e.expression_range.end), (25, 29));
            assert_eq!((e.range.start, e.range.end), (24, 30));
        }
        _ => panic!("expression expected"),
    }
}

#[test]
fn shorthand_directives() {
    let raw = ":foo=bar @x #slot";
    let attrs = parse_attributes(raw, raw, 0);
    assert_eq!(attrs.len(), 3);
    for a in &attrs {
        assert!(a.directive);
    }
    match &attrs[0].key {
        VAttributeKey::Directive(dk) => {
            assert_eq!(dk.name.name, ":");
            assert!(matches!(&dk.argument, Some(VDirectiveKeyArgument::Identifier(id)) if id.name == "foo"));
        }
        _ => panic!(),
    }
    match &attrs[0].value {
        Some(VAttributeValue::Expression(e)) => assert_eq!(e.raw_expression, "bar"),
        _ => panic!(),
    }
}

#[test]
fn unclosed_quote_runs_to_the_end() {
    let raw = "a=\"xy";
    let attrs = parse_attributes(raw, raw, 0);
    assert_eq!(attrs.len(), 1);
    assert_eq!((attrs[0].range.start, attrs[0].range.end), (0, 5));
    match &attrs[0].value {
        Some(VAttributeValue::Literal(l)) => assert_eq!(l.value, "xy"),
        _ => panic!(),
    }
}

#[test]
fn lone_equals_is_skipped() {
    let raw = " = a";
    let attrs = parse_attributes(raw, raw, 0);
    assert_eq!(attrs.len(), 1);
    match &attrs[0].key {
        VAttributeKey::Identifier(id) => assert_eq!(id.name, "a"),
        _ => panic!(),
    }
}

#[test]
fn template_tree_with_text_and_mustache() {
    let body = "<div class=\"a\">hi {{ msg }}</div>";
    let kids = parse_template_body(body, 100);
    assert_eq!(kids.len(), 1);
    match &kids[0] {
        VElementChild::Element(el) => {
            assert_eq!(el.name, "div");
            assert_eq!((el.range.start, el.range.end), (100, 133));
            assert_eq!(el.start_tag.attributes.len(), 1);
            assert_eq!(el.children.len(), 2);
            match &el.children[0] {
                VElementChild::Text(t) => assert_eq!(t.value, "hi "),
                _ => panic!(),
            }
            match &el.children[1] {
                VElementChild::ExpressionContainer(e) => {
                    assert_eq!(e.raw_expression, " msg ");
                    assert_eq!((e.range.start, e.range.end), (118, 127));
                }
                _ => panic!(),
            }
            let end = el.end_tag.unwrap();
            assert_eq!((end.range.start, end.range.end), (127, 133));
        }
        _ => panic!(),
    }
}

#[test]
fn void_and_self_closing_elements_have_no_children() {
    let body = "<br><img src=x/><input>";
    let kids = parse_template_body(body, 0);
    assert_eq!(kids.len(), 3);
    for k in &kids {
        match k {
            VElementChild::Element(el) => {
                assert!(el.children.is_empty());
                assert!(el.end_tag.is_none());
            }
            _ => panic!(),
        }
    }
}

#[test]
fn unclosed_element_ends_at_the_end() {
    let body = "<p>text";
    let kids = parse_template_body(body, 0);
    match &kids[0] {
        VElementChild::Element(el) => {
            assert_eq!((el.range.start, el.range.end), (0, 7));
            assert!(el.end_tag.is_none());
        }
        _ => panic!(),
    }
}

#[test]
fn comments_and_stray_end_tags_are_dropped() {
    let body = "a<!-- c -->b</x>c";
    let kids = parse_template_body(body, 0);
    assert_eq!(kids.len(), 3);
    match (&kids[0], &kids[1], &kids[2]) {
        (VElementChild::Text(a), VElementChild::Text(b), VElementChild::Text(c)) => {
            assert_eq!((a.value, b.value, c.value), ("a", "b", "c"));
        }
        _ => panic!(),
    }
}

#[test]
fn unterminated_mustache_is_kept_as_text() {
    let kids = parse_template_body("x{{y", 0);
    assert_eq!(kids.len(), 1);
    match &kids[0] {
        VElementChild::Text(a) => {
            assert_eq!(a.value, "x{{y");
            assert_eq!((a.range.start, a.range.end), (0, 4));
        }
        _ => panic!(),
    }
    let kids = parse_template_body("a{{ b }}{{c", 0);
    assert_eq!(kids.len(), 3);
    match (&kids[0], &kids[1], &kids[2]) {
        (VElementChild::Text(a), VElementChild::ExpressionContainer(e), VElementChild::Text(c)) => {
            assert_eq!(((a.range.start, a.range.end), a.value), ((0, 1), "a"));
            assert_eq!((e.range.start, e.range.end), (1, 8));
            assert_eq!((e.expression_range.start, e.expression_range.end), (3, 6));
            assert_eq!(e.raw_expression, " b ");
            assert_eq!(((c.range.start, c.range.end), c.value), ((8, 11), "{{c"));
        }
        _ => panic!(),
    }
}

#[test]
fn end_tags_match_ignoring_case() {
    let body = "<Div>a</DIV>";
    let kids = parse_template_body(body, 0);
    match &kids[0] {
        VElementChild::Element(el) => assert!(el.end_tag.is_some()),
        _ => panic!(),
    }
}
