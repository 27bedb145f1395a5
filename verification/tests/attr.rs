use vue_oxlint_parser::ast::{SourceKind, VAttributeKey, VAttributeValue, VDirectiveKeyArgument, VExprKind};
use vue_oxlint_parser::attr::{build_vattributes, has_v_pre, AttrTok, AttrValue};
use vue_oxlint_parser::span::Span;

fn tok<'a>(key: &'a str, start: u32, value: Option<(&'a str, u32)>) -> AttrTok<'a> {
    let key_end = start + key.len() as u32;
    match value {
        None => AttrTok { key_span: Span::new(start, key_end), key, value: None, attr_end: key_end },
        Some((text, at)) => {
            let end = at + text.len() as u32 + 2;
            AttrTok {
                key_span: Span::new(start, key_end),
                key,
                value: Some(AttrValue {
                    outer_span: Span::new(at, end),
                    inner_span: Span::new(at + 1, end - 1),
                    text,
                    quoted: true,
                }),
                attr_end: end,
            }
        }
    }
}

#[test]
fn on_slot_for_values_are_tagged() {
    let toks = [
        tok("@click", 0, Some(("go", 7))),
        tok("v-slot:item", 20, Some(("p", 32))),
        tok("v-for", 40, Some(("a in b", 46))),
        tok(":x", 60, Some(("y", 63))),
    ];
    let attrs = build_vattributes(&toks, false, SourceKind::mjs());
    let kinds: Vec<VExprKind> = attrs
        .iter()
        .map(|a| match &a.value {
            Some(VAttributeValue::Expression(e)) => e.kind,
            _ => panic!(),
        })
        .collect();
    assert_eq!(kinds, vec![VExprKind::VOn, VExprKind::VSlot, VExprKind::VFor, VExprKind::Default]);
}

#[test]
fn bind_without_value_stands_for_its_name() {
    let toks = [tok(":foo", 5, None)];
    let attrs = build_vattributes(&toks, false, SourceKind::mjs());
    match &attrs[0].value {
        Some(VAttributeValue::Expression(e)) => {
            assert!(e.same_name_shorthand);
            assert_eq!(e.raw_expression, "foo");
            assert_eq!((e.range.start, e.range.end), (6, 9));
        }
        _ => panic!("synthesised value expected"),
    }
    let toks = [tok(":9x", 0, None), tok("@foo", 4, None)];
    let attrs = build_vattributes(&toks, false, SourceKind::mjs());
    assert!(attrs[0].value.is_none());
    assert!(attrs[1].value.is_none());
}

#[test]
fn dynamic_argument_is_an_expression() {
    let toks = [tok(":[key].sync", 0, None)];
    let attrs = build_vattributes(&toks, false, SourceKind::mjs());
    match &attrs[0].key {
        VAttributeKey::Directive(dk) => {
            match &dk.argument {
                Some(VDirectiveKeyArgument::Expression(e)) => {
                    assert_eq!(e.raw_expression, "key");
                    assert_eq!((e.range.start, e.range.end), (1, 6));
                    assert_eq!((e.expression_range.start, e.expression_range.end), (2, 5));
                }
                _ => panic!(),
            }
            assert_eq!(dk.modifiers.len(), 1);
            assert_eq!(dk.modifiers[0].name, "sync");
        }
        _ => panic!(),
    }
    assert!(attrs[0].value.is_none());
}

#[test]
fn prop_shorthand_gets_an_empty_modifier() {
    let toks = [tok(".foo", 3, Some(("x", 8)))];
    let attrs = build_vattributes(&toks, false, SourceKind::mjs());
    match &attrs[0].key {
        VAttributeKey::Directive(dk) => {
            assert_eq!(dk.name.name, ".");
            assert_eq!(dk.modifiers.len(), 1);
            assert_eq!(dk.modifiers[0].name, "");
            assert_eq!((dk.modifiers[0].range.start, dk.modifiers[0].range.end), (7, 7));
        }
        _ => panic!(),
    }
}

#[test]
fn v_pre_makes_keys_plain() {
    let toks = [tok("v-pre", 0, None), tok(":a", 6, Some(("b", 9)))];
    assert!(has_v_pre(&toks));
    let attrs = build_vattributes(&toks, true, SourceKind::mjs());
    assert!(attrs[0].directive);
    assert!(!attrs[1].directive);
    match &attrs[1].value {
        Some(VAttributeValue::Literal(l)) => assert_eq!(l.value, "b"),
        _ => panic!(),
    }
    assert!(!has_v_pre(&toks[1..]));
}
