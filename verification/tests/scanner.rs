use vue_oxlint_parser::scanner::{
    is_directive_name, parse_directive_parts, DirectiveArgument, DirectiveName, Parser, VAttrOrDirective,
};

#[test]
fn cursor_moves_and_peeks() {
    let mut p = Parser::new("ab c");
    assert_eq!(p.current_byte(), Some(b'a'));
    assert_eq!(p.peek_byte(1), Some(b'b'));
    assert!(p.matches("ab"));
    assert_eq!(p.consume_byte(), Some(b'a'));
    p.advance(1);
    p.skip_whitespace();
    assert_eq!(p.pos_u32(), 3);
    assert_eq!(p.slice(0, 2), "ab");
    assert_eq!(p.consume_byte(), Some(b'c'));
    assert!(p.is_eof());
    assert_eq!(p.consume_byte(), None);
    assert_eq!(p.span_from(1).start, 1);
    assert_eq!(p.span_from(1).end, 4);
}

#[test]
fn directive_names() {
    assert!(is_directive_name("v-if"));
    assert!(is_directive_name(":a"));
    assert!(is_directive_name("@a"));
    assert!(is_directive_name("#a"));
    assert!(!is_directive_name("class"));
    assert!(!is_directive_name("v"));
}

#[test]
fn directive_parts_are_split() {
    let (name, arg, mods) = parse_directive_parts("v-on:click.stop.prevent");
    assert!(matches!(name, DirectiveName::On));
    assert_eq!(arg, Some(("click".to_string(), false)));
    assert_eq!(mods, vec!["stop".to_string(), "prevent".to_string()]);
    let (name, arg, mods) = parse_directive_parts(":[key]");
    assert!(matches!(name, DirectiveName::Bind));
    assert_eq!(arg, Some(("key".to_string(), true)));
    assert!(mods.is_empty());
    let (name, _, _) = parse_directive_parts("v-focus");
    assert!(matches!(name, DirectiveName::Custom(ref n) if n == "focus"));
}

#[test]
fn attributes_and_directives_are_read() {
    let mut p = Parser::new("class=\"a b\" :x='y' disabled");
    match p.parse_attribute() {
        Some(VAttrOrDirective::Attribute(a)) => {
            assert_eq!(a.name, "class");
            assert_eq!(a.value.unwrap().raw, "a b");
        }
        _ => panic!(),
    }
    p.skip_whitespace();
    match p.parse_attribute() {
        Some(VAttrOrDirective::Directive(d)) => {
            assert!(matches!(d.name, DirectiveName::Bind));
            match d.argument {
                Some(DirectiveArgument::Static(s, _)) => assert_eq!(s, "x"),
                _ => panic!(),
            }
            assert_eq!(d.value_raw, Some("y".to_string()));
        }
        _ => panic!(),
    }
    p.skip_whitespace();
    match p.parse_attribute() {
        Some(VAttrOrDirective::Attribute(a)) => {
            assert_eq!(a.name, "disabled");
            assert!(a.value.is_none());
        }
        _ => panic!(),
    }
    assert!(p.parse_attribute().is_none());
}
