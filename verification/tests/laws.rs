use vue_oxlint_parser::attr::is_plausible_arg_name;
use vue_oxlint_parser::json::next_token_object;
use vue_oxlint_parser::scanner::{parse_directive_parts, DirectiveName};
use vue_oxlint_parser::sfc::split;
use vue_oxlint_parser::template::try_parse_template_body;
use vue_oxlint_parser::tokens::VTokenKind;
use vue_oxlint_parser::ast::{VElementChild, VAttribute};
use vue_oxlint_parser::template::{parse_attributes, parse_template_body};
use vue_oxlint_parser::tokens::{pop_element, SerializableToken, VueParser};

fn child_range(c: &VElementChild) -> (u32, u32) {
    match c {
        VElementChild::Element(e) => (e.range.start, e.range.end),
        VElementChild::Text(t) => (t.range.start, t.range.end),
        VElementChild::ExpressionContainer(x) => (x.range.start, x.range.end),
    }
}

fn check_nested(kids: &[VElementChild], lo: u32, hi: u32) {
    let mut last = lo;
    for k in kids {
        let (a, b) = child_range(k);
        assert!(last <= a && a <= b && b <= hi, "({a}, {b}) outside [{last}, {hi}]");
        last = b;
        if let VElementChild::Element(e) = k {
            assert!(e.start_tag.range.end <= e.range.end);
            check_nested(&e.children, e.start_tag.range.end, e.range.end);
        }
    }
}

#[test]
fn template_nodes_nest_in_source_order() {
    let body = "a<ul><li>{{ x }}</li><li>y<br></li></ul>b<p>";
    let kids = parse_template_body(body, 0);
    check_nested(&kids, 0, body.len() as u32);
    assert_eq!(kids.len(), 4);
}

#[test]
fn attributes_come_in_order_without_overlap() {
    let raw = "a=\"1\" :b='x' c d = e @f";
    let attrs: Vec<VAttribute> = parse_attributes(raw, raw, 10);
    assert_eq!(attrs.len(), 5);
    let mut last = 10;
    for a in &attrs {
        assert!(last <= a.range.start && a.range.start < a.range.end);
        assert!(a.range.end <= 10 + raw.len() as u32);
        last = a.range.end;
    }
}

#[test]
fn end_tag_closes_the_innermost_open_element() {
    let mut stack: Vec<String> = ["div", "p", "span", "p", "b"].iter().map(|s| s.to_string()).collect();
    pop_element(&mut stack, "p");
    assert_eq!(stack, vec!["div", "p", "span"]);
    pop_element(&mut stack, "table");
    assert_eq!(stack, vec!["div", "p", "span"]);
    pop_element(&mut stack, "div");
    assert!(stack.is_empty());
}

#[test]
fn scan_spans_lie_inside_the_source() {
    let src = "<!-- c --><template><a :href=\"u\" @click=\"go()\">{{ t }}</a></template>\n\
               <script setup lang=\"ts\">const t = 1</script><style>p{}</style><textarea>&lt;</textarea>";
    let ret = VueParser::new(src).parse();
    let len = src.len() as u32;
    for t in ret.sfc.template_tokens.iter().chain(ret.sfc.script_tokens.iter()) {
        if let SerializableToken::Token(v) = t {
            assert!(v.span.start <= v.span.end && v.span.end <= len);
        }
    }
    for c in &ret.sfc.template_comments {
        assert!(c.span.start <= c.span.end && c.span.end <= len);
    }
    assert!(!ret.sfc.template_tokens.is_empty());
    assert!(!ret.sfc.script_tokens.is_empty());
}

#[test]
fn template_body_check_accepts_bodies_ending_in_ascii() {
    let body = "<div :a=\"b\">x</div>\n";
    let kids = try_parse_template_body(body, 7).unwrap();
    assert_eq!(kids.len(), 2);
    assert_eq!(child_range(&kids[0]), (7, 26));
    assert!(try_parse_template_body("", 0).unwrap().is_empty());
    assert!(try_parse_template_body("<p é", 0).is_none());
    assert_eq!(try_parse_template_body("é", 0).unwrap().len(), 1);
    assert_eq!(try_parse_template_body("<p>é", 0).unwrap().len(), 1);
    assert!(try_parse_template_body("<p>x<b é", 0).is_none());
    assert!(try_parse_template_body("ab", u32::MAX - 1).is_none());
    assert!(try_parse_template_body("ab", u32::MAX - 2).is_some());
}

#[test]
fn directive_parts_follow_the_name_shapes() {
    let (name, arg, mods) = parse_directive_parts("@click..stop.");
    assert!(matches!(name, DirectiveName::On));
    assert_eq!(arg, Some(("click".to_string(), false)));
    assert_eq!(mods, vec!["stop".to_string()]);
    let (name, arg, mods) = parse_directive_parts("#default");
    assert!(matches!(name, DirectiveName::Slot));
    assert_eq!(arg, Some(("default".to_string(), false)));
    assert!(mods.is_empty());
    let (name, arg, mods) = parse_directive_parts("v-model.trim");
    assert!(matches!(name, DirectiveName::Custom(ref n) if n == "model.trim"));
    assert_eq!(arg, None);
    assert!(mods.is_empty());
    let (_, arg, _) = parse_directive_parts(":");
    assert_eq!(arg, Some((String::new(), false)));
}

#[test]
fn plausible_argument_names() {
    assert!(is_plausible_arg_name("foo-bar"));
    assert!(is_plausible_arg_name("_x"));
    assert!(is_plausible_arg_name("a1_"));
    assert!(!is_plausible_arg_name(""));
    assert!(!is_plausible_arg_name("1a"));
    assert!(!is_plausible_arg_name("a.b"));
    assert!(!is_plausible_arg_name("[x]"));
    assert!(!is_plausible_arg_name("-a"));
}

#[test]
fn case_insensitive_search_finds_the_first_match() {
    let p = VueParser::new("<SCRIPT>x</Script></SCRIPT>");
    assert_eq!(p.find_ascii_case_insensitive(0, b"</script"), Some(9));
    assert_eq!(p.find_ascii_case_insensitive(10, b"</script"), Some(18));
    assert_eq!(p.find_ascii_case_insensitive(19, b"</script"), None);
    assert_eq!(p.find_ascii_case_insensitive(0, b""), None);
}

#[test]
fn token_objects_are_read_in_order() {
    let b = b"[{\"v\":\"}{\\\"\"},{\"a\":{\"b\":1}}, {\"c\":";
    let first = next_token_object(b, 0).unwrap();
    assert_eq!(first, (1, 13));
    assert_eq!(b[first.0], b'{');
    assert_eq!(b[first.1 - 1], b'}');
    let second = next_token_object(b, first.1).unwrap();
    assert_eq!(second, (14, 27));
    assert_eq!(next_token_object(b, second.1), None);
}

#[test]
fn text_only_template_becomes_text_and_whitespace_runs() {
    let src = "a b\t\tcd ";
    let ret = VueParser::new(src).parse();
    let toks: Vec<(VTokenKind, u32, u32, Option<String>)> = ret
        .sfc
        .template_tokens
        .iter()
        .map(|t| match t {
            SerializableToken::Token(v) => (v.kind.clone(), v.span.start, v.span.end, v.value.clone()),
            _ => panic!("unexpected entry"),
        })
        .collect();
    assert_eq!(
        toks,
        vec![
            (VTokenKind::HTMLText, 0, 1, Some("a".to_string())),
            (VTokenKind::HTMLWhitespace, 1, 2, Some(" ".to_string())),
            (VTokenKind::HTMLText, 2, 3, Some("b".to_string())),
            (VTokenKind::HTMLWhitespace, 3, 5, Some("\t\t".to_string())),
            (VTokenKind::HTMLText, 5, 7, Some("cd".to_string())),
            (VTokenKind::HTMLWhitespace, 7, 8, Some(" ".to_string())),
        ]
    );
    assert!(ret.sfc.template_comments.is_empty());
}

#[test]
fn split_start_tag_ends_at_the_first_unquoted_gt() {
    let src = "<template a=\"x>y\" b='/>'>z</template><i c=\"1\" />";
    let layout = split(src).unwrap();
    let t = &layout.blocks[0];
    assert_eq!(t.start_tag_range.end, 25);
    assert_eq!(&src[24..25], ">");
    assert_eq!(t.raw_attributes, "a=\"x>y\" b='/>'");
    assert!(!t.self_closing);
    let i = &layout.blocks[1];
    assert!(i.self_closing);
    assert_eq!(i.raw_attributes, "c=\"1\"");
    assert_eq!(&src[(i.start_tag_range.end - 2) as usize..i.start_tag_range.end as usize], "/>");
}
