use vue_oxlint_parser::ast::{FileExt, Language, ModuleKind};
use vue_oxlint_parser::driver::{collect_irregular_whitespaces, try_parse};
use vue_oxlint_parser::tokens::{CommentKind, SerializableToken, VTokenKind, VueParser};

fn tok(t: &SerializableToken) -> (VTokenKind, u32, u32, Option<String>) {
    match t {
        SerializableToken::Token(v) => (v.kind, v.span.start, v.span.end, v.value.clone()),
        SerializableToken::Json(j) => panic!("unexpected script tokens {j}"),
    }
}

#[test]
fn test_irregular_whitespaces() {
    // U+000B is a vertical tab, which Oxlint reports as irregular whitespace.
    let source_text = "<div>\u{000B}</div>";
    let ret = VueParser::new(source_text).parse();

    assert_eq!(ret.irregular_whitespaces.len(), 1);
    assert_eq!(ret.irregular_whitespaces[0].start, 5);
    assert_eq!(ret.irregular_whitespaces[0].end, 6);
}

#[test]
fn irregular_whitespace_spans_count_bytes() {
    // A no-break space (two bytes) after a two-byte letter.
    let spans = collect_irregular_whitespaces("é\u{00A0}x\u{FEFF}");
    let got: Vec<(u32, u32)> = spans.iter().map(|s| (s.start, s.end)).collect();
    assert_eq!(got, vec![(2, 4), (5, 8)]);
    assert!(collect_irregular_whitespaces("a b\tc\n").is_empty());
}

#[test]
fn element_tokens_come_in_source_order() {
    let ret = VueParser::new("<div>a</div>").parse();
    let toks: Vec<_> = ret.sfc.template_tokens.iter().map(tok).collect();
    assert_eq!(
        toks,
        vec![
            (VTokenKind::HTMLTagOpen, 0, 4, Some("div".to_string())),
            (VTokenKind::HTMLTagClose, 4, 5, Some(String::new())),
            (VTokenKind::HTMLText, 5, 6, Some("a".to_string())),
            (VTokenKind::HTMLEndTagOpen, 6, 11, Some("div".to_string())),
            (VTokenKind::HTMLTagClose, 11, 12, Some(String::new())),
        ]
    );
    assert!(!ret.panicked);
    assert!(ret.sfc.script_tokens.is_empty());
}

#[test]
fn tag_names_are_lower_cased_and_attributes_tokenized() {
    let ret = VueParser::new("<DIV id=\"x\"/>").parse();
    let toks: Vec<_> = ret.sfc.template_tokens.iter().map(tok).collect();
    assert_eq!(toks[0], (VTokenKind::HTMLTagOpen, 0, 4, Some("div".to_string())));
    assert_eq!(toks[1], (VTokenKind::HTMLIdentifier, 5, 7, Some("id".to_string())));
    assert_eq!(toks[2], (VTokenKind::HTMLAssociation, 7, 8, Some(String::new())));
    assert_eq!(toks[3], (VTokenKind::HTMLLiteral, 8, 11, Some("x".to_string())));
    assert_eq!(toks[4], (VTokenKind::HTMLSelfClosingTagClose, 11, 13, Some(String::new())));
    assert_eq!(toks.len(), 5);
}

#[test]
fn html_and_bogus_comments_are_recorded() {
    let ret = VueParser::new("<!-- hi --><!x>").parse();
    let c = &ret.sfc.template_comments;
    assert_eq!(c.len(), 2);
    assert_eq!(c[0].kind, CommentKind::HTMLComment);
    assert_eq!(c[0].value, " hi ");
    assert_eq!((c[0].span.start, c[0].span.end), (0, 11));
    assert_eq!(c[1].kind, CommentKind::HTMLBogusComment);
    assert_eq!(c[1].value, "x");
    assert_eq!((c[1].span.start, c[1].span.end), (11, 15));
    assert!(ret.sfc.template_tokens.is_empty());
}

#[test]
fn unterminated_comment_runs_to_the_end() {
    let ret = VueParser::new("<!-- open").parse();
    let c = &ret.sfc.template_comments;
    assert_eq!(c.len(), 1);
    assert_eq!(c[0].value, " open");
    assert_eq!((c[0].span.start, c[0].span.end), (0, 9));
}

#[test]
fn mustache_is_wrapped_in_expression_tokens() {
    let ret = VueParser::new("{{ a }}").parse();
    let t = &ret.sfc.template_tokens;
    assert_eq!(tok(&t[0]), (VTokenKind::VExpressionStart, 0, 2, Some("{{".to_string())));
    assert_eq!(tok(t.last().unwrap()), (VTokenKind::VExpressionEnd, 5, 7, Some("}}".to_string())));
}

#[test]
fn script_lang_selects_the_source_type() {
    let ret = VueParser::new("<script lang=\"ts\">let a: number = 1</script>").parse();
    assert_eq!(ret.sfc.source_type.language, Language::TypeScript);
    assert_eq!(ret.sfc.source_type.extension, Some(FileExt::Ts));
    assert_eq!(ret.sfc.source_type.module_kind, ModuleKind::Module);
    let mts = VueParser::new("<script lang=\"mts\">let a = 1</script>").parse();
    assert_eq!(mts.sfc.source_type.extension, Some(FileExt::Mts));
    assert!(!ret.sfc.script_tokens.is_empty());
    let plain = VueParser::new("<template></template>").parse();
    assert_eq!(plain.sfc.source_type.language, Language::JavaScript);
}

#[test]
fn script_body_is_tokenized() {
    let ret = VueParser::new("<script>let a = 1</script>").parse();
    let json: String = ret
        .sfc
        .script_tokens
        .iter()
        .filter_map(|t| match t {
            SerializableToken::Json(j) => Some(j.clone()),
            SerializableToken::Token(_) => None,
        })
        .collect();
    assert!(json.contains("\"let\""));
    assert!(json.contains("\"a\""));
}

#[test]
fn try_parse_refuses_a_trailing_lt() {
    assert!(try_parse("a<").is_none());
    let ok = try_parse("<p>x</p>").unwrap();
    assert_eq!(ok.sfc.template_tokens.len(), 5);
}

#[test]
fn try_parse_refuses_a_stray_ampersand_in_rcdata() {
    assert!(try_parse("<textarea>a & b</textarea>").is_none());
    let ok = try_parse("<textarea>a &amp; b</textarea>").unwrap();
    assert!(!ok.panicked);
}

#[test]
fn rcdata_resolves_character_references() {
    let ret = VueParser::new("<title>a&lt;b</title>").parse();
    let toks: Vec<_> = ret.sfc.template_tokens.iter().map(tok).collect();
    assert_eq!(
        toks,
        vec![
            (VTokenKind::HTMLTagOpen, 0, 6, Some("title".to_string())),
            (VTokenKind::HTMLTagClose, 6, 7, Some(String::new())),
            (VTokenKind::HTMLRCDataText, 7, 8, Some("a".to_string())),
            (VTokenKind::HTMLRCDataText, 8, 12, Some("<".to_string())),
            (VTokenKind::HTMLRCDataText, 12, 13, Some("b".to_string())),
            (VTokenKind::HTMLEndTagOpen, 13, 20, Some("title".to_string())),
            (VTokenKind::HTMLTagClose, 20, 21, Some(String::new())),
        ]
    );
}

#[test]
fn raw_text_bodies_are_split_at_whitespace() {
    let ret = VueParser::new("<style>a b</style>").parse();
    let toks: Vec<_> = ret.sfc.template_tokens.iter().map(tok).collect();
    assert_eq!(toks[2], (VTokenKind::HTMLRawText, 7, 8, Some("a".to_string())));
    assert_eq!(toks[3], (VTokenKind::HTMLWhitespace, 8, 9, Some(" ".to_string())));
    assert_eq!(toks[4], (VTokenKind::HTMLRawText, 9, 10, Some("b".to_string())));
    assert_eq!(toks[5], (VTokenKind::HTMLEndTagOpen, 10, 17, Some("style".to_string())));
}

#[test]
fn script_tags_become_punctuators_around_the_body_tokens() {
    let ret = VueParser::new("<script setup>let a = 1</script>").parse();
    let s = &ret.sfc.script_tokens;
    assert_eq!(s.len(), 3);
    assert_eq!(tok(&s[0]), (VTokenKind::Punctuator, 0, 14, Some("<script>".to_string())));
    assert!(matches!(&s[1], SerializableToken::Json(_)));
    assert_eq!(tok(&s[2]), (VTokenKind::Punctuator, 23, 32, Some("</script>".to_string())));
    // A second setup script is not tokenized again.
    let twice = VueParser::new("<script setup>a</script><script setup>b</script>").parse();
    assert_eq!(twice.sfc.script_tokens.len(), 3);
}

#[test]
fn expression_tokens_are_cut_at_the_token_ending_before_the_expression() {
    // The cut looks for a token that ends one byte before the expression;
    // the opening parenthesis that wraps it ends at the expression itself,
    // so nothing is cut out here.
    let ret = VueParser::new("{{ a }}").parse();
    assert_eq!(ret.sfc.template_tokens.len(), 2);
}

#[test]
fn event_handler_tokens_are_kept_inside_the_value() {
    let ret = VueParser::new("<a @click=\"go()\">").parse();
    let t = &ret.sfc.template_tokens;
    assert_eq!(tok(&t[1]), (VTokenKind::Punctuator, 3, 4, Some("@".to_string())));
    assert_eq!(tok(&t[2]), (VTokenKind::HTMLIdentifier, 4, 9, Some("click".to_string())));
    assert_eq!(tok(&t[3]), (VTokenKind::HTMLAssociation, 9, 10, Some(String::new())));
    assert_eq!(tok(&t[4]), (VTokenKind::Punctuator, 10, 11, Some("\"".to_string())));
    match &t[5] {
        SerializableToken::Json(j) => {
            assert!(j.contains("\"go\""));
            assert!(j.contains("\"start\":11"));
            assert!(!j.contains("\"=>\""));
        }
        SerializableToken::Token(_) => panic!("expected handler tokens"),
    }
    assert_eq!(tok(&t[6]), (VTokenKind::Punctuator, 15, 16, Some("\"".to_string())));
    assert_eq!(tok(&t[7]), (VTokenKind::HTMLTagClose, 16, 17, Some(String::new())));
}

#[test]
fn bare_value_before_self_closing_slash_keeps_the_slash() {
    let ret = VueParser::new("<a b=c/>").parse();
    let toks: Vec<_> = ret.sfc.template_tokens.iter().map(tok).collect();
    assert_eq!(toks[3], (VTokenKind::HTMLLiteral, 5, 7, Some("c/".to_string())));
    assert_eq!(toks[4], (VTokenKind::HTMLSelfClosingTagClose, 6, 8, Some(String::new())));
}
