use vue_oxlint_parser::codegen::{
    Codegen, HookRecord, Ident, ImportAttribute, ImportDecl, ImportSpecifier, ModuleName, StringLit, WithClause,
};
use vue_oxlint_parser::span::Span;

fn sp(a: u32, b: u32) -> Span {
    Span::new(a, b)
}

fn rec(a: u32, b: u32, s: u32, e: u32) -> HookRecord {
    HookRecord { span: sp(a, b), virtual_start: s, virtual_end: e }
}

#[test]
fn import_with_source_spans_prints_back_and_records_each_node() {
    let src = "import D, { a, b as c } from \"m\";";
    let d = ImportDecl {
        is_type: false,
        specifiers: Some(vec![
            ImportSpecifier::Default { local: Ident { name: "D", span: sp(7, 8) }, span: sp(7, 8) },
            ImportSpecifier::Named {
                imported: ModuleName::Identifier(Ident { name: "a", span: sp(12, 13) }),
                local: Ident { name: "a", span: sp(12, 13) },
                is_type: false,
                span: sp(12, 13),
            },
            ImportSpecifier::Named {
                imported: ModuleName::Identifier(Ident { name: "b", span: sp(15, 16) }),
                local: Ident { name: "c", span: sp(20, 21) },
                is_type: false,
                span: sp(15, 21),
            },
        ]),
        source: StringLit { value: "m", has_raw: true, span: sp(29, 32) },
        with_clause: None,
        span: sp(0, 33),
    };
    let mut g = Codegen::new(src);
    g.print_import_decl(&d);
    let (text, records) = g.finish();
    assert_eq!(text, src);
    assert_eq!(
        records,
        vec![
            rec(7, 8, 7, 8),
            rec(7, 8, 7, 8),
            rec(12, 13, 12, 13),
            rec(12, 13, 12, 13),
            rec(15, 16, 15, 16),
            rec(20, 21, 20, 21),
            rec(15, 21, 15, 21),
            rec(29, 32, 29, 32),
            rec(0, 33, 0, 33),
        ]
    );
}

#[test]
fn synthesised_import_is_printed_without_records() {
    let none = sp(0, 0);
    let d = ImportDecl {
        is_type: true,
        specifiers: Some(vec![
            ImportSpecifier::Named {
                imported: ModuleName::String(StringLit { value: "x", has_raw: false, span: none }),
                local: Ident { name: "y", span: none },
                is_type: true,
                span: none,
            },
            ImportSpecifier::Namespace { local: Ident { name: "ns", span: none }, span: none },
        ]),
        source: StringLit { value: "m", has_raw: false, span: none },
        with_clause: Some(WithClause {
            is_assert: false,
            span: none,
            entries: vec![ImportAttribute {
                key: ModuleName::Identifier(Ident { name: "type", span: none }),
                value: StringLit { value: "json", has_raw: false, span: none },
                span: none,
            }],
        }),
        span: none,
    };
    let mut g = Codegen::new("");
    g.print_import_decl(&d);
    let (text, records) = g.finish();
    assert_eq!(text, "import type * as ns, { 'x' as y } from 'm' with { type: 'json' };");
    assert!(records.is_empty());
}

#[test]
fn named_type_specifier_and_bare_imports() {
    let none = sp(0, 0);
    let named = ImportSpecifier::Named {
        imported: ModuleName::Identifier(Ident { name: "T", span: none }),
        local: Ident { name: "T", span: none },
        is_type: true,
        span: none,
    };
    let src = StringLit { value: "m", has_raw: false, span: none };
    let mut g = Codegen::new("");
    g.print_import_decl(&ImportDecl { is_type: false, specifiers: Some(vec![named]), source: src, with_clause: None, span: none });
    g.print_import_decl(&ImportDecl { is_type: false, specifiers: None, source: src, with_clause: None, span: none });
    g.print_import_decl(&ImportDecl { is_type: false, specifiers: Some(vec![]), source: src, with_clause: None, span: none });
    let (text, _) = g.finish();
    assert_eq!(text, "import { type T } from 'm';import 'm';import 'm';");
}

#[test]
fn clause_with_a_span_is_pasted_from_the_source() {
    let src = "import 'm' assert { type: 'json' };";
    let d = ImportDecl {
        is_type: false,
        specifiers: None,
        source: StringLit { value: "m", has_raw: true, span: sp(7, 10) },
        with_clause: Some(WithClause { is_assert: true, span: sp(18, 34), entries: vec![] }),
        span: sp(0, 35),
    };
    let mut g = Codegen::new(src);
    g.print_import_decl(&d);
    let (text, records) = g.finish();
    assert_eq!(text, src);
    assert_eq!(records, vec![rec(7, 10, 7, 10), rec(18, 34, 18, 34), rec(0, 35, 0, 35)]);
}
