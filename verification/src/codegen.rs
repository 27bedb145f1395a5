//! Printing an `import` declaration back to text, with a record of where
//! each printed node landed in the output.
//!
//! The declaration is held as plain values (names, string literals,
//! spans); the printer appends to a buffer and, for every node with a
//! non-empty source span, records that span with the output range it was
//! printed to, as a code-generation hook would receive it.
use vstd::prelude::*;
use vstd::string::StringSliceAdditionalSpecFns;
use vstd::utf8::*;

use crate::scanner::eq_bytes;
use crate::span::Span;
use crate::text::str_slice;

verus! {

broadcast use vstd::string::group_string_axioms, vstd::utf8::encode_utf8_decode_utf8;

// ---------------------------------------------------------------------------
// The declaration
// ---------------------------------------------------------------------------
/// An identifier: a binding, a name or a reference.
#[derive(Clone, Copy, Debug)]
pub struct Ident<'a> {
    pub name: &'a str,
    pub span: Span,
}

/// A string literal: its value, and whether its raw text is in the source
/// (at `span`).
#[derive(Clone, Copy, Debug)]
pub struct StringLit<'a> {
    pub value: &'a str,
    pub has_raw: bool,
    pub span: Span,
}

/// A name that is an identifier or a string literal: what is imported, or
/// the key of an import attribute.
#[derive(Clone, Copy, Debug)]
pub enum ModuleName<'a> {
    Identifier(Ident<'a>),
    String(StringLit<'a>),
}

/// One specifier of an import: `x`, `* as x`, or `a as b` / `type a`.
#[derive(Clone, Copy, Debug)]
pub enum ImportSpecifier<'a> {
    Default { local: Ident<'a>, span: Span },
    Namespace { local: Ident<'a>, span: Span },
    Named { imported: ModuleName<'a>, local: Ident<'a>, is_type: bool, span: Span },
}

/// `key: "value"` in a `with { ... }` clause.
#[derive(Clone, Copy, Debug)]
pub struct ImportAttribute<'a> {
    pub key: ModuleName<'a>,
    pub value: StringLit<'a>,
    pub span: Span,
}

/// The `with` (or `assert`) clause of an import.
#[derive(Clone, Debug)]
pub struct WithClause<'a> {
    pub is_assert: bool,
    pub span: Span,
    pub entries: Vec<ImportAttribute<'a>>,
}

/// An `import` declaration.
#[derive(Clone, Debug)]
pub struct ImportDecl<'a> {
    /// `import type ...`.
    pub is_type: bool,
    /// `None` for a bare `import "x";`.
    pub specifiers: Option<Vec<ImportSpecifier<'a>>>,
    pub source: StringLit<'a>,
    pub with_clause: Option<WithClause<'a>>,
    pub span: Span,
}

/// What the printer reports for a node: its source span and the output
/// range it was printed to.
#[derive(Clone, Copy, Debug, PartialEq, Eq)]
pub struct HookRecord {
    pub span: Span,
    pub virtual_start: u32,
    pub virtual_end: u32,
}

// ---------------------------------------------------------------------------
// What printing produces
// ---------------------------------------------------------------------------
/// The printed text and the records, in the order they were made.
pub struct Printed {
    pub text: Seq<char>,
    pub records: Seq<HookRecord>,
}

/// The output position: the byte length of the text, as a `u32`.
pub open spec fn pos_of(o: Printed) -> u32 {
    encode_utf8(o.text).len() as u32
}

pub open spec fn put(o: Printed, t: Seq<char>) -> Printed {
    Printed { text: o.text + t, records: o.records }
}

/// The node at `span`, printed from `start` to the current position, is
/// recorded unless its span is empty.
pub open spec fn recorded(o: Printed, span: Span, start: u32) -> Printed {
    if span.start == span.end {
        o
    } else {
        Printed {
            text: o.text,
            records: o.records.push(HookRecord { span, virtual_start: start, virtual_end: pos_of(o) }),
        }
    }
}

/// The source text at `span`, when it is a range of `src` between two
/// character boundaries; nothing otherwise.
pub open spec fn source_put(o: Printed, src: Seq<u8>, span: Span) -> Printed {
    let a = span.start as int;
    let b = span.end as int;
    if a <= b <= src.len() && is_char_boundary(src, a) && is_char_boundary(src, b) {
        put(o, decode_utf8(src.subrange(a, b)))
    } else {
        o
    }
}

pub open spec fn ident_out(o: Printed, id: Ident) -> Printed {
    recorded(put(o, id.name@), id.span, pos_of(o))
}

/// A string literal: its source text when it has one, else its value in
/// single quotes.
pub open spec fn string_lit_out(o: Printed, src: Seq<u8>, s: StringLit) -> Printed {
    let body = if s.has_raw && s.span.start != s.span.end {
        source_put(o, src, s.span)
    } else {
        put(put(put(o, "'"@), s.value@), "'"@)
    };
    recorded(body, s.span, pos_of(o))
}

pub open spec fn module_name_out(o: Printed, src: Seq<u8>, n: ModuleName) -> Printed {
    match n {
        ModuleName::Identifier(id) => ident_out(o, id),
        ModuleName::String(s) => string_lit_out(o, src, s),
    }
}

/// The text a module name stands for.
pub open spec fn module_name_text(n: ModuleName) -> Seq<char> {
    match n {
        ModuleName::Identifier(id) => id.name@,
        ModuleName::String(s) => s.value@,
    }
}

/// A named specifier: `type ` when the declaration is not itself a type
/// import, the imported name, and ` as local` when the local name differs.
pub open spec fn named_out(o: Printed, src: Seq<u8>, s: ImportSpecifier, import_is_type: bool) -> Printed {
    match s {
        ImportSpecifier::Named { imported, local, is_type, span } => {
            let o1 = if !import_is_type && is_type {
                put(o, "type "@)
            } else {
                o
            };
            let o2 = module_name_out(o1, src, imported);
            let o3 = if module_name_text(imported) != local.name@ {
                ident_out(put(o2, " as "@), local)
            } else {
                o2
            };
            recorded(o3, span, pos_of(o))
        },
        _ => o,
    }
}

/// The named specifiers, separated by `, `.
pub open spec fn named_list_out(o: Printed, src: Seq<u8>, named: Seq<ImportSpecifier>, import_is_type: bool) -> Printed
    decreases named.len(),
{
    if named.len() == 0 {
        o
    } else {
        let prev = named_list_out(o, src, named.drop_last(), import_is_type);
        let o1 = if named.len() > 1 {
            put(prev, ", "@)
        } else {
            prev
        };
        named_out(o1, src, named.last(), import_is_type)
    }
}

/// The last default specifier, if any.
pub open spec fn last_default<'a>(sp: Seq<ImportSpecifier<'a>>) -> Option<(Ident<'a>, Span)>
    decreases sp.len(),
{
    if sp.len() == 0 {
        None
    } else {
        match sp.last() {
            ImportSpecifier::Default { local, span } => Some((local, span)),
            _ => last_default(sp.drop_last()),
        }
    }
}

/// The last namespace specifier, if any.
pub open spec fn last_namespace<'a>(sp: Seq<ImportSpecifier<'a>>) -> Option<(Ident<'a>, Span)>
    decreases sp.len(),
{
    if sp.len() == 0 {
        None
    } else {
        match sp.last() {
            ImportSpecifier::Namespace { local, span } => Some((local, span)),
            _ => last_namespace(sp.drop_last()),
        }
    }
}

/// The named specifiers, in order.
pub open spec fn named_of<'a>(sp: Seq<ImportSpecifier<'a>>) -> Seq<ImportSpecifier<'a>>
    decreases sp.len(),
{
    if sp.len() == 0 {
        seq![]
    } else if sp.last() is Named {
        named_of(sp.drop_last()).push(sp.last())
    } else {
        named_of(sp.drop_last())
    }
}

/// The local name of a default or namespace specifier, if there is one.
pub open spec fn local_name(s: Option<(Ident, Span)>) -> Seq<char> {
    match s {
        Some((x, _)) => x.name@,
        None => Seq::<char>::empty(),
    }
}

/// `b` continues what `a` printed: its text starts with all of `a`'s.
pub open spec fn extends(a: Printed, b: Printed) -> bool {
    a.text.len() <= b.text.len() && b.text.subrange(0, a.text.len() as int) == a.text
}

proof fn lemma_put_extends(o: Printed, t: Seq<char>)
    ensures
        extends(o, put(o, t)),
        put(o, t).text.len() == o.text.len() + t.len(),
{
    assert((o.text + t).subrange(0, o.text.len() as int) =~= o.text);
}

proof fn lemma_recorded_text(o: Printed, span: Span, start: u32)
    ensures
        recorded(o, span, start).text == o.text,
        extends(o, recorded(o, span, start)),
{
    assert(o.text.subrange(0, o.text.len() as int) =~= o.text);
}

proof fn lemma_extends_trans(a: Printed, b: Printed, c: Printed)
    requires
        extends(a, b),
        extends(b, c),
    ensures
        extends(a, c),
{
    assert(c.text.subrange(0, a.text.len() as int) =~= c.text.subrange(0, b.text.len() as int).subrange(
        0,
        a.text.len() as int,
    ));
}

proof fn lemma_module_name_extends(o: Printed, src: Seq<u8>, n: ModuleName)
    ensures
        extends(o, module_name_out(o, src, n)),
{
    match n {
        ModuleName::Identifier(id) => {
            lemma_put_extends(o, id.name@);
            lemma_recorded_text(put(o, id.name@), id.span, pos_of(o));
            lemma_extends_trans(o, put(o, id.name@), ident_out(o, id));
        },
        ModuleName::String(s) => {
            lemma_put_extends(o, "'"@);
            lemma_put_extends(put(o, "'"@), s.value@);
            lemma_put_extends(put(put(o, "'"@), s.value@), "'"@);
            lemma_extends_trans(o, put(o, "'"@), put(put(o, "'"@), s.value@));
            lemma_extends_trans(o, put(put(o, "'"@), s.value@), put(put(put(o, "'"@), s.value@), "'"@));
            let a = s.span.start as int;
            let b = s.span.end as int;
            if a <= b <= src.len() {
                lemma_put_extends(o, decode_utf8(src.subrange(a, b)));
            } else {
                lemma_recorded_text(o, s.span, pos_of(o));
            }
            let body = if s.has_raw && s.span.start != s.span.end {
                source_put(o, src, s.span)
            } else {
                put(put(put(o, "'"@), s.value@), "'"@)
            };
            lemma_recorded_text(body, s.span, pos_of(o));
            lemma_extends_trans(o, body, string_lit_out(o, src, s));
        },
    }
}

proof fn lemma_named_list_extends(o: Printed, src: Seq<u8>, named: Seq<ImportSpecifier>, t: bool)
    ensures
        extends(o, named_list_out(o, src, named, t)),
    decreases named.len(),
{
    if named.len() > 0 {
        let prev = named_list_out(o, src, named.drop_last(), t);
        lemma_named_list_extends(o, src, named.drop_last(), t);
        let o1 = if named.len() > 1 {
            put(prev, ", "@)
        } else {
            prev
        };
        lemma_put_extends(prev, ", "@);
        lemma_extends_trans(o, prev, put(prev, ", "@));
        assert(extends(o, o1));
        if let ImportSpecifier::Named { imported, local, is_type, span } = named.last() {
            let p1 = if !t && is_type {
                put(o1, "type "@)
            } else {
                o1
            };
            lemma_put_extends(o1, "type "@);
            lemma_extends_trans(o, o1, put(o1, "type "@));
            assert(extends(o, p1));
            let p2 = module_name_out(p1, src, imported);
            lemma_module_name_extends(p1, src, imported);
            lemma_extends_trans(o, p1, p2);
            lemma_put_extends(p2, " as "@);
            lemma_put_extends(put(p2, " as "@), local.name@);
            lemma_extends_trans(p2, put(p2, " as "@), put(put(p2, " as "@), local.name@));
            lemma_extends_trans(o, p2, put(put(p2, " as "@), local.name@));
            let p3 = if module_name_text(imported) != local.name@ {
                ident_out(put(p2, " as "@), local)
            } else {
                p2
            };
            lemma_recorded_text(put(put(p2, " as "@), local.name@), local.span, pos_of(put(p2, " as "@)));
            lemma_extends_trans(o, put(put(p2, " as "@), local.name@), ident_out(put(p2, " as "@), local));
            lemma_recorded_text(p3, span, pos_of(o1));
            lemma_extends_trans(o, p3, named_out(o1, src, named.last(), t));
        } else {
            lemma_recorded_text(o1, Span { start: 0, end: 0 }, 0);
        }
        assert(named_list_out(o, src, named, t) == named_out(o1, src, named.last(), t));
    } else {
        lemma_recorded_text(o, Span { start: 0, end: 0 }, 0);
    }
}

/// Law: the specifiers print in the order default, namespace, named, each
/// group after `, ` when one came before: a default `D` with a namespace
/// `ns` prints `D, * as ns`; a namespace alone prints `* as ns`; a default
/// followed by named specifiers alone prints `D, { `; and what came before
/// is left as it was.
pub proof fn specifier_groups_are_separated(o: Printed, src: Seq<u8>, sp: Seq<ImportSpecifier>, t: bool)
    ensures
        ({
            let out = specifiers_out(o, src, sp, t).text;
            let l = o.text.len() as int;
            let d = local_name(last_default(sp));
            let n = local_name(last_namespace(sp));
            &&& extends(o, specifiers_out(o, src, sp, t))
            &&& (last_default(sp) is Some && last_namespace(sp) is Some) ==> {
                &&& out.len() >= l + d.len() + 7 + n.len()
                &&& out.subrange(l, l + d.len() + 7 + n.len()) == d + ", * as "@ + n
            }
            &&& (last_default(sp) is None && last_namespace(sp) is Some) ==> {
                &&& out.len() >= l + 5 + n.len()
                &&& out.subrange(l, l + 5 + n.len()) == "* as "@ + n
            }
            &&& (last_default(sp) is Some && last_namespace(sp) is None && named_of(sp).len() > 0) ==> {
                &&& out.len() >= l + d.len() + 4
                &&& out.subrange(l, l + d.len() + 4) == d + ", { "@
            }
        }),
{
    reveal_strlit(", ");
    reveal_strlit("* as ");
    reveal_strlit(", * as ");
    reveal_strlit("{ ");
    reveal_strlit(", { ");
    let def = last_default(sp);
    let ns = last_namespace(sp);
    let named = named_of(sp);
    let oa = match def {
        Some((local, span)) => recorded(ident_out(o, local), span, pos_of(o)),
        None => o,
    };
    if let Some((local, span)) = def {
        lemma_put_extends(o, local.name@);
        lemma_recorded_text(put(o, local.name@), local.span, pos_of(o));
        lemma_recorded_text(ident_out(o, local), span, pos_of(o));
        lemma_extends_trans(o, put(o, local.name@), ident_out(o, local));
        lemma_extends_trans(o, ident_out(o, local), oa);
    } else {
        lemma_recorded_text(o, Span { start: 0, end: 0 }, 0);
    }
    let c = if def is Some {
        put(oa, ", "@)
    } else {
        oa
    };
    lemma_put_extends(oa, ", "@);
    lemma_recorded_text(oa, Span { start: 0, end: 0 }, 0);
    assert(extends(oa, c));
    lemma_extends_trans(o, oa, c);
    let ob = match ns {
        Some((local, span)) => recorded(ident_out(put(c, "* as "@), local), span, pos_of(c)),
        None => oa,
    };
    if let Some((local, span)) = ns {
        lemma_put_extends(c, "* as "@);
        lemma_put_extends(put(c, "* as "@), local.name@);
        lemma_recorded_text(put(put(c, "* as "@), local.name@), local.span, pos_of(put(c, "* as "@)));
        lemma_recorded_text(ident_out(put(c, "* as "@), local), span, pos_of(c));
        lemma_extends_trans(c, put(c, "* as "@), ob);
        lemma_extends_trans(o, c, ob);
        lemma_extends_trans(oa, c, ob);
    }
    let c2 = if def is Some || ns is Some {
        put(ob, ", "@)
    } else {
        ob
    };
    lemma_put_extends(ob, ", "@);
    lemma_put_extends(c2, "{ "@);
    let nl = named_list_out(put(c2, "{ "@), src, named, t);
    lemma_named_list_extends(put(c2, "{ "@), src, named, t);
    lemma_put_extends(nl, " }"@);
    let oc = if named.len() > 0 {
        put(nl, " }"@)
    } else {
        ob
    };
    if named.len() > 0 {
        lemma_extends_trans(c2, put(c2, "{ "@), nl);
        lemma_extends_trans(c2, nl, oc);
        lemma_extends_trans(ob, c2, oc);
    }
    let fin = specifiers_out(o, src, sp, t);
    lemma_put_extends(oc, " from "@);
    lemma_recorded_text(oc, Span { start: 0, end: 0 }, 0);
    if named.len() == 0 {
        lemma_recorded_text(ob, Span { start: 0, end: 0 }, 0);
    }
    lemma_extends_trans(ob, oc, fin);
    lemma_extends_trans(oa, ob, fin);
    lemma_extends_trans(o, oa, fin);
    let l = o.text.len() as int;
    if let Some((d, _)) = def {
        if let Some((n, _)) = ns {
            assert(ob.text =~= o.text + d.name@ + ", "@ + "* as "@ + n.name@);
            assert(fin.text.subrange(0, ob.text.len() as int) == ob.text);
            assert(fin.text.subrange(l, l + d.name@.len() + 7 + n.name@.len()) =~= ob.text.subrange(
                l,
                l + d.name@.len() + 7 + n.name@.len(),
            ));
        } else if named.len() > 0 {
            assert(put(c2, "{ "@).text =~= o.text + d.name@ + ", "@ + "{ "@);
            lemma_extends_trans(put(c2, "{ "@), nl, oc);
            lemma_extends_trans(put(c2, "{ "@), oc, fin);
            assert(fin.text.subrange(l, l + d.name@.len() + 4) =~= put(c2, "{ "@).text.subrange(
                l,
                l + d.name@.len() + 4,
            ));
        }
    } else if let Some((n, _)) = ns {
        assert(ob.text =~= o.text + "* as "@ + n.name@);
        assert(fin.text.subrange(l, l + 5 + n.name@.len()) =~= ob.text.subrange(l, l + 5 + n.name@.len()));
    }
}

/// Law: the named specifiers print in braces after the default and the
/// namespace: after `* as ns` come `, { ` when named specifiers follow; the
/// list closes with ` }`; and whenever there is a specifier the group ends
/// with ` from `, which the source string follows.
pub proof fn specifier_list_is_closed(o: Printed, src: Seq<u8>, sp: Seq<ImportSpecifier>, t: bool)
    ensures
        ({
            let out = specifiers_out(o, src, sp, t).text;
            let l = o.text.len() as int;
            let d = local_name(last_default(sp));
            let n = local_name(last_namespace(sp));
            let p = l + (if last_default(sp) is Some {
                d.len() + 2
            } else {
                0
            }) + 5 + n.len();
            let any = last_default(sp) is Some || last_namespace(sp) is Some || named_of(sp).len() > 0;
            &&& (last_namespace(sp) is Some && named_of(sp).len() > 0) ==> {
                &&& out.len() >= p + 4
                &&& out.subrange(p, p + 4) == ", { "@
            }
            &&& any ==> out.len() >= l + 6 && out.subrange(out.len() - 6, out.len() as int) == " from "@
            &&& named_of(sp).len() > 0 ==> out.len() >= l + 8 && out.subrange(out.len() - 8, out.len() - 6)
                == " }"@
            &&& !any ==> out == o.text
        }),
{
    reveal_strlit(", ");
    reveal_strlit("* as ");
    reveal_strlit(", * as ");
    reveal_strlit("{ ");
    reveal_strlit(", { ");
    let def = last_default(sp);
    let ns = last_namespace(sp);
    let named = named_of(sp);
    let oa = match def {
        Some((local, span)) => recorded(ident_out(o, local), span, pos_of(o)),
        None => o,
    };
    if let Some((local, span)) = def {
        lemma_put_extends(o, local.name@);
        lemma_recorded_text(put(o, local.name@), local.span, pos_of(o));
        lemma_recorded_text(ident_out(o, local), span, pos_of(o));
        lemma_extends_trans(o, put(o, local.name@), ident_out(o, local));
        lemma_extends_trans(o, ident_out(o, local), oa);
    } else {
        lemma_recorded_text(o, Span { start: 0, end: 0 }, 0);
    }
    let c = if def is Some {
        put(oa, ", "@)
    } else {
        oa
    };
    lemma_put_extends(oa, ", "@);
    lemma_recorded_text(oa, Span { start: 0, end: 0 }, 0);
    assert(extends(oa, c));
    lemma_extends_trans(o, oa, c);
    let ob = match ns {
        Some((local, span)) => recorded(ident_out(put(c, "* as "@), local), span, pos_of(c)),
        None => oa,
    };
    if let Some((local, span)) = ns {
        lemma_put_extends(c, "* as "@);
        lemma_put_extends(put(c, "* as "@), local.name@);
        lemma_recorded_text(put(put(c, "* as "@), local.name@), local.span, pos_of(put(c, "* as "@)));
        lemma_recorded_text(ident_out(put(c, "* as "@), local), span, pos_of(c));
        lemma_extends_trans(c, put(c, "* as "@), ob);
        lemma_extends_trans(o, c, ob);
        lemma_extends_trans(oa, c, ob);
    }
    let c2 = if def is Some || ns is Some {
        put(ob, ", "@)
    } else {
        ob
    };
    lemma_put_extends(ob, ", "@);
    lemma_put_extends(c2, "{ "@);
    let nl = named_list_out(put(c2, "{ "@), src, named, t);
    lemma_named_list_extends(put(c2, "{ "@), src, named, t);
    lemma_put_extends(nl, " }"@);
    let oc = if named.len() > 0 {
        put(nl, " }"@)
    } else {
        ob
    };
    if named.len() > 0 {
        lemma_extends_trans(c2, put(c2, "{ "@), nl);
        lemma_extends_trans(c2, nl, oc);
        lemma_extends_trans(ob, c2, oc);
    }
    let fin = specifiers_out(o, src, sp, t);
    lemma_put_extends(oc, " from "@);
    lemma_recorded_text(oc, Span { start: 0, end: 0 }, 0);
    if named.len() == 0 {
        lemma_recorded_text(ob, Span { start: 0, end: 0 }, 0);
    }
    lemma_extends_trans(ob, oc, fin);
    lemma_extends_trans(oa, ob, fin);
    lemma_extends_trans(o, oa, fin);
    reveal_strlit(" from ");
    reveal_strlit(" }");
    let l = o.text.len() as int;
    let any = def is Some || ns is Some || named.len() > 0;
    if any {
        assert(fin.text =~= oc.text + " from "@);
        assert(fin.text.subrange(fin.text.len() - 6, fin.text.len() as int) =~= " from "@);
        if named.len() > 0 {
            assert(fin.text =~= nl.text + " }"@ + " from "@);
            assert(fin.text.subrange(fin.text.len() - 8, fin.text.len() - 6) =~= " }"@);
            lemma_extends_trans(put(c2, "{ "@), nl, oc);
            lemma_extends_trans(put(c2, "{ "@), oc, fin);
            if let Some((n, _)) = ns {
                assert(put(c2, "{ "@).text =~= ob.text + ", "@ + "{ "@);
                let p = ob.text.len() as int;
                assert(fin.text.subrange(p, p + 4) =~= put(c2, "{ "@).text.subrange(p, p + 4));
            }
        }
    } else {
        assert(fin == oc);
        assert(oc == ob);
        assert(ob == oa);
        assert(oa == o);
    }
}

proof fn lemma_string_lit_extends(o: Printed, src: Seq<u8>, s: StringLit)
    ensures
        extends(o, string_lit_out(o, src, s)),
{
    lemma_module_name_extends(o, src, ModuleName::String(s));
}

proof fn lemma_attribute_extends(o: Printed, src: Seq<u8>, a: ImportAttribute)
    ensures
        extends(o, attribute_out(o, src, a)),
{
    let o1 = module_name_out(o, src, a.key);
    lemma_module_name_extends(o, src, a.key);
    lemma_put_extends(o1, ": "@);
    lemma_extends_trans(o, o1, put(o1, ": "@));
    let o2 = string_lit_out(put(o1, ": "@), src, a.value);
    lemma_string_lit_extends(put(o1, ": "@), src, a.value);
    lemma_extends_trans(o, put(o1, ": "@), o2);
    lemma_recorded_text(o2, a.span, pos_of(o));
    lemma_extends_trans(o, o2, attribute_out(o, src, a));
}

proof fn lemma_attributes_extends(o: Printed, src: Seq<u8>, es: Seq<ImportAttribute>)
    ensures
        extends(o, attributes_out(o, src, es)),
    decreases es.len(),
{
    if es.len() == 0 {
        lemma_recorded_text(o, Span { start: 0, end: 0 }, 0);
    } else {
        let prev = attributes_out(o, src, es.drop_last());
        lemma_attributes_extends(o, src, es.drop_last());
        lemma_put_extends(prev, ", "@);
        lemma_extends_trans(o, prev, put(prev, ", "@));
        let o1 = if es.len() > 1 {
            put(prev, ", "@)
        } else {
            prev
        };
        lemma_attribute_extends(o1, src, es.last());
        lemma_extends_trans(o, o1, attribute_out(o1, src, es.last()));
    }
}

proof fn lemma_with_extends(o: Printed, src: Seq<u8>, c: Option<WithClause>)
    ensures
        extends(o, with_out(o, src, c)),
{
    match c {
        None => lemma_recorded_text(o, Span { start: 0, end: 0 }, 0),
        Some(c) => {
            let kw = if c.is_assert {
                "assert"@
            } else {
                "with"@
            };
            lemma_put_extends(o, " "@);
            lemma_put_extends(put(o, " "@), kw);
            let o1 = put(put(o, " "@), kw);
            lemma_extends_trans(o, put(o, " "@), o1);
            if c.span.start != c.span.end {
                let o2 = put(o1, " "@);
                lemma_put_extends(o1, " "@);
                lemma_extends_trans(o, o1, o2);
                let a = c.span.start as int;
                let b = c.span.end as int;
                lemma_put_extends(o2, decode_utf8(src.subrange(a, b)));
                lemma_recorded_text(o2, Span { start: 0, end: 0 }, 0);
                let body = source_put(o2, src, c.span);
                lemma_extends_trans(o, o2, body);
                lemma_recorded_text(body, c.span, pos_of(o2));
                lemma_extends_trans(o, body, with_out(o, src, Some(c)));
            } else {
                lemma_put_extends(o1, " { "@);
                lemma_extends_trans(o, o1, put(o1, " { "@));
                let l = attributes_out(put(o1, " { "@), src, c.entries@);
                lemma_attributes_extends(put(o1, " { "@), src, c.entries@);
                lemma_extends_trans(o, put(o1, " { "@), l);
                lemma_put_extends(l, " }"@);
                lemma_extends_trans(o, l, put(l, " }"@));
            }
        },
    }
}

/// Law: an import declaration prints as `import `, then `type ` for a type
/// import, and ends with `;`; what came before it is left as it was.
pub proof fn import_decl_is_framed(o: Printed, src: Seq<u8>, d: ImportDecl)
    ensures
        ({
            let out = import_decl_out(o, src, d).text;
            let l = o.text.len() as int;
            &&& extends(o, import_decl_out(o, src, d))
            &&& out.len() >= l + 8
            &&& out.subrange(l, l + 7) == "import "@
            &&& d.is_type ==> out.len() >= l + 13 && out.subrange(l + 7, l + 12) == "type "@
            &&& out[out.len() - 1] == ';'
            &&& d.span.start != d.span.end ==> import_decl_out(o, src, d).records.last() == HookRecord {
                span: d.span,
                virtual_start: pos_of(o),
                virtual_end: pos_of(import_decl_out(o, src, d)),
            }
        }),
{
    reveal_strlit("import ");
    reveal_strlit("type ");
    reveal_strlit(";");
    let o1 = put(o, "import "@);
    lemma_put_extends(o, "import "@);
    let o2 = if d.is_type {
        put(o1, "type "@)
    } else {
        o1
    };
    lemma_put_extends(o1, "type "@);
    lemma_recorded_text(o1, Span { start: 0, end: 0 }, 0);
    assert(extends(o1, o2));
    let o3 = match d.specifiers {
        None => o2,
        Some(v) => specifiers_out(o2, src, v@, d.is_type),
    };
    match d.specifiers {
        None => lemma_recorded_text(o2, Span { start: 0, end: 0 }, 0),
        Some(v) => specifier_groups_are_separated(o2, src, v@, d.is_type),
    }
    let o4 = string_lit_out(o3, src, d.source);
    lemma_string_lit_extends(o3, src, d.source);
    let o5 = with_out(o4, src, d.with_clause);
    lemma_with_extends(o4, src, d.with_clause);
    lemma_put_extends(o5, ";"@);
    lemma_recorded_text(put(o5, ";"@), d.span, pos_of(o));
    lemma_extends_trans(o2, o3, o4);
    lemma_extends_trans(o2, o4, o5);
    lemma_extends_trans(o2, o5, put(o5, ";"@));
    lemma_extends_trans(o1, o2, put(o5, ";"@));
    lemma_extends_trans(o, o1, put(o5, ";"@));
    let fin = import_decl_out(o, src, d);
    assert(fin.text == put(o5, ";"@).text);
    assert(o1.text =~= o.text + "import "@);
    let l = o.text.len() as int;
    assert(fin.text.subrange(l, l + 7) =~= o1.text.subrange(l, l + 7));
    if d.is_type {
        assert(o2.text =~= o.text + "import "@ + "type "@);
        assert(fin.text.subrange(l + 7, l + 12) =~= o2.text.subrange(l + 7, l + 12));
    }
}

/// Law: a named specifier whose imported name is an identifier prints as
/// `type ` (only when it is a type import inside a declaration that is not
/// one), the imported name, and ` as ` with the local name exactly when the
/// local name differs; the specifier is recorded from where it began.
pub proof fn named_specifier_prints_its_names(
    o: Printed,
    src: Seq<u8>,
    imported: Ident,
    local: Ident,
    is_type: bool,
    span: Span,
    import_is_type: bool,
)
    ensures
        ({
            let s = ImportSpecifier::Named { imported: ModuleName::Identifier(imported), local, is_type, span };
            let out = named_out(o, src, s, import_is_type);
            let pre = if !import_is_type && is_type {
                "type "@
            } else {
                Seq::<char>::empty()
            };
            let tail = if imported.name@ != local.name@ {
                " as "@ + local.name@
            } else {
                Seq::<char>::empty()
            };
            &&& out.text == o.text + pre + imported.name@ + tail
            &&& span.start != span.end ==> out.records.last() == HookRecord {
                span,
                virtual_start: pos_of(o),
                virtual_end: pos_of(out),
            }
        }),
{
    let s = ImportSpecifier::Named { imported: ModuleName::Identifier(imported), local, is_type, span };
    let o1 = if !import_is_type && is_type {
        put(o, "type "@)
    } else {
        o
    };
    let o2 = ident_out(o1, imported);
    assert(o2.text == o1.text + imported.name@);
    if imported.name@ != local.name@ {
        assert(ident_out(put(o2, " as "@), local).text =~= o.text + (if !import_is_type && is_type {
            "type "@
        } else {
            Seq::<char>::empty()
        }) + imported.name@ + (" as "@ + local.name@));
    } else {
        assert(o2.text =~= o.text + (if !import_is_type && is_type {
            "type "@
        } else {
            Seq::<char>::empty()
        }) + imported.name@ + Seq::<char>::empty());
    }
}

/// The specifiers: the default one, then `* as ns`, then `{ named }`, each
/// group after `, ` when one came before, and ` from ` when any came.
pub open spec fn specifiers_out(o: Printed, src: Seq<u8>, sp: Seq<ImportSpecifier>, import_is_type: bool) -> Printed {
    let def = last_default(sp);
    let ns = last_namespace(sp);
    let named = named_of(sp);
    let oa = match def {
        Some((local, span)) => recorded(ident_out(o, local), span, pos_of(o)),
        None => o,
    };
    let ob = match ns {
        Some((local, span)) => {
            let c = if def is Some {
                put(oa, ", "@)
            } else {
                oa
            };
            recorded(ident_out(put(c, "* as "@), local), span, pos_of(c))
        },
        None => oa,
    };
    let oc = if named.len() > 0 {
        let c = if def is Some || ns is Some {
            put(ob, ", "@)
        } else {
            ob
        };
        put(named_list_out(put(c, "{ "@), src, named, import_is_type), " }"@)
    } else {
        ob
    };
    if def is Some || ns is Some || named.len() > 0 {
        put(oc, " from "@)
    } else {
        oc
    }
}

pub open spec fn attribute_out(o: Printed, src: Seq<u8>, a: ImportAttribute) -> Printed {
    let o1 = module_name_out(o, src, a.key);
    let o2 = string_lit_out(put(o1, ": "@), src, a.value);
    recorded(o2, a.span, pos_of(o))
}

/// The attributes, separated by `, `.
pub open spec fn attributes_out(o: Printed, src: Seq<u8>, es: Seq<ImportAttribute>) -> Printed
    decreases es.len(),
{
    if es.len() == 0 {
        o
    } else {
        let prev = attributes_out(o, src, es.drop_last());
        let o1 = if es.len() > 1 {
            put(prev, ", "@)
        } else {
            prev
        };
        attribute_out(o1, src, es.last())
    }
}

/// ` with` or ` assert`, then the clause's source text when it has a span,
/// else its attributes in braces.
pub open spec fn with_out(o: Printed, src: Seq<u8>, c: Option<WithClause>) -> Printed {
    match c {
        None => o,
        Some(c) => {
            let o1 = put(
                put(o, " "@),
                if c.is_assert {
                    "assert"@
                } else {
                    "with"@
                },
            );
            if c.span.start != c.span.end {
                let o2 = put(o1, " "@);
                recorded(source_put(o2, src, c.span), c.span, pos_of(o2))
            } else {
                put(attributes_out(put(o1, " { "@), src, c.entries@), " }"@)
            }
        },
    }
}

/// `import`, `type ` for a type import, the specifiers, the source string,
/// the clause and `;`; the declaration itself is recorded last.
pub open spec fn import_decl_out(o: Printed, src: Seq<u8>, d: ImportDecl) -> Printed {
    let o1 = put(o, "import "@);
    let o2 = if d.is_type {
        put(o1, "type "@)
    } else {
        o1
    };
    let o3 = match d.specifiers {
        None => o2,
        Some(v) => specifiers_out(o2, src, v@, d.is_type),
    };
    let o4 = string_lit_out(o3, src, d.source);
    let o5 = with_out(o4, src, d.with_clause);
    recorded(put(o5, ";"@), d.span, pos_of(o))
}

// ---------------------------------------------------------------------------
// The printer
// ---------------------------------------------------------------------------
/// Prints nodes whose spans point into `source`, collecting the text and
/// the records.
pub struct Codegen<'a> {
    pub source: &'a str,
    pub buf: String,
    pub records: Vec<HookRecord>,
}

/// The text a module name stands for.
pub fn module_export_name_text<'a>(name: &ModuleName<'a>) -> (r: &'a str)
    ensures
        r@ == module_name_text(*name),
{
    match name {
        ModuleName::Identifier(id) => id.name,
        ModuleName::String(s) => s.value,
    }
}

impl<'a> Codegen<'a> {
    /// What has been printed so far.
    pub open spec fn printed(&self) -> Printed {
        Printed { text: self.buf@, records: self.records@ }
    }

    /// A printer over `source` that has printed nothing.
    pub fn new(source: &'a str) -> (r: Self)
        ensures
            r.source == source,
            r.printed() == (Printed { text: seq![], records: seq![] }),
    {
        Codegen { source, buf: String::new(), records: Vec::new() }
    }

    /// The printed text and the records.
    pub fn finish(self) -> (r: (String, Vec<HookRecord>))
        ensures
            r.0@ == self.buf@,
            r.1@ == self.records@,
    {
        (self.buf, self.records)
    }

    /// The output position.
    fn pos(&self) -> (r: u32)
        ensures
            r == pos_of(self.printed()),
    {
        let n = self.buf.as_str().as_bytes().len();
        #[verifier::truncate]
        (n as u32)
    }

    fn record(&mut self, span: Span, start: u32)
        ensures
            final(self).source == old(self).source,
            final(self).printed() == recorded(old(self).printed(), span, start),
    {
        if span.start == span.end {
            return;
        }
        let end = self.pos();
        self.records.push(HookRecord { span, virtual_start: start, virtual_end: end });
    }

    fn write(&mut self, s: &str)
        ensures
            final(self).source == old(self).source,
            final(self).printed() == put(old(self).printed(), s@),
    {
        self.buf.append(s);
    }

    fn write_source(&mut self, span: Span)
        ensures
            final(self).source == old(self).source,
            final(self).printed() == source_put(old(self).printed(), old(self).source.spec_bytes(), span),
    {
        let a = span.start as usize;
        let b = span.end as usize;
        if a <= b && b <= self.source.as_bytes().len() && self.source.is_char_boundary(a) && self.source.is_char_boundary(b) {
            let slice = str_slice(self.source, a, b);
            self.write(slice);
        }
    }

    /// The source text at `span`, recorded as one node.
    fn paste(&mut self, span: Span)
        ensures
            final(self).source == old(self).source,
            final(self).printed() == recorded(
                source_put(old(self).printed(), old(self).source.spec_bytes(), span),
                span,
                pos_of(old(self).printed()),
            ),
    {
        let start = self.pos();
        self.write_source(span);
        self.record(span, start);
    }

    fn print_binding_identifier(&mut self, id: &Ident<'a>)
        ensures
            final(self).source == old(self).source,
            final(self).printed() == ident_out(old(self).printed(), *id),
    {
        let start = self.pos();
        self.write(id.name);
        self.record(id.span, start);
    }

    fn print_string_literal(&mut self, s: &StringLit<'a>)
        ensures
            final(self).source == old(self).source,
            final(self).printed() == string_lit_out(old(self).printed(), old(self).source.spec_bytes(), *s),
    {
        let start = self.pos();
        if s.has_raw && s.span.start != s.span.end {
            self.write_source(s.span);
        } else {
            self.write("'");
            self.write(s.value);
            self.write("'");
        }
        self.record(s.span, start);
    }

    fn print_module_export_name(&mut self, name: &ModuleName<'a>)
        ensures
            final(self).source == old(self).source,
            final(self).printed() == module_name_out(old(self).printed(), old(self).source.spec_bytes(), *name),
    {
        match name {
            ModuleName::Identifier(id) => self.print_binding_identifier(id),
            ModuleName::String(s) => self.print_string_literal(s),
        }
    }

    fn print_named_specifier(&mut self, s: &ImportSpecifier<'a>, import_is_type: bool)
        ensures
            final(self).source == old(self).source,
            final(self).printed() == named_out(old(self).printed(), old(self).source.spec_bytes(), *s, import_is_type),
    {
        if let ImportSpecifier::Named { imported, local, is_type, span } = s {
            let st = self.pos();
            if !import_is_type && *is_type {
                self.write("type ");
            }
            self.print_module_export_name(imported);
            let text = module_export_name_text(imported);
            let same = eq_bytes(text.as_bytes(), local.name.as_bytes());
            proof {
                if text@ == local.name@ {
                    assert(text.spec_bytes() == local.name.spec_bytes());
                }
                if same {
                    assert(decode_utf8(text.spec_bytes()) == decode_utf8(local.name.spec_bytes()));
                }
            }
            if !same {
                self.write(" as ");
                self.print_binding_identifier(local);
            }
            self.record(*span, st);
        }
    }

    fn print_import_attribute(&mut self, attr: &ImportAttribute<'a>)
        ensures
            final(self).source == old(self).source,
            final(self).printed() == attribute_out(old(self).printed(), old(self).source.spec_bytes(), *attr),
    {
        let start = self.pos();
        self.print_module_export_name(&attr.key);
        self.write(": ");
        self.print_string_literal(&attr.value);
        self.record(attr.span, start);
    }

    fn print_with_clause(&mut self, clause: Option<&WithClause<'a>>)
        ensures
            final(self).source == old(self).source,
            final(self).printed() == with_out(
                old(self).printed(),
                old(self).source.spec_bytes(),
                match clause {
                    Some(c) => Some(*c),
                    None => None,
                },
            ),
    {
        if let Some(clause) = clause {
            self.write(" ");
            if clause.is_assert {
                self.write("assert");
            } else {
                self.write("with");
            }
            if clause.span.start != clause.span.end {
                self.write(" ");
                self.paste(clause.span);
                return;
            }
            self.write(" { ");
            let ghost o0 = self.printed();
            let ghost src = self.source.spec_bytes();
            let mut i: usize = 0;
            while i < clause.entries.len()
                invariant
                    i <= clause.entries@.len(),
                    self.source == old(self).source,
                    src == self.source.spec_bytes(),
                    self.printed() == attributes_out(o0, src, clause.entries@.take(i as int)),
                decreases clause.entries@.len() - i,
            {
                if i > 0 {
                    self.write(", ");
                }
                self.print_import_attribute(&clause.entries[i]);
                proof {
                    assert(clause.entries@.take(i + 1).drop_last() =~= clause.entries@.take(i as int));
                }
                i += 1;
            }
            proof {
                assert(clause.entries@.take(i as int) =~= clause.entries@);
            }
            self.write(" }");
        }
    }

    /// Prints `d`; see `import_decl_out` for what comes out.
    pub fn print_import_decl(&mut self, d: &ImportDecl<'a>)
        ensures
            final(self).source == old(self).source,
            final(self).printed() == import_decl_out(old(self).printed(), old(self).source.spec_bytes(), *d),
    {
        let ghost src = self.source.spec_bytes();
        let start = self.pos();
        self.write("import ");
        let import_is_type = d.is_type;
        if import_is_type {
            self.write("type ");
        }
        if let Some(specifiers) = &d.specifiers {
            self.print_specifiers(specifiers, import_is_type);
        }
        self.print_string_literal(&d.source);
        self.print_with_clause(d.with_clause.as_ref());
        self.write(";");
        self.record(d.span, start);
    }

    fn print_specifiers(&mut self, specifiers: &Vec<ImportSpecifier<'a>>, import_is_type: bool)
        ensures
            final(self).source == old(self).source,
            final(self).printed() == specifiers_out(
                old(self).printed(),
                old(self).source.spec_bytes(),
                specifiers@,
                import_is_type,
            ),
    {
        let ghost src = self.source.spec_bytes();
        let ghost sp = specifiers@;
        let mut default: Option<(Ident<'a>, Span)> = None;
        let mut namespace: Option<(Ident<'a>, Span)> = None;
        let mut named: Vec<ImportSpecifier<'a>> = Vec::new();
        let mut i: usize = 0;
        while i < specifiers.len()
            invariant
                i <= sp.len(),
                sp == specifiers@,
                default == last_default(sp.take(i as int)),
                namespace == last_namespace(sp.take(i as int)),
                named@ == named_of(sp.take(i as int)),
            decreases sp.len() - i,
        {
            let s = specifiers[i];
            proof {
                assert(sp.take(i + 1).drop_last() =~= sp.take(i as int));
                assert(sp.take(i + 1).last() == s);
            }
            match s {
                ImportSpecifier::Default { local, span } => {
                    default = Some((local, span));
                },
                ImportSpecifier::Namespace { local, span } => {
                    namespace = Some((local, span));
                },
                ImportSpecifier::Named { .. } => {
                    named.push(s);
                },
            }
            i += 1;
        }
        proof {
            assert(sp.take(i as int) =~= sp);
        }
        let mut needs_comma = false;
        if let Some((local, span)) = default {
            let st = self.pos();
            self.print_binding_identifier(&local);
            self.record(span, st);
            needs_comma = true;
        }
        if let Some((local, span)) = namespace {
            if needs_comma {
                self.write(", ");
            }
            let st = self.pos();
            self.write("* as ");
            self.print_binding_identifier(&local);
            self.record(span, st);
            needs_comma = true;
        }
        if named.len() > 0 {
            if needs_comma {
                self.write(", ");
            }
            self.write("{ ");
            let ghost o0 = self.printed();
            let mut k: usize = 0;
            while k < named.len()
                invariant
                    k <= named@.len(),
                    self.source == old(self).source,
                    src == self.source.spec_bytes(),
                    self.printed() == named_list_out(o0, src, named@.take(k as int), import_is_type),
                decreases named@.len() - k,
            {
                if k > 0 {
                    self.write(", ");
                }
                self.print_named_specifier(&named[k], import_is_type);
                proof {
                    assert(named@.take(k + 1).drop_last() =~= named@.take(k as int));
                }
                k += 1;
            }
            proof {
                assert(named@.take(k as int) =~= named@);
            }
            self.write(" }");
        }
        if default.is_some() || namespace.is_some() || named.len() > 0 {
            self.write(" from ");
        }
    }
}

} // verus!
