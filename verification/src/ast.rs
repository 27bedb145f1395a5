//! The template AST: elements, attributes, directive keys, text and
//! `{{ }}` expression containers. Text fields borrow the component source.
use vstd::prelude::*;

use crate::span::Span;

verus! {

/// The language of a script region.
#[derive(Clone, Copy, Debug, PartialEq, Eq, Structural)]
pub enum Language {
    JavaScript,
    TypeScript,
    TypeScriptDefinition,
}

/// How a script region is to be read as a module.
#[derive(Clone, Copy, Debug, PartialEq, Eq, Structural)]
pub enum ModuleKind {
    Script,
    Module,
    Unambiguous,
    CommonJs,
}

/// The file extension that a source type was read from.
#[derive(Clone, Copy, Debug, PartialEq, Eq, Structural)]
pub enum FileExt {
    Js,
    Mjs,
    Cjs,
    Jsx,
    Ts,
    Mts,
    Cts,
    Tsx,
}

/// The source type of a script region.
#[derive(Clone, Copy, Debug, PartialEq, Eq, Structural)]
pub struct SourceKind {
    pub language: Language,
    pub module_kind: ModuleKind,
    pub jsx: bool,
    /// The file extension it was read from, if any.
    pub extension: Option<FileExt>,
}

/// JavaScript as an ES module, without JSX.
pub open spec fn mjs_kind() -> SourceKind {
    SourceKind { language: Language::JavaScript, module_kind: ModuleKind::Module, jsx: false, extension: None }
}

impl SourceKind {
    /// JavaScript as an ES module, without JSX: the default source type.
    pub fn mjs() -> (r: SourceKind)
        ensures
            r == mjs_kind(),
    {
        SourceKind { language: Language::JavaScript, module_kind: ModuleKind::Module, jsx: false, extension: None }
    }

    /// Read as an ES module when `yes`.
    pub fn with_module(self, yes: bool) -> (r: SourceKind)
        ensures
            r == (if yes {
                SourceKind { module_kind: ModuleKind::Module, ..self }
            } else {
                self
            }),
    {
        if yes {
            SourceKind { module_kind: ModuleKind::Module, ..self }
        } else {
            self
        }
    }

    /// Read as TypeScript when `yes`.
    pub fn with_typescript(self, yes: bool) -> (r: SourceKind)
        ensures
            r == (if yes {
                SourceKind { language: Language::TypeScript, ..self }
            } else {
                self
            }),
    {
        if yes {
            SourceKind { language: Language::TypeScript, ..self }
        } else {
            self
        }
    }

    pub fn is_typescript(&self) -> (r: bool)
        ensures
            r == (self.language == Language::TypeScript || self.language
                == Language::TypeScriptDefinition),
    {
        match self.language {
            Language::JavaScript => false,
            _ => true,
        }
    }
}

/// What an expression container's text is to be read as.
#[derive(Clone, Copy, Debug, PartialEq, Eq, Structural)]
pub enum VExprKind {
    Default,
    VOn,
    VSlot,
    VFor,
}

#[derive(Clone, Debug)]
pub struct VIdentifier<'a> {
    pub range: Span,
    pub name: &'a str,
    pub raw_name: &'a str,
}

/// Embedded script text: a `{{ }}` interpolation, a directive value or a
/// dynamic directive argument.
#[derive(Clone, Debug)]
pub struct VExpressionContainer<'a> {
    /// The container, quotes or braces included.
    pub range: Span,
    pub raw_expression: &'a str,
    /// The script text alone.
    pub expression_range: Span,
    pub raw: bool,
    /// The value was not written: it is the argument's name standing for
    /// itself (`:foo` read as `:foo="foo"`).
    pub same_name_shorthand: bool,
    pub kind: VExprKind,
    pub source_type: SourceKind,
}

#[derive(Clone, Debug)]
pub struct VLiteral<'a> {
    pub range: Span,
    pub value: &'a str,
}

#[derive(Clone, Debug)]
pub enum VDirectiveKeyArgument<'a> {
    Identifier(VIdentifier<'a>),
    Expression(VExpressionContainer<'a>),
}

#[derive(Clone, Debug)]
pub struct VDirectiveKey<'a> {
    pub range: Span,
    pub name: VIdentifier<'a>,
    pub argument: Option<VDirectiveKeyArgument<'a>>,
    pub modifiers: Vec<VIdentifier<'a>>,
    pub raw: &'a str,
}

#[derive(Clone, Debug)]
pub enum VAttributeKey<'a> {
    Identifier(VIdentifier<'a>),
    Directive(VDirectiveKey<'a>),
}

#[derive(Clone, Debug)]
pub enum VAttributeValue<'a> {
    Expression(VExpressionContainer<'a>),
    Literal(VLiteral<'a>),
}

#[derive(Clone, Debug)]
pub struct VAttribute<'a> {
    pub range: Span,
    pub directive: bool,
    pub key: VAttributeKey<'a>,
    pub value: Option<VAttributeValue<'a>>,
}

#[derive(Clone, Debug)]
pub struct VText<'a> {
    pub range: Span,
    pub value: &'a str,
}

#[derive(Clone, Debug)]
pub struct VStartTag<'a> {
    pub range: Span,
    pub self_closing: bool,
    pub attributes: Vec<VAttribute<'a>>,
}

#[derive(Clone, Copy, Debug)]
pub struct VEndTag {
    pub range: Span,
}

#[derive(Clone, Copy, Debug, PartialEq, Eq, Structural)]
pub enum VNamespace {
    Html,
}

#[derive(Debug)]
pub struct VElement<'a> {
    pub range: Span,
    pub name: &'a str,
    pub raw_name: &'a str,
    pub namespace: VNamespace,
    pub start_tag: VStartTag<'a>,
    pub end_tag: Option<VEndTag>,
    pub children: Vec<VElementChild<'a>>,
}

#[derive(Debug)]
pub enum VElementChild<'a> {
    Element(Box<VElement<'a>>),
    Text(VText<'a>),
    ExpressionContainer(VExpressionContainer<'a>),
}

#[derive(Debug)]
pub enum VRootChild<'a> {
    Element(VElement<'a>),
    Text(VText<'a>),
}

#[derive(Debug)]
pub struct VDocumentFragment<'a> {
    pub range: Span,
    pub children: Vec<VRootChild<'a>>,
}

} // verus!
