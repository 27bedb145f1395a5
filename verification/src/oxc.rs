//! The calls into oxc and memchr that the token scanner makes:
//! JavaScript/TypeScript tokenisation, source types from file
//! extensions, irregular whitespace, and substring search.
use vstd::prelude::*;

use crate::ast::{FileExt, Language, ModuleKind, SourceKind};

verus! {

#[verifier::external_type_specification]
#[verifier::external_body]
pub struct ExOxcDiagnostic(oxc_diagnostics::OxcDiagnostic);

#[verifier::external_type_specification]
#[verifier::external_body]
pub struct ExComment(oxc_ast::Comment);

#[verifier::external_type_specification]
#[verifier::external_body]
pub struct ExSourceType(oxc_span::SourceType);

#[verifier::external_type_specification]
#[verifier::external_body]
pub struct ExFileExtension(oxc_span::FileExtension);

/// What oxc reports for a tokenised text: the ESTree token array as JSON
/// (absent when the parser gave up), its diagnostics and the comments.
pub struct OxcTokens {
    pub json: Option<String>,
    pub errors: Vec<oxc_diagnostics::OxcDiagnostic>,
    pub comments: Vec<oxc_ast::Comment>,
}

/// The ESTree token JSON that oxc's parser and token serialiser produce
/// for `text` read as `kind`, or `None` when the parser panics.
pub uninterp spec fn oxc_token_json(text: Seq<char>, kind: SourceKind) -> Option<Seq<char>>;

/// The name of a file extension; empty for none.
pub open spec fn extension_chars(e: Option<FileExt>) -> Seq<char> {
    match e {
        None => seq![],
        Some(FileExt::Js) => seq!['j', 's'],
        Some(FileExt::Mjs) => seq!['m', 'j', 's'],
        Some(FileExt::Cjs) => seq!['c', 'j', 's'],
        Some(FileExt::Jsx) => seq!['j', 's', 'x'],
        Some(FileExt::Ts) => seq!['t', 's'],
        Some(FileExt::Mts) => seq!['m', 't', 's'],
        Some(FileExt::Cts) => seq!['c', 't', 's'],
        Some(FileExt::Tsx) => seq!['t', 's', 'x'],
    }
}

/// The name of a file extension, as `SourceType::from_extension` reads
/// it; the empty name for none.
fn extension_name(e: Option<FileExt>) -> (r: &'static str)
    ensures
        r@ == extension_chars(e),
{
    match e {
        None => {
            proof {
                reveal_strlit("");
            }
            assert(""@ =~= extension_chars(e));
            ""
        },
        Some(FileExt::Js) => {
            proof {
                reveal_strlit("js");
            }
            assert("js"@ =~= extension_chars(e));
            "js"
        },
        Some(FileExt::Mjs) => {
            proof {
                reveal_strlit("mjs");
            }
            assert("mjs"@ =~= extension_chars(e));
            "mjs"
        },
        Some(FileExt::Cjs) => {
            proof {
                reveal_strlit("cjs");
            }
            assert("cjs"@ =~= extension_chars(e));
            "cjs"
        },
        Some(FileExt::Jsx) => {
            proof {
                reveal_strlit("jsx");
            }
            assert("jsx"@ =~= extension_chars(e));
            "jsx"
        },
        Some(FileExt::Ts) => {
            proof {
                reveal_strlit("ts");
            }
            assert("ts"@ =~= extension_chars(e));
            "ts"
        },
        Some(FileExt::Mts) => {
            proof {
                reveal_strlit("mts");
            }
            assert("mts"@ =~= extension_chars(e));
            "mts"
        },
        Some(FileExt::Cts) => {
            proof {
                reveal_strlit("cts");
            }
            assert("cts"@ =~= extension_chars(e));
            "cts"
        },
        Some(FileExt::Tsx) => {
            proof {
                reveal_strlit("tsx");
            }
            assert("tsx"@ =~= extension_chars(e));
            "tsx"
        },
    }
}

/// What oxc's `SourceType` is built from: the name of the extension that
/// `SourceType::from_extension` reads, and the flags handed to its
/// `with_*` setters.
pub struct SourceTypeSettings {
    pub extension: &'static str,
    pub script: bool,
    pub module: bool,
    pub unambiguous: bool,
    pub commonjs: bool,
    pub javascript: bool,
    pub typescript: bool,
    pub typescript_definition: bool,
    pub jsx: bool,
    pub standard: bool,
}

/// The settings `st` spell the source kind `kind`: its extension, one
/// module flag for its module kind, one language flag for its language,
/// and JSX or standard syntax.
pub open spec fn settings_of_kind(st: SourceTypeSettings, kind: SourceKind) -> bool {
    &&& st.extension@ == extension_chars(kind.extension)
    &&& st.script == (kind.module_kind == ModuleKind::Script)
    &&& st.module == (kind.module_kind == ModuleKind::Module)
    &&& st.unambiguous == (kind.module_kind == ModuleKind::Unambiguous)
    &&& st.commonjs == (kind.module_kind == ModuleKind::CommonJs)
    &&& st.javascript == (kind.language == Language::JavaScript)
    &&& st.typescript == (kind.language == Language::TypeScript)
    &&& st.typescript_definition == (kind.language == Language::TypeScriptDefinition)
    &&& st.jsx == kind.jsx
    &&& st.standard == !kind.jsx
}

/// The settings of oxc's `SourceType` for a source kind.
pub fn source_type_settings(kind: SourceKind) -> (r: SourceTypeSettings)
    ensures
        settings_of_kind(r, kind),
{
    let m = kind.module_kind;
    let l = kind.language;
    SourceTypeSettings {
        extension: extension_name(kind.extension),
        script: m == ModuleKind::Script,
        module: m == ModuleKind::Module,
        unambiguous: m == ModuleKind::Unambiguous,
        commonjs: m == ModuleKind::CommonJs,
        javascript: l == Language::JavaScript,
        typescript: l == Language::TypeScript,
        typescript_definition: l == Language::TypeScriptDefinition,
        jsx: kind.jsx,
        standard: !kind.jsx,
    }
}

/// oxc's `SourceType` from its settings: `SourceType::from_extension` on
/// the extension name (`SourceType::mjs` where it refuses the name), then
/// each `with_*` setter with its flag.
#[verifier::external_body]
fn source_type_of(s: &SourceTypeSettings) -> oxc_span::SourceType {
    let base = match oxc_span::SourceType::from_extension(s.extension) {
        Ok(st) => st,
        Err(_) => oxc_span::SourceType::mjs(),
    };
    base.with_script(s.script).with_module(s.module).with_unambiguous(s.unambiguous).with_commonjs(s.commonjs)
        .with_javascript(s.javascript).with_typescript(s.typescript)
        .with_typescript_definition(s.typescript_definition).with_jsx(s.jsx).with_standard(s.standard)
}

/// `oxc_parser::Parser::parse` with tokens collected, then
/// `oxc_estree_tokens::to_estree_tokens_json` on the tokens.
///
/// The source type is built from `settings`, which spell `kind`, so the
/// result depends on the text and the kind alone. The contract names the
/// JSON (`oxc_token_json`) and says that it is the array that the
/// serialiser writes, between `[` and `]`. Of the diagnostics and
/// comments, which are handed on unread, nothing is stated.
#[verifier::external_body]
pub(crate) fn oxc_tokenize(text: &str, kind: SourceKind, settings: &SourceTypeSettings) -> (r: OxcTokens)
    requires
        settings_of_kind(*settings, kind),
    ensures
        match r.json {
            Some(j) => oxc_token_json(text@, kind) == Some(j@) && j@.len() >= 2 && j@[0] == '['
                && j@.last() == ']',
            None => oxc_token_json(text@, kind) is None,
        },
{
    let alloc = oxc_allocator::Allocator::default();
    let st = source_type_of(settings);
    let ret = oxc_parser::Parser::new(&alloc, text, st).with_config(oxc_parser::config::TokensParserConfig).parse();
    let json = if ret.panicked {
        None
    } else {
        let conv = oxc_ast_visit::utf8_to_utf16::Utf8ToUtf16::new("");
        let opts = oxc_estree_tokens::ESTreeTokenOptions::new(st.is_typescript());
        Some(oxc_estree_tokens::to_estree_tokens_json(&ret.tokens, &ret.program, text, &conv, opts))
    };
    OxcTokens { json, errors: ret.diagnostics.into_vec(), comments: ret.program.comments.iter().copied().collect() }
}

/// The source type of a file extension, as `oxc_span::SourceType`'s
/// extension table gives it.
pub open spec fn kind_of_extension(ext: Seq<char>) -> Option<SourceKind> {
    let js = Language::JavaScript;
    let ts = Language::TypeScript;
    if ext == seq!['j', 's'] {
        Some(SourceKind { language: js, module_kind: ModuleKind::Unambiguous, jsx: false, extension: Some(FileExt::Js) })
    } else if ext == seq!['m', 'j', 's'] {
        Some(SourceKind { language: js, module_kind: ModuleKind::Module, jsx: false, extension: Some(FileExt::Mjs) })
    } else if ext == seq!['c', 'j', 's'] {
        Some(SourceKind { language: js, module_kind: ModuleKind::CommonJs, jsx: false, extension: Some(FileExt::Cjs) })
    } else if ext == seq!['j', 's', 'x'] {
        Some(SourceKind { language: js, module_kind: ModuleKind::Unambiguous, jsx: true, extension: Some(FileExt::Jsx) })
    } else if ext == seq!['t', 's'] {
        Some(SourceKind { language: ts, module_kind: ModuleKind::Unambiguous, jsx: false, extension: Some(FileExt::Ts) })
    } else if ext == seq!['m', 't', 's'] {
        Some(SourceKind { language: ts, module_kind: ModuleKind::Module, jsx: false, extension: Some(FileExt::Mts) })
    } else if ext == seq!['c', 't', 's'] {
        Some(SourceKind { language: ts, module_kind: ModuleKind::CommonJs, jsx: false, extension: Some(FileExt::Cts) })
    } else if ext == seq!['t', 's', 'x'] {
        Some(SourceKind { language: ts, module_kind: ModuleKind::Unambiguous, jsx: true, extension: Some(FileExt::Tsx) })
    } else {
        None
    }
}

/// `oxc_span::SourceType::from_extension`.
///
/// Its source maps the eight extensions `js`, `mjs`, `cjs`, `jsx`, `ts`,
/// `mts`, `cts`, `tsx` to a language, a module kind and the JSX variant,
/// and refuses anything else; the contract states that table.
#[verifier::external_body]
pub(crate) fn source_kind_from_extension(ext: &str) -> (r: Option<SourceKind>)
    ensures
        r == kind_of_extension(ext@),
{
    oxc_span::SourceType::from_extension(ext).ok().map(kind_of_source_type)
}

/// A source kind for oxc's `SourceType`, one field for one field.
#[verifier::external_body]
fn kind_of_source_type(st: oxc_span::SourceType) -> SourceKind {
    let module_kind = match st.module_kind() {
        oxc_span::ModuleKind::Script => ModuleKind::Script,
        oxc_span::ModuleKind::Module => ModuleKind::Module,
        oxc_span::ModuleKind::Unambiguous => ModuleKind::Unambiguous,
        oxc_span::ModuleKind::CommonJS => ModuleKind::CommonJs,
    };
    let language = if st.is_typescript_definition() {
        Language::TypeScriptDefinition
    } else if st.is_typescript() {
        Language::TypeScript
    } else {
        Language::JavaScript
    };
    SourceKind { language, module_kind, jsx: st.is_jsx(), extension: file_ext_of(st.extension()) }
}

/// oxc's `FileExtension` as a file extension of the library, one variant
/// for one variant.
#[verifier::external_body]
fn file_ext_of(e: Option<oxc_span::FileExtension>) -> Option<FileExt> {
    Some(match e? {
        oxc_span::FileExtension::Js => FileExt::Js,
        oxc_span::FileExtension::Mjs => FileExt::Mjs,
        oxc_span::FileExtension::Cjs => FileExt::Cjs,
        oxc_span::FileExtension::Jsx => FileExt::Jsx,
        oxc_span::FileExtension::Ts => FileExt::Ts,
        oxc_span::FileExtension::Mts => FileExt::Mts,
        oxc_span::FileExtension::Cts => FileExt::Cts,
        oxc_span::FileExtension::Tsx => FileExt::Tsx,
    })
}

/// The characters that oxc reports as irregular whitespace.
pub open spec fn is_irregular_ws(c: char) -> bool {
    ||| c == '\u{b}'
    ||| c == '\u{c}'
    ||| c == '\u{a0}'
    ||| c == '\u{feff}'
    ||| c == '\u{85}'
    ||| c == '\u{1680}'
    ||| ('\u{2000}' <= c && c <= '\u{200b}')
    ||| c == '\u{202f}'
    ||| c == '\u{205f}'
    ||| c == '\u{3000}'
}

/// `oxc_syntax::identifier::is_irregular_whitespace`, whose source
/// matches exactly the characters of `is_irregular_ws`.
#[verifier::external_body]
pub(crate) fn is_irregular_whitespace(c: char) -> (r: bool)
    ensures
        r == is_irregular_ws(c),
{
    oxc_syntax::identifier::is_irregular_whitespace(c)
}

/// `needle` occurs in `hay` at `i`.
pub open spec fn occurs_at(hay: Seq<u8>, needle: Seq<u8>, i: int) -> bool {
    0 <= i && i + needle.len() <= hay.len() && hay.subrange(i, i + needle.len()) == needle
}

/// `memchr::memmem::find`: the index of the first occurrence of `needle`
/// in `hay`, as its documentation states.
#[verifier::external_body]
pub(crate) fn memmem_find(hay: &[u8], needle: &[u8]) -> (r: Option<usize>)
    ensures
        match r {
            Some(i) => occurs_at(hay@, needle@, i as int) && forall|j: int|
                0 <= j < i ==> !occurs_at(hay@, needle@, j),
            None => forall|j: int| !occurs_at(hay@, needle@, j),
        },
{
    memchr::memmem::find(hay, needle)
}

/// `memchr::memmem::rfind`: the index of the last occurrence of `needle`
/// in `hay`, as its documentation states.
#[verifier::external_body]
pub(crate) fn memmem_rfind(hay: &[u8], needle: &[u8]) -> (r: Option<usize>)
    ensures
        match r {
            Some(i) => occurs_at(hay@, needle@, i as int) && forall|j: int|
                i < j ==> !occurs_at(hay@, needle@, j),
            None => forall|j: int| !occurs_at(hay@, needle@, j),
        },
{
    memchr::memmem::rfind(hay, needle)
}

} // verus!
