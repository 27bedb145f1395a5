//! The plain records that the Node.js bindings hand out, and the text of a
//! comment as they report it.
use vstd::prelude::*;
use vstd::string::StringSliceAdditionalSpecFns;
use vstd::utf8::*;

use crate::json::{find_bytes_from, first_occ_from};
use crate::text::str_slice;

verus! {

/// What parsing a component hands to JavaScript.
pub struct NativeParseResult {
    pub ast_json: String,
    pub irregular_whitespaces: Vec<(u32, u32)>,
    pub errors: Vec<NativeDiagnostic>,
    pub panicked: bool,
}

/// A comment as JavaScript sees it: `Line` or `Block`, its text, and its
/// offsets.
pub struct NativeComment {
    pub kind: String,
    pub value: String,
    pub start: u32,
    pub end: u32,
    pub range: (u32, u32),
}

/// A diagnostic as JavaScript sees it.
pub struct NativeDiagnostic {
    pub message: String,
    pub start: u32,
    pub end: u32,
}

/// A span of generated code and the span of the source it came from.
pub struct NativeMapping {
    pub virtual_start: u32,
    pub virtual_end: u32,
    pub original_start: u32,
    pub original_end: u32,
}

/// What transforming a component into JSX or TSX hands to JavaScript.
pub struct NativeTransformResult {
    pub source_text: String,
    pub script_kind: String,
    pub comments: Vec<NativeComment>,
    pub irregular_whitespaces: Vec<(u32, u32)>,
    pub errors: Vec<NativeDiagnostic>,
    pub mappings: Vec<NativeMapping>,
}

/// The message of a diagnostic and the offset and length of each of its
/// labels, in order.
pub uninterp spec fn diagnostic_parts_of(error: oxc_diagnostics::OxcDiagnostic) -> (Seq<char>, Seq<(u32, u32)>);

/// The message of `error` and the offset and length of each of its labels,
/// in order.
///
/// Reads `OxcDiagnosticInner::message` and `Labels::as_slice` of the
/// `oxc_diagnostics` diagnostic, and `LabeledSpan::offset` and
/// `LabeledSpan::len` of each label; the contract names what comes back
/// (`diagnostic_parts_of`), a function of the diagnostic alone.
#[verifier::external_body]
fn diagnostic_parts(error: &oxc_diagnostics::OxcDiagnostic) -> (r: (String, Vec<(u32, u32)>))
    ensures
        r.0@ == diagnostic_parts_of(*error).0,
        r.1@ == diagnostic_parts_of(*error).1,
{
    (error.message.to_string(), error.labels.as_slice().iter().map(|label| (label.offset(), label.len())).collect())
}

/// The record of a diagnostic with `message` whose first label (if any)
/// starts at `offset` and is `len` bytes long; without a label it covers
/// no bytes at offset 0.
pub fn diagnostic_record(message: String, label: Option<(u32, u32)>) -> (r: NativeDiagnostic)
    requires
        label matches Some((offset, len)) ==> offset + len <= u32::MAX,
    ensures
        r.message@ == message@,
        match label {
            Some((offset, len)) => r.start == offset && r.end == offset + len,
            None => r.start == 0 && r.end == 0,
        },
{
    let (start, end) = match label {
        Some((offset, len)) => (offset, offset + len),
        None => (0, 0),
    };
    NativeDiagnostic { message, start, end }
}

/// The record of a diagnostic with `message` and the labels `labels` (each
/// an offset and a length): it covers the first label, or no bytes at
/// offset 0 when there is none; `None` where the first label ends past
/// `u32::MAX`.
pub fn diagnostic_from_parts(message: String, labels: &[(u32, u32)]) -> (r: Option<NativeDiagnostic>)
    ensures
        r is Some <==> (labels@.len() == 0 || labels@[0].0 + labels@[0].1 <= u32::MAX),
        r matches Some(d) ==> {
            &&& d.message@ == message@
            &&& if labels@.len() == 0 {
                d.start == 0 && d.end == 0
            } else {
                d.start == labels@[0].0 && d.end == labels@[0].0 + labels@[0].1
            }
        },
{
    if labels.len() == 0 {
        return Some(diagnostic_record(message, None));
    }
    let (offset, len) = labels[0];
    if len > u32::MAX - offset {
        None
    } else {
        Some(diagnostic_record(message, Some((offset, len))))
    }
}

/// The record of `error`: its message and its first label, as
/// `diagnostic_from_parts` makes it from what the diagnostic holds.
pub fn native_diagnostic(error: &oxc_diagnostics::OxcDiagnostic) -> (r: Option<NativeDiagnostic>)
    ensures
        ({
            let (message, labels) = diagnostic_parts_of(*error);
            &&& r is Some <==> (labels.len() == 0 || labels[0].0 + labels[0].1 <= u32::MAX)
            &&& r matches Some(d) ==> {
                &&& d.message@ == message
                &&& if labels.len() == 0 {
                    d.start == 0 && d.end == 0
                } else {
                    d.start == labels[0].0 && d.end == labels[0].0 + labels[0].1
                }
            }
        }),
{
    let (message, labels) = diagnostic_parts(error);
    diagnostic_from_parts(message, labels.as_slice())
}

/// The two kinds of JavaScript comment.
#[derive(Clone, Copy, Debug, PartialEq, Eq, Structural)]
pub enum JsCommentKind {
    Line,
    Block,
}

/// The text of a comment and its range.
pub struct CommentData<'a> {
    pub value: &'a str,
    pub start: u32,
    pub end: u32,
}

/// `s[a..b]`, when both ends are character boundaries inside `s`.
pub open spec fn slice_if_boundaries(s: Seq<u8>, a: int, b: int) -> Option<Seq<u8>> {
    if 0 <= a <= b <= s.len() && is_char_boundary(s, a) && is_char_boundary(s, b) {
        Some(s.subrange(a, b))
    } else {
        None
    }
}

/// The end of a line comment's text: the first `\n` at or after
/// `value_start`, or the end of the source.
pub open spec fn line_end(s: Seq<u8>, value_start: int) -> int {
    match first_occ_from(s, seq![0x0au8], value_start) {
        Some(k) => k,
        None => s.len() as int,
    }
}

/// `source_text.get(a..b)`: the slice where both ends are character
/// boundaries inside the text, and the empty string otherwise.
fn get_or_empty(source_text: &str, a: usize, b: usize) -> (r: &str)
    ensures
        r.spec_bytes() == match slice_if_boundaries(source_text.spec_bytes(), a as int, b as int) {
            Some(t) => t,
            None => Seq::<u8>::empty(),
        },
{
    let n = source_text.as_bytes().len();
    if a <= b && b <= n && source_text.is_char_boundary(a) && source_text.is_char_boundary(b) {
        str_slice(source_text, a, b)
    } else {
        proof {
            reveal_strlit("");
        }
        ""
    }
}

/// Where a line comment whose text starts at `value_start` ends: at the
/// next line feed, or at the end of the source.
pub fn line_comment_end(source_text: &str, value_start: usize) -> (r: usize)
    requires
        value_start <= source_text.spec_bytes().len(),
        is_char_boundary(source_text.spec_bytes(), value_start as int),
    ensures
        r == line_end(source_text.spec_bytes(), value_start as int),
        value_start <= r <= source_text.spec_bytes().len(),
{
    let nl: &[u8] = &[0x0a];
    assert(nl@ =~= seq![0x0au8]);
    match find_bytes_from(source_text.as_bytes(), nl, value_start) {
        Some(k) => k,
        None => source_text.as_bytes().len(),
    }
}

/// The text and range of a comment whose token runs over `[start, end)`:
/// a line comment's text starts after its `//` and runs to the end of the
/// line; a block comment reports the whole token. Text whose ends are not
/// character boundaries is reported as empty.
pub fn comment_data(source_text: &str, kind: JsCommentKind, start: u32, end: u32) -> (r: CommentData<'_>)
    requires
        source_text.spec_bytes().len() <= u32::MAX,
        kind == JsCommentKind::Line ==> start + 2 <= source_text.spec_bytes().len() && is_char_boundary(
            source_text.spec_bytes(),
            start + 2,
        ),
    ensures
        ({
            let s = source_text.spec_bytes();
            let (a, b) = if kind == JsCommentKind::Line {
                (start + 2, line_end(s, start + 2))
            } else {
                (start as int, end as int)
            };
            &&& r.start == start
            &&& r.end == if kind == JsCommentKind::Line { b } else { end as int }
            &&& r.value.spec_bytes() == match slice_if_boundaries(s, a, b) {
                Some(t) => t,
                None => Seq::<u8>::empty(),
            }
        }),
{
    let start = start as usize;
    let end = end as usize;
    if kind == JsCommentKind::Line {
        let value_start = start + 2;
        let end = line_comment_end(source_text, value_start);
        return CommentData { value: get_or_empty(source_text, value_start, end), start: start as u32, end: end as u32 };
    }
    CommentData { value: get_or_empty(source_text, start, end), start: start as u32, end: end as u32 }
}

} // verus!
