//! The records of a transformed component that JavaScript reads: comments
//! and diagnostics with their offsets counted in UTF-16 units.
use vstd::prelude::*;
use vstd::string::StringSliceAdditionalSpecFns;
use vstd::utf8::*;

use crate::source_text::{utf16_offset, SourceOffsets};
use crate::toolkit::{
    comment_data, diagnostic_parts_of, line_end, slice_if_boundaries, JsCommentKind, NativeComment,
    NativeDiagnostic,
};

verus! {

broadcast use vstd::string::group_string_axioms, vstd::utf8::encode_utf8_decode_utf8;

/// Where a comment token over `[start, end)` ends as reported: a line
/// comment at the end of its line, a block comment at `end`.
pub open spec fn comment_end(s: Seq<u8>, kind: JsCommentKind, start: int, end: int) -> int {
    if kind == JsCommentKind::Line {
        line_end(s, start + 2)
    } else {
        end
    }
}

/// The bytes of a comment's text: after the `//` of a line comment up to
/// the end of its line, the whole token of a block comment; empty where an
/// end is not a character boundary.
pub open spec fn comment_text(s: Seq<u8>, kind: JsCommentKind, start: int, end: int) -> Seq<u8> {
    let a = if kind == JsCommentKind::Line {
        start + 2
    } else {
        start
    };
    match slice_if_boundaries(s, a, comment_end(s, kind, start, end)) {
        Some(t) => t,
        None => Seq::<u8>::empty(),
    }
}

/// The name JavaScript gives a comment kind.
pub open spec fn comment_kind_name(kind: JsCommentKind) -> Seq<char> {
    if kind == JsCommentKind::Line {
        "Line"@
    } else {
        "Block"@
    }
}

/// The record of the comment token `[start, end)` of `source_text`: its
/// kind's name, its text, and its start and end in UTF-16 units (also as
/// `range`).
pub fn native_comment(
    source_text: &str,
    offsets: &SourceOffsets,
    kind: JsCommentKind,
    start: u32,
    end: u32,
) -> (r: NativeComment)
    requires
        source_text.spec_bytes().len() <= u32::MAX,
        offsets.source_text.spec_bytes().len() <= u32::MAX,
        kind == JsCommentKind::Line ==> start + 2 <= source_text.spec_bytes().len() && is_char_boundary(
            source_text.spec_bytes(),
            start + 2,
        ),
    ensures
        r.kind@ == comment_kind_name(kind),
        r.value@ == decode_utf8(comment_text(source_text.spec_bytes(), kind, start as int, end as int)),
        r.start == utf16_offset(offsets.source_text@, start as int),
        r.end == utf16_offset(
            offsets.source_text@,
            comment_end(source_text.spec_bytes(), kind, start as int, end as int),
        ),
        r.range == (r.start, r.end),
{
    let data = comment_data(source_text, kind, start, end);
    let kind_name = match kind {
        JsCommentKind::Line => String::from_str("Line"),
        JsCommentKind::Block => String::from_str("Block"),
    };
    let value = String::from_str(data.value);
    let a = offsets.offset(data.start);
    let b = offsets.offset(data.end);
    NativeComment { kind: kind_name, value, start: a, end: b, range: (a, b) }
}

/// The record of `error` as `toolkit::native_diagnostic` makes it, with
/// its start and end turned into UTF-16 offsets of the source; `None` where
/// the first label ends past `u32::MAX`.
pub fn native_diagnostic(offsets: &SourceOffsets, error: &oxc_diagnostics::OxcDiagnostic) -> (r: Option<
    NativeDiagnostic,
>)
    requires
        offsets.source_text.spec_bytes().len() <= u32::MAX,
    ensures
        ({
            let (message, labels) = diagnostic_parts_of(*error);
            let t = offsets.source_text@;
            &&& r is Some <==> (labels.len() == 0 || labels[0].0 + labels[0].1 <= u32::MAX)
            &&& r matches Some(d) ==> {
                &&& d.message@ == message
                &&& if labels.len() == 0 {
                    d.start == utf16_offset(t, 0) && d.end == utf16_offset(t, 0)
                } else {
                    d.start == utf16_offset(t, labels[0].0 as int) && d.end == utf16_offset(
                        t,
                        labels[0].0 + labels[0].1,
                    )
                }
            }
        }),
{
    match crate::toolkit::native_diagnostic(error) {
        None => None,
        Some(d) => {
            let start = offsets.offset(d.start);
            let end = offsets.offset(d.end);
            Some(NativeDiagnostic { message: d.message, start, end })
        },
    }
}

} // verus!
