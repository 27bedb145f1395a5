//! How the parameters of a `v-for` alias or a `v-slot` value are wrapped
//! so that the JavaScript parser reads them as the parameters of an arrow
//! function: `(alias)=>0` when the text already stands in parentheses,
//! `((alias)=>0)` otherwise.
use vstd::prelude::*;
use vstd::string::StringSliceAdditionalSpecFns;
use vstd::utf8::*;

use crate::span::Span;
use crate::text::{str_slice, str_trim, trim_chars};

verus! {

broadcast use vstd::string::group_string_axioms, vstd::utf8::encode_utf8_decode_utf8;

/// The wrapping chosen for a parameter text.
pub enum ParamsWrap {
    /// The text is empty: there are no parameters.
    NoParams,
    /// Put the first text before and the second after the parameters.
    Wrap(&'static str, &'static str),
    /// The wrapping would start before the beginning of the source.
    OutOfRange,
}

/// The bytes of `s[span]` with Unicode whitespace trimmed at both ends.
pub open spec fn trimmed_bytes(s: Seq<u8>, span: Span) -> Seq<u8> {
    encode_utf8(trim_chars(decode_utf8(s.subrange(span.start as int, span.end as int))))
}

/// The text starts with `(` and ends with `)`.
pub open spec fn in_parens(t: Seq<u8>) -> bool {
    t.len() >= 1 && t[0] == 0x28 && t[t.len() - 1] == 0x29
}

/// The wrapping for a non-empty parameter text `t` at `start`: `(` and
/// `close` when it stands in parentheses (one byte is needed before it),
/// `((` and `)=>0)` otherwise (two bytes are needed).
pub open spec fn wrap_is(r: ParamsWrap, t: Seq<u8>, start: int, close: Seq<char>) -> bool {
    if in_parens(t) {
        if start < 1 {
            r is OutOfRange
        } else {
            r matches ParamsWrap::Wrap(a, b) && a@ == "("@ && b@ == close
        }
    } else {
        if start < 2 {
            r is OutOfRange
        } else {
            r matches ParamsWrap::Wrap(a, b) && a@ == "(("@ && b@ == ")=>0)"@
        }
    }
}

/// Whether the trimmed text of `span` stands in parentheses, and whether
/// it is empty.
fn trimmed_shape(source: &str, span: Span) -> (r: (bool, bool))
    requires
        span.start <= span.end <= source.spec_bytes().len(),
        is_char_boundary(source.spec_bytes(), span.start as int),
        is_char_boundary(source.spec_bytes(), span.end as int),
    ensures
        r.0 == in_parens(trimmed_bytes(source.spec_bytes(), span)),
        r.1 == (trimmed_bytes(source.spec_bytes(), span).len() == 0),
{
    let raw = str_slice(source, span.start as usize, span.end as usize);
    let t = str_trim(raw);
    let b = t.as_bytes();
    let n = b.len();
    (n >= 1 && b[0] == 0x28 && b[n - 1] == 0x29, n == 0)
}

/// The wrapping of the alias of a `v-for` (the text of `alias`, trimmed):
/// `(` and `)=>0)` when it stands in parentheses, `((` and `)=>0)`
/// otherwise; out of range where the wrapping would start before the
/// source.
pub fn v_for_alias_wrap(source: &str, alias: Span) -> (r: ParamsWrap)
    requires
        alias.start <= alias.end <= source.spec_bytes().len(),
        is_char_boundary(source.spec_bytes(), alias.start as int),
        is_char_boundary(source.spec_bytes(), alias.end as int),
    ensures
        wrap_is(r, trimmed_bytes(source.spec_bytes(), alias), alias.start as int, ")=>0)"@),
{
    let (parens, _) = trimmed_shape(source, alias);
    if parens {
        if alias.start < 1 {
            ParamsWrap::OutOfRange
        } else {
            ParamsWrap::Wrap("(", ")=>0)")
        }
    } else if alias.start < 2 {
        ParamsWrap::OutOfRange
    } else {
        ParamsWrap::Wrap("((", ")=>0)")
    }
}

/// The wrapping of a `v-slot` value: no parameters when its trimmed text is
/// empty, else `(` and `=>0)` when it stands in parentheses, `((` and
/// `)=>0)` otherwise; out of range where the wrapping would start before
/// the source.
pub fn v_slot_params_wrap(source: &str, value: Span) -> (r: ParamsWrap)
    requires
        value.start <= value.end <= source.spec_bytes().len(),
        is_char_boundary(source.spec_bytes(), value.start as int),
        is_char_boundary(source.spec_bytes(), value.end as int),
    ensures
        trimmed_bytes(source.spec_bytes(), value).len() == 0 ==> r is NoParams,
        trimmed_bytes(source.spec_bytes(), value).len() != 0 ==> wrap_is(
            r,
            trimmed_bytes(source.spec_bytes(), value),
            value.start as int,
            "=>0)"@,
        ),
{
    let (parens, empty) = trimmed_shape(source, value);
    if empty {
        ParamsWrap::NoParams
    } else if parens {
        if value.start < 1 {
            ParamsWrap::OutOfRange
        } else {
            ParamsWrap::Wrap("(", "=>0)")
        }
    } else if value.start < 2 {
        ParamsWrap::OutOfRange
    } else {
        ParamsWrap::Wrap("((", ")=>0)")
    }
}

} // verus!
