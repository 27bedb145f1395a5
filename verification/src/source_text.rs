//! Byte offsets of the component source turned into the UTF-16 offsets
//! that JavaScript counts in.
use vstd::prelude::*;
use vstd::string::StringSliceAdditionalSpecFns;

use crate::span::Span;

verus! {

/// Bytes of `c` in UTF-8.
pub open spec fn utf8_width(c: char) -> int {
    if (c as u32) < 0x80 {
        1
    } else if (c as u32) < 0x800 {
        2
    } else if (c as u32) < 0x10000 {
        3
    } else {
        4
    }
}

/// Units of `c` in UTF-16.
pub open spec fn utf16_width(c: char) -> int {
    if (c as u32) < 0x10000 {
        1
    } else {
        2
    }
}

/// The UTF-16 offset of the byte offset `o` into the text `cs`: every
/// character that ends at or before `o` counts its UTF-16 units instead of
/// its bytes; the bytes after the last such character count one each.
pub open spec fn utf16_offset(cs: Seq<char>, o: int) -> int
    decreases cs.len(),
{
    if cs.len() == 0 || o < utf8_width(cs[0]) {
        o
    } else {
        utf16_width(cs[0]) + utf16_offset(cs.drop_first(), o - utf8_width(cs[0]))
    }
}

/// `oxc_ast_visit::utf8_to_utf16::Utf8ToUtf16`: builds the conversion
/// table of `source_text`, then converts `offset` with the table's
/// converter (there is none for ASCII text, and the offset stays).
///
/// The table records, at the end of each character of two or more bytes,
/// how far the UTF-16 count has fallen behind the byte count (one for a
/// two-byte character, two for a three- or four-byte one), and the
/// converter subtracts the amount recorded at the last such end at or
/// before the offset: this is `utf16_offset`. The table stores `u32`
/// offsets, so the text must fit them.
#[verifier::external_body]
fn utf16_offset_of(source_text: &str, offset: u32) -> (r: u32)
    requires
        source_text.spec_bytes().len() <= u32::MAX,
    ensures
        r == utf16_offset(source_text@, offset as int),
{
    let table = oxc_ast_visit::utf8_to_utf16::Utf8ToUtf16::new(source_text);
    let mut offset = offset;
    if let Some(mut converter) = table.converter() {
        converter.convert_offset(&mut offset);
    }
    offset
}

/// Converts byte offsets of one source text into UTF-16 offsets.
pub struct SourceOffsets<'a> {
    pub source_text: &'a str,
}

impl<'a> SourceOffsets<'a> {
    /// The converter for `source_text`.
    pub fn new(source_text: &'a str) -> (r: Self)
        ensures
            r.source_text == source_text,
    {
        SourceOffsets { source_text }
    }

    /// The UTF-16 offset of the byte offset `offset`.
    pub fn offset(&self, offset: u32) -> (r: u32)
        requires
            self.source_text.spec_bytes().len() <= u32::MAX,
        ensures
            r == utf16_offset(self.source_text@, offset as int),
    {
        utf16_offset_of(self.source_text, offset)
    }

    /// The UTF-16 offsets of both ends of `span`.
    pub fn range(&self, span: Span) -> (r: Vec<u32>)
        requires
            self.source_text.spec_bytes().len() <= u32::MAX,
        ensures
            r@.len() == 2,
            r@[0] == utf16_offset(self.source_text@, span.start as int),
            r@[1] == utf16_offset(self.source_text@, span.end as int),
    {
        let mut r = Vec::new();
        r.push(self.offset(span.start));
        r.push(self.offset(span.end));
        r
    }
}

/// Law: a text of ASCII characters alone counts the same in bytes and in
/// UTF-16 units.
pub proof fn ascii_offsets_are_unchanged(cs: Seq<char>, o: int)
    requires
        forall|i: int| 0 <= i < cs.len() ==> (#[trigger] cs[i] as u32) < 0x80,
    ensures
        utf16_offset(cs, o) == o,
    decreases cs.len(),
{
    if cs.len() > 0 {
        assert forall|i: int| 0 <= i < cs.drop_first().len() implies (#[trigger] cs.drop_first()[i] as u32)
            < 0x80 by {
            assert(cs.drop_first()[i] == cs[i + 1]);
        }
        ascii_offsets_are_unchanged(cs.drop_first(), o - 1);
        assert((cs[0] as u32) < 0x80);
    }
}

/// Law: a UTF-16 offset lies between 0 and the byte offset it comes from.
pub proof fn utf16_offset_is_at_most_byte_offset(cs: Seq<char>, o: int)
    requires
        0 <= o,
    ensures
        0 <= utf16_offset(cs, o) <= o,
    decreases cs.len(),
{
    if cs.len() > 0 && o >= utf8_width(cs[0]) {
        utf16_offset_is_at_most_byte_offset(cs.drop_first(), o - utf8_width(cs[0]));
    }
}

} // verus!
