//! Top-level block splitter for single-file components.
//!
//! Walks the source from offset 0 and cuts it into top-level elements
//! (`<template>`, `<script>`, `<style>` or any custom block) and the text
//! between them. A block's body is opaque here: only its start tag and the
//! matching end tag are located.
use vstd::prelude::*;
use vstd::string::StringSliceAdditionalSpecFns;
use vstd::string::StringExecFns;
use vstd::utf8::*;

use crate::span::Span;
use crate::text::{
    ascii_adjacent, eq_ignore_case_at, is_alnum, is_alpha, is_ascii_alphabetic, is_ascii_alphanumeric,
    seq_eq_ignore_case, slice_between_ascii, str_trim, trim_chars,
};

verus! {

broadcast use vstd::string::group_string_axioms, vstd::utf8::encode_utf8_valid_utf8;

// ---------------------------------------------------------------------------
// Specification
// ---------------------------------------------------------------------------
pub open spec fn is_tag_name_start_spec(b: u8) -> bool {
    is_alpha(b)
}

pub open spec fn is_tag_name_part_spec(b: u8) -> bool {
    is_alnum(b) || b == 0x2d || b == 0x5f || b == 0x3a
}

/// A byte that may follow a tag name in a start or end tag marker.
pub open spec fn is_marker_delim(b: u8) -> bool {
    b == 0x3e || b == 0x2f || b == 0x20 || b == 0x09 || b == 0x0d || b == 0x0a
}

/// End of the run of tag-name bytes that starts at `j`.
pub open spec fn name_end(s: Seq<u8>, j: int) -> int
    decreases s.len() - j,
{
    if 0 <= j < s.len() && is_tag_name_part_spec(s[j]) {
        name_end(s, j + 1)
    } else {
        j
    }
}

/// First index at or after `from` that holds `b`, or `s.len()`.
pub open spec fn find_byte_from(s: Seq<u8>, from: int, b: u8) -> int
    decreases s.len() - from,
{
    if from < 0 || from >= s.len() {
        s.len() as int
    } else if s[from] == b {
        from
    } else {
        find_byte_from(s, from + 1, b)
    }
}

/// Index just past the `>` that ends a start tag whose name ends before
/// `pos`, and whether the tag was self-closing (`/>`). Quoted attribute
/// values are skipped, so a `>` inside quotes does not end the tag.
pub open spec fn start_tag_end(s: Seq<u8>, pos: int) -> Option<(int, bool)>
    decreases s.len() - pos,
{
    if pos < 0 || pos >= s.len() {
        None
    } else if s[pos] == 0x3e {
        Some((pos + 1, false))
    } else if s[pos] == 0x2f && pos + 1 < s.len() && s[pos + 1] == 0x3e {
        Some((pos + 2, true))
    } else if s[pos] == 0x22 || s[pos] == 0x27 {
        let q = find_byte_from(s, pos + 1, s[pos]);
        proof {
            lemma_find_byte_from(s, pos + 1, s[pos]);
        }
        if q < s.len() {
            start_tag_end(s, q + 1)
        } else {
            None
        }
    } else {
        start_tag_end(s, pos + 1)
    }
}

/// `marker` (compared without regard to ASCII case) sits at `k` and is
/// followed by a delimiter or by the end of the source.
pub open spec fn marker_at(s: Seq<u8>, k: int, marker: Seq<u8>) -> bool {
    &&& 0 <= k
    &&& k + marker.len() <= s.len()
    &&& seq_eq_ignore_case(s.subrange(k, k + marker.len()), marker)
    &&& (k + marker.len() == s.len() || is_marker_delim(s[k + marker.len()]))
}

pub open spec fn close_marker(name: Seq<u8>) -> Seq<u8> {
    seq![0x3cu8, 0x2fu8] + name
}

pub open spec fn open_marker(name: Seq<u8>) -> Seq<u8> {
    seq![0x3cu8] + name
}

/// How the body of a block ends.
pub enum BodyEnd {
    /// The matching end tag starts at `content_end` and its `>` ends just
    /// before `close_end`.
    Closed { content_end: int, close_end: int },
    /// The matching end tag was found but no `>` follows it.
    MissingGt,
    /// The source ended before the matching end tag.
    Unclosed,
}

/// Scan for the end tag matching `name` from `k`, with `depth` open
/// elements of the same name (nested ones included).
pub open spec fn body_end(s: Seq<u8>, name: Seq<u8>, k: int, depth: int) -> BodyEnd
    decreases s.len() - k,
{
    if k < 0 || k >= s.len() {
        BodyEnd::Unclosed
    } else if s[k] == 0x3c && marker_at(s, k, close_marker(name)) {
        if depth - 1 == 0 {
            let m = find_byte_from(s, k + close_marker(name).len(), 0x3e);
            if m >= s.len() {
                BodyEnd::MissingGt
            } else {
                BodyEnd::Closed { content_end: k, close_end: m + 1 }
            }
        } else {
            body_end(s, name, k + 1, depth - 1)
        }
    } else if s[k] == 0x3c && marker_at(s, k, open_marker(name)) {
        body_end(s, name, k + 1, depth + 1)
    } else {
        body_end(s, name, k + 1, depth)
    }
}

/// A top-level block, as byte ranges `(start, end)` of the source.
pub struct BlockModel {
    pub tag: (int, int),
    pub range: (int, int),
    pub start_tag: (int, int),
    pub end_tag: Option<(int, int)>,
    pub content: (int, int),
    /// The attribute text of the start tag, before whitespace trimming.
    pub attrs: (int, int),
    pub self_closing: bool,
}

/// A failure of the splitter.
pub enum SplitErrorModel {
    /// A start tag that begins at `offset` never reaches its `>`.
    UnterminatedStartTag { offset: int },
    /// The block named by `name` (opened at `start`, start tag ending at
    /// `end`) has no end tag, or one with no closing `>`.
    MissingEndTag { name: (int, int), start: int, end: int },
}

/// A piece of the top level: text between blocks, or a block.
pub enum Piece {
    Text(int, int),
    Block(BlockModel),
}

pub open spec fn piece_range(p: Piece) -> (int, int) {
    match p {
        Piece::Text(a, b) => (a, b),
        Piece::Block(b) => b.range,
    }
}

/// The block that starts with the `<` at `i`.
pub open spec fn block_at(s: Seq<u8>, i: int) -> Result<BlockModel, SplitErrorModel> {
    let j = name_end(s, i + 1);
    match start_tag_end(s, j) {
        None => Err(SplitErrorModel::UnterminatedStartTag { offset: i }),
        Some((ste, sc)) => {
            let attrs = (j, if sc {
                ste - 2
            } else {
                ste - 1
            });
            if sc {
                Ok(
                    BlockModel {
                        tag: (i + 1, j),
                        range: (i, ste),
                        start_tag: (i, ste),
                        end_tag: None,
                        content: (ste, ste),
                        attrs,
                        self_closing: true,
                    },
                )
            } else {
                match body_end(s, s.subrange(i + 1, j), ste, 1) {
                    BodyEnd::Closed { content_end, close_end } => Ok(
                        BlockModel {
                            tag: (i + 1, j),
                            range: (i, close_end),
                            start_tag: (i, ste),
                            end_tag: Some((content_end, close_end)),
                            content: (ste, content_end),
                            attrs,
                            self_closing: false,
                        },
                    ),
                    BodyEnd::MissingGt => Err(
                        SplitErrorModel::MissingEndTag { name: (i + 1, j), start: i, end: ste },
                    ),
                    BodyEnd::Unclosed => Err(
                        SplitErrorModel::MissingEndTag { name: (i + 1, j), start: i, end: ste },
                    ),
                }
            }
        },
    }
}

/// `<` followed by an ASCII letter opens a top-level block.
pub open spec fn opens_block(s: Seq<u8>, i: int) -> bool {
    0 <= i && i + 1 < s.len() && s[i] == 0x3c && is_tag_name_start_spec(s[i + 1])
}

/// The pieces of `s` from index `i`, where pending top-level text started
/// at `ts`.
pub open spec fn pieces_from(s: Seq<u8>, i: int, ts: int) -> Result<Seq<Piece>, SplitErrorModel>
    decreases s.len() - i,
{
    if i < 0 || i >= s.len() {
        Ok(
            if ts < s.len() {
                seq![Piece::Text(ts, s.len() as int)]
            } else {
                seq![]
            },
        )
    } else if opens_block(s, i) {
        let pre = if i > ts {
            seq![Piece::Text(ts, i)]
        } else {
            seq![]
        };
        match block_at(s, i) {
            Err(e) => Err(e),
            Ok(b) => {
                if b.range.1 <= i || b.range.1 > s.len() {
                    // Never taken: a block always ends after its `<`.
                    Ok(seq![])
                } else {
                    match pieces_from(s, b.range.1, b.range.1) {
                        Err(e) => Err(e),
                        Ok(rest) => Ok(pre + seq![Piece::Block(b)] + rest),
                    }
                }
            },
        }
    } else {
        pieces_from(s, i + 1, ts)
    }
}

/// The whole layout of `s`.
pub open spec fn split_spec(s: Seq<u8>) -> Result<Seq<Piece>, SplitErrorModel> {
    pieces_from(s, 0, 0)
}

pub open spec fn blocks_of(p: Seq<Piece>) -> Seq<BlockModel>
    decreases p.len(),
{
    if p.len() == 0 {
        seq![]
    } else {
        match p.last() {
            Piece::Block(b) => blocks_of(p.drop_last()).push(b),
            Piece::Text(_, _) => blocks_of(p.drop_last()),
        }
    }
}

pub open spec fn texts_of(p: Seq<Piece>) -> Seq<(int, int)>
    decreases p.len(),
{
    if p.len() == 0 {
        seq![]
    } else {
        match p.last() {
            Piece::Text(a, b) => texts_of(p.drop_last()).push((a, b)),
            Piece::Block(_) => texts_of(p.drop_last()),
        }
    }
}

/// The pieces, in order, cover `[a, b)` with no gap and no overlap, and
/// none of them is empty.
pub open spec fn tiles(p: Seq<Piece>, a: int, b: int) -> bool
    decreases p.len(),
{
    if p.len() == 0 {
        a == b
    } else {
        &&& piece_range(p[0]).0 == a
        &&& piece_range(p[0]).0 < piece_range(p[0]).1
        &&& tiles(p.drop_first(), piece_range(p[0]).1, b)
    }
}


pub open spec fn prepend(
    p: Seq<Piece>,
    r: Result<Seq<Piece>, SplitErrorModel>,
) -> Result<Seq<Piece>, SplitErrorModel> {
    match r {
        Ok(q) => Ok(p + q),
        Err(e) => Err(e),
    }
}

// ---------------------------------------------------------------------------
// Lemmas on the scanning functions
// ---------------------------------------------------------------------------
pub proof fn lemma_name_end(s: Seq<u8>, j: int)
    requires
        0 <= j <= s.len(),
    ensures
        j <= name_end(s, j) <= s.len(),
        forall|t: int| j <= t < name_end(s, j) ==> is_tag_name_part_spec(#[trigger] s[t]),
        name_end(s, j) < s.len() ==> !is_tag_name_part_spec(s[name_end(s, j)]),
    decreases s.len() - j,
{
    if j < s.len() && is_tag_name_part_spec(s[j]) {
        lemma_name_end(s, j + 1);
    }
}

pub proof fn lemma_find_byte_from(s: Seq<u8>, from: int, b: u8)
    requires
        0 <= from <= s.len(),
    ensures
        from <= find_byte_from(s, from, b) <= s.len(),
        find_byte_from(s, from, b) < s.len() ==> s[find_byte_from(s, from, b)] == b,
        forall|t: int| from <= t < find_byte_from(s, from, b) ==> #[trigger] s[t] != b,
    decreases s.len() - from,
{
    if from < s.len() && s[from] != b {
        lemma_find_byte_from(s, from + 1, b);
    }
}

pub proof fn lemma_start_tag_end(s: Seq<u8>, pos: int)
    requires
        0 <= pos,
    ensures
        start_tag_end(s, pos) matches Some((e, sc)) ==> {
            &&& pos < e <= s.len()
            &&& s[e - 1] == 0x3e
            &&& sc ==> e - 2 >= pos && s[e - 2] == 0x2f
            &&& !sc ==> e - 1 >= pos
        },
    decreases s.len() - pos,
{
    if pos < s.len() {
        if s[pos] == 0x3e {
        } else if s[pos] == 0x2f && pos + 1 < s.len() && s[pos + 1] == 0x3e {
        } else if s[pos] == 0x22 || s[pos] == 0x27 {
            lemma_find_byte_from(s, pos + 1, s[pos]);
            let q = find_byte_from(s, pos + 1, s[pos]);
            if q < s.len() {
                lemma_start_tag_end(s, q + 1);
            }
        } else {
            lemma_start_tag_end(s, pos + 1);
        }
    }
}

pub proof fn lemma_body_end(s: Seq<u8>, name: Seq<u8>, k: int, depth: int)
    requires
        0 <= k,
    ensures
        body_end(s, name, k, depth) matches BodyEnd::Closed { content_end, close_end } ==> {
            &&& k <= content_end
            &&& content_end + 2 <= close_end - 1
            &&& close_end <= s.len()
            &&& s[content_end] == 0x3c
            &&& s[close_end - 1] == 0x3e
            &&& marker_at(s, content_end, close_marker(name))
        },
    decreases s.len() - k,
{
    if k < s.len() {
        if s[k] == 0x3c && marker_at(s, k, close_marker(name)) {
            if depth - 1 == 0 {
                lemma_find_byte_from(s, k + close_marker(name).len(), 0x3e);
            } else {
                lemma_body_end(s, name, k + 1, depth - 1);
            }
        } else if s[k] == 0x3c && marker_at(s, k, open_marker(name)) {
            lemma_body_end(s, name, k + 1, depth + 1);
        } else {
            lemma_body_end(s, name, k + 1, depth);
        }
    }
}

/// A block that opens at `i` ends after `i` and inside the source, and its
/// ranges nest as a start tag, a body and an end tag.
pub proof fn lemma_block_at(s: Seq<u8>, i: int)
    requires
        opens_block(s, i),
    ensures
        block_at(s, i) matches Ok(b) ==> {
            &&& b.range.0 == i
            &&& i < b.range.1 <= s.len()
            &&& b.tag.0 == i + 1
            &&& i + 1 < b.tag.1 <= b.attrs.0 <= b.attrs.1 < b.start_tag.1
            &&& b.start_tag.0 == i
            &&& b.start_tag.1 == b.content.0
            &&& b.content.0 <= b.content.1 <= b.range.1
            &&& s[b.start_tag.1 - 1] == 0x3e
            &&& s[b.attrs.1] < 0x80
            &&& s[b.tag.1 - 1] < 0x80
            &&& (b.range.1 == s.len() || s[b.range.1 - 1] == 0x3e)
            &&& (b.content.1 == s.len() || s[b.content.1] < 0x80 || s[b.content.1 - 1] == 0x3e)
            &&& b.self_closing ==> b.end_tag is None && b.range.1 == b.start_tag.1
            &&& b.end_tag matches Some(et) ==> et.0 == b.content.1 && et.1 == b.range.1 && et.0
                < et.1
            &&& block_shape(s, b)
        },
{
    lemma_name_end(s, i + 1);
    let j = name_end(s, i + 1);
    assert(is_tag_name_part_spec(s[i + 1]));
    assert(j > i + 1);
    assert(is_tag_name_part_spec(s[j - 1]));
    lemma_start_tag_end(s, j);
    if let Some((ste, sc)) = start_tag_end(s, j) {
        if !sc {
            lemma_body_end(s, s.subrange(i + 1, j), ste, 1);
        }
    }
}

pub proof fn lemma_blocks_of_add(p: Seq<Piece>, q: Seq<Piece>)
    ensures
        blocks_of(p + q) == blocks_of(p) + blocks_of(q),
        texts_of(p + q) == texts_of(p) + texts_of(q),
    decreases q.len(),
{
    if q.len() == 0 {
        assert(p + q =~= p);
    } else {
        lemma_blocks_of_add(p, q.drop_last());
        assert((p + q).drop_last() =~= p + q.drop_last());
        assert((p + q).last() == q.last());
    }
}

pub proof fn lemma_tiles_add(p: Seq<Piece>, q: Seq<Piece>, a: int, b: int, c: int)
    requires
        tiles(p, a, b),
        tiles(q, b, c),
    ensures
        tiles(p + q, a, c),
    decreases p.len(),
{
    if p.len() == 0 {
        assert(p + q =~= q);
    } else {
        lemma_tiles_add(p.drop_first(), q, piece_range(p[0]).1, b, c);
        assert((p + q).drop_first() =~= p.drop_first() + q);
        assert((p + q)[0] == p[0]);
    }
}

/// The pieces found from `i`, with top-level text pending from `ts`, cover
/// `[ts, len)` exactly.
pub proof fn lemma_pieces_tile(s: Seq<u8>, i: int, ts: int)
    requires
        0 <= ts <= i,
        ts <= s.len(),
    ensures
        pieces_from(s, i, ts) matches Ok(p) ==> tiles(p, ts, s.len() as int),
    decreases s.len() - i,
{
    if i < 0 || i >= s.len() {
        if ts < s.len() {
            let p = seq![Piece::Text(ts, s.len() as int)];
            assert(p.drop_first() =~= seq![]);
            reveal_with_fuel(tiles, 2);
        }
    } else if opens_block(s, i) {
        lemma_block_at(s, i);
        if let Ok(b) = block_at(s, i) {
            lemma_pieces_tile(s, b.range.1, b.range.1);
            if let Ok(rest) = pieces_from(s, b.range.1, b.range.1) {
                let blk = seq![Piece::Block(b)];
                assert(blk.drop_first() =~= seq![]);
                reveal_with_fuel(tiles, 2);
                assert(tiles(blk, i, b.range.1));
                lemma_tiles_add(blk, rest, i, b.range.1, s.len() as int);
                if i > ts {
                    let pre = seq![Piece::Text(ts, i)];
                    assert(pre.drop_first() =~= seq![]);
                    reveal_with_fuel(tiles, 2);
                    assert(tiles(pre, ts, i));
                    lemma_tiles_add(pre, blk + rest, ts, i, s.len() as int);
                    assert(pre + seq![Piece::Block(b)] + rest =~= pre + (blk + rest));
                } else {
                    assert(seq![] + seq![Piece::Block(b)] + rest =~= blk + rest);
                }
            }
        }
    } else {
        lemma_pieces_tile(s, i + 1, ts);
    }
}

/// Law: the blocks and the text between them, in order, cover the whole
/// source with no gap, no overlap and no empty piece.
pub proof fn split_tiles_source(s: Seq<u8>)
    ensures
        split_spec(s) matches Ok(p) ==> tiles(p, 0, s.len() as int),
{
    lemma_pieces_tile(s, 0, 0);
}


/// The shape of a block: its start tag runs from its `<` to the `>` that
/// the start-tag scan from the end of its name finds, and its attributes
/// lie between the name and that `>` (or `/>`); its
/// content from there to its end tag; a self-closing block (`/>`) is only
/// its start tag; any other block ends with an end tag that starts with
/// `</` and its name (in any ASCII case) and ends with `>`.
pub open spec fn block_shape(s: Seq<u8>, b: BlockModel) -> bool {
    &&& b.start_tag.0 == b.range.0
    &&& start_tag_end(s, b.tag.1) == Some((b.start_tag.1, b.self_closing))
    &&& b.attrs == (b.tag.1, if b.self_closing {
        b.start_tag.1 - 2
    } else {
        b.start_tag.1 - 1
    })
    &&& b.start_tag.1 == b.content.0 <= b.content.1 <= b.range.1 <= s.len()
    &&& s[b.start_tag.1 - 1] == 0x3e
    &&& b.self_closing ==> {
        &&& b.range == b.start_tag
        &&& b.end_tag is None
        &&& b.content == (b.start_tag.1, b.start_tag.1)
        &&& s[b.start_tag.1 - 2] == 0x2f
    }
    &&& !b.self_closing ==> (b.end_tag matches Some(et) && {
        &&& et.0 == b.content.1
        &&& et.1 == b.range.1
        &&& marker_at(s, et.0, close_marker(s.subrange(b.tag.0, b.tag.1)))
        &&& s[et.1 - 1] == 0x3e
    })
}

/// No index of a text piece opens a block.
pub open spec fn texts_hold_no_opener(s: Seq<u8>, p: Seq<Piece>) -> bool {
    forall|t: int, k: int|
        0 <= t < p.len() && (#[trigger] p[t]) is Text && p[t]->Text_0 <= k < p[t]->Text_1
            ==> !#[trigger] opens_block(s, k)
}

/// Every block piece starts at a `<` and a letter, and its tag is the
/// longest name that follows the `<`.
pub open spec fn blocks_start_at_openers(s: Seq<u8>, p: Seq<Piece>) -> bool {
    forall|t: int|
        0 <= t < p.len() && (#[trigger] p[t]) is Block ==> {
            let b = p[t]->Block_0;
            &&& opens_block(s, b.range.0)
            &&& b.tag == (b.range.0 + 1, name_end(s, b.range.0 + 1))
            &&& block_shape(s, b)
        }
}

/// No two text pieces follow each other.
pub open spec fn no_adjacent_texts(p: Seq<Piece>) -> bool {
    forall|t: int| 0 <= t < p.len() - 1 ==> !((#[trigger] p[t]) is Text && p[t + 1] is Text)
}

proof fn lemma_shape_add(s: Seq<u8>, a: Seq<Piece>, b: Seq<Piece>)
    requires
        texts_hold_no_opener(s, a),
        texts_hold_no_opener(s, b),
        blocks_start_at_openers(s, a),
        blocks_start_at_openers(s, b),
        no_adjacent_texts(a),
        no_adjacent_texts(b),
        a.len() > 0 && b.len() > 0 ==> !(a.last() is Text && b[0] is Text),
    ensures
        texts_hold_no_opener(s, a + b),
        blocks_start_at_openers(s, a + b),
        no_adjacent_texts(a + b),
{
    let c = a + b;
    assert forall|t: int, k: int|
        0 <= t < c.len() && (#[trigger] c[t]) is Text && c[t]->Text_0 <= k < c[t]->Text_1 implies !#[trigger] opens_block(s, k) by {
        if t < a.len() {
            assert(c[t] == a[t]);
        } else {
            assert(c[t] == b[t - a.len()]);
        }
    }
    assert forall|t: int| 0 <= t < c.len() && (#[trigger] c[t]) is Block implies {
        let bl = c[t]->Block_0;
        &&& opens_block(s, bl.range.0)
        &&& bl.tag == (bl.range.0 + 1, name_end(s, bl.range.0 + 1))
        &&& block_shape(s, bl)
    } by {
        if t < a.len() {
            assert(c[t] == a[t]);
        } else {
            assert(c[t] == b[t - a.len()]);
        }
    }
    assert forall|t: int| 0 <= t < c.len() - 1 implies !((#[trigger] c[t]) is Text && c[t + 1] is Text) by {
        if t + 1 < a.len() {
            assert(c[t] == a[t] && c[t + 1] == a[t + 1]);
        } else if t >= a.len() {
            assert(c[t] == b[t - a.len()] && c[t + 1] == b[t + 1 - a.len()]);
        } else {
            assert(c[t] == a.last() && c[t + 1] == b[0]);
        }
    }
}

proof fn lemma_pieces_shape(s: Seq<u8>, i: int, ts: int)
    requires
        0 <= ts <= i,
        forall|k: int| ts <= k < i ==> !#[trigger] opens_block(s, k),
    ensures
        pieces_from(s, i, ts) matches Ok(p) ==> {
            &&& texts_hold_no_opener(s, p)
            &&& blocks_start_at_openers(s, p)
            &&& no_adjacent_texts(p)
            &&& (p.len() > 0 && p[0] is Text ==> p[0]->Text_0 == ts)
        },
    decreases s.len() - i,
{
    if i < 0 || i >= s.len() {
        if ts < s.len() {
            let p = seq![Piece::Text(ts, s.len() as int)];
            assert forall|t: int, k: int|
                0 <= t < p.len() && (#[trigger] p[t]) is Text && p[t]->Text_0 <= k < p[t]->Text_1 implies !#[trigger] opens_block(s, k) by {
                assert(p[t] == Piece::Text(ts, s.len() as int));
                if k >= i {
                    assert(!opens_block(s, k));
                }
            }
        }
    } else if opens_block(s, i) {
        let pre = if i > ts {
            seq![Piece::Text(ts, i)]
        } else {
            seq![]
        };
        match block_at(s, i) {
            Err(_) => {},
            Ok(b) => {
                if !(b.range.1 <= i || b.range.1 > s.len()) {
                    lemma_pieces_shape(s, b.range.1, b.range.1);
                    match pieces_from(s, b.range.1, b.range.1) {
                        Err(_) => {},
                        Ok(rest) => {
                            let blk = seq![Piece::Block(b)];
                            lemma_block_at(s, i);
                            assert(b.range.0 == i && b.tag == (i + 1, name_end(s, i + 1)));
                            assert(texts_hold_no_opener(s, pre)) by {
                                assert forall|t: int, k: int|
                                    0 <= t < pre.len() && (#[trigger] pre[t]) is Text && pre[t]->Text_0 <= k
                                        < pre[t]->Text_1 implies !#[trigger] opens_block(s, k) by {
                                    assert(pre[t] == Piece::Text(ts, i));
                                }
                            }
                            assert(blocks_start_at_openers(s, blk)) by {
                                assert forall|t: int| 0 <= t < blk.len() && (#[trigger] blk[t]) is Block implies {
                                    let bl = blk[t]->Block_0;
                                    &&& opens_block(s, bl.range.0)
                                    &&& bl.tag == (bl.range.0 + 1, name_end(s, bl.range.0 + 1))
                                    &&& block_shape(s, bl)
                                } by {
                                    assert(blk[t] == Piece::Block(b));
                                }
                            }
                            assert(texts_hold_no_opener(s, blk)) by {
                                assert forall|t: int, k: int|
                                    0 <= t < blk.len() && (#[trigger] blk[t]) is Text && blk[t]->Text_0 <= k
                                        < blk[t]->Text_1 implies !#[trigger] opens_block(s, k) by {
                                    assert(blk[t] == Piece::Block(b));
                                }
                            }
                            assert(blocks_start_at_openers(s, pre)) by {
                                assert forall|t: int| 0 <= t < pre.len() && (#[trigger] pre[t]) is Block implies {
                                    let bl = pre[t]->Block_0;
                                    &&& opens_block(s, bl.range.0)
                                    &&& bl.tag == (bl.range.0 + 1, name_end(s, bl.range.0 + 1))
                                    &&& block_shape(s, bl)
                                } by {
                                    assert(pre[t] == Piece::Text(ts, i));
                                }
                            }
                            lemma_shape_add(s, pre, blk);
                            lemma_shape_add(s, pre + blk, rest);
                            let p = pre + blk + rest;
                            if p[0] is Text {
                                assert(p[0] == pre[0]);
                            }
                        },
                    }
                }
            },
        }
    } else {
        lemma_pieces_shape(s, i + 1, ts);
    }
}

/// Law: in the layout of a split, every block starts at a `<` followed by
/// a letter, is named by the longest tag name after it, and has the shape
/// of `block_shape` (so every block that is not self-closing has its end
/// tag); no text between blocks holds such a `<`; and no two pieces of text
/// follow each other.
pub proof fn split_blocks_start_at_every_opener(s: Seq<u8>)
    ensures
        split_spec(s) matches Ok(p) ==> texts_hold_no_opener(s, p) && blocks_start_at_openers(s, p)
            && no_adjacent_texts(p),
{
    lemma_pieces_shape(s, 0, 0);
}

/// The start-tag scan that begins at `p` stands at `k` outside every
/// quoted value: a quote at the scan position jumps past its closing
/// quote, any other byte moves on by one.
pub open spec fn visits(s: Seq<u8>, p: int, k: int) -> bool
    decreases k - p,
{
    if p < 0 || p > k || p >= s.len() {
        false
    } else if p == k {
        true
    } else if s[p] == 0x22 || s[p] == 0x27 {
        let q = find_byte_from(s, p + 1, s[p]);
        if q < s.len() && p < q + 1 <= k {
            visits(s, q + 1, k)
        } else {
            false
        }
    } else {
        visits(s, p + 1, k)
    }
}

/// `>` or `/>` stands at `k`.
pub open spec fn ends_tag_at(s: Seq<u8>, k: int) -> bool {
    s[k] == 0x3e || (s[k] == 0x2f && k + 1 < s.len() && s[k + 1] == 0x3e)
}

/// Just before a position that the scan from `p` reaches, the scan stood
/// too, or a quote closed.
proof fn lemma_visits_before(s: Seq<u8>, p: int, k: int)
    requires
        visits(s, p, k),
        p < k,
    ensures
        visits(s, p, k - 1) || s[k - 1] == 0x22 || s[k - 1] == 0x27,
    decreases k - p,
{
    if s[p] == 0x22 || s[p] == 0x27 {
        lemma_find_byte_from(s, p + 1, s[p]);
        let q = find_byte_from(s, p + 1, s[p]);
        if q + 1 < k {
            lemma_visits_before(s, q + 1, k);
        }
    } else if p + 1 < k {
        lemma_visits_before(s, p + 1, k);
    }
}

/// The scan from `p` stops at the first `>` or `/>` that it reaches
/// outside quotes.
proof fn lemma_start_tag_end_first(s: Seq<u8>, p: int)
    requires
        0 <= p,
    ensures
        start_tag_end(s, p) matches Some((e, sc)) ==> {
            let g = if sc {
                e - 2
            } else {
                e - 1
            };
            &&& p <= g
            &&& visits(s, p, g)
            &&& ends_tag_at(s, g)
            &&& forall|k: int| p <= k < g && #[trigger] visits(s, p, k) ==> !ends_tag_at(s, k)
        },
    decreases s.len() - p,
{
    lemma_start_tag_end(s, p);
    if p < s.len() {
        if s[p] == 0x3e {
        } else if s[p] == 0x2f && p + 1 < s.len() && s[p + 1] == 0x3e {
        } else if s[p] == 0x22 || s[p] == 0x27 {
            lemma_find_byte_from(s, p + 1, s[p]);
            let q = find_byte_from(s, p + 1, s[p]);
            if q < s.len() {
                lemma_start_tag_end_first(s, q + 1);
                lemma_start_tag_end(s, q + 1);
                if let Some((e, sc)) = start_tag_end(s, p) {
                    let g = if sc {
                        e - 2
                    } else {
                        e - 1
                    };
                    assert(visits(s, p, g));
                    assert forall|k: int| p <= k < g && #[trigger] visits(s, p, k) implies !ends_tag_at(s, k) by {
                        if k > q {
                            assert(visits(s, q + 1, k));
                        }
                    }
                }
            }
        } else {
            lemma_start_tag_end_first(s, p + 1);
            lemma_start_tag_end(s, p + 1);
            if let Some((e, sc)) = start_tag_end(s, p) {
                let g = if sc {
                    e - 2
                } else {
                    e - 1
                };
                assert(visits(s, p, g));
                assert forall|k: int| p <= k < g && #[trigger] visits(s, p, k) implies !ends_tag_at(s, k) by {
                    if k > p {
                        assert(visits(s, p + 1, k));
                    }
                }
            }
        }
    }
}

/// Law: the start tag of every block of a split ends at the first `>`
/// after the block's name that stands outside quoted values (`'...'` or
/// `"..."`), or at the first such `/>`; the block is self-closing exactly
/// when a `/` stands just before that `>`; and its attributes are what lies
/// between the name and that `>` or `/>` (trimmed when the layout is
/// built).
pub proof fn split_start_tags_end_at_first_unquoted_gt(s: Seq<u8>)
    ensures
        split_spec(s) matches Ok(p) ==> forall|t: int|
            0 <= t < p.len() && (#[trigger] p[t]) is Block ==> {
                let b = p[t]->Block_0;
                let n = b.tag.1;
                let e = b.start_tag.1;
                let g = if b.self_closing {
                    e - 2
                } else {
                    e - 1
                };
                &&& n <= g
                &&& s[e - 1] == 0x3e
                &&& visits(s, n, g)
                &&& forall|k: int| n <= k < g && #[trigger] visits(s, n, k) ==> !ends_tag_at(s, k)
                &&& b.self_closing == (s[e - 2] == 0x2f)
                &&& b.attrs == (n, g)
            },
{
    lemma_pieces_shape(s, 0, 0);
    if let Ok(p) = split_spec(s) {
        assert forall|t: int| 0 <= t < p.len() && (#[trigger] p[t]) is Block implies {
            let b = p[t]->Block_0;
            let n = b.tag.1;
            let e = b.start_tag.1;
            let g = if b.self_closing {
                e - 2
            } else {
                e - 1
            };
            &&& n <= g
            &&& s[e - 1] == 0x3e
            &&& visits(s, n, g)
            &&& forall|k: int| n <= k < g && #[trigger] visits(s, n, k) ==> !ends_tag_at(s, k)
            &&& b.self_closing == (s[e - 2] == 0x2f)
            &&& b.attrs == (n, g)
        } by {
            let b = p[t]->Block_0;
            let i = b.range.0;
            let n = b.tag.1;
            let e = b.start_tag.1;
            lemma_name_end(s, i + 1);
            assert(is_tag_name_part_spec(s[i + 1]));
            assert(n > i + 1);
            assert(is_tag_name_part_spec(s[n - 1]));
            lemma_start_tag_end_first(s, n);
            lemma_start_tag_end(s, n);
            if !b.self_closing && e - 2 >= n {
                lemma_visits_before(s, n, e - 1);
                if visits(s, n, e - 2) {
                    assert(!ends_tag_at(s, e - 2));
                }
            }
        }
    }
}

// ---------------------------------------------------------------------------
// Executable splitter
// ---------------------------------------------------------------------------
/// One top-level block of a component.
#[derive(Debug, Clone)]
pub struct SfcBlock<'a> {
    /// Tag name (`template`, `script`, `style`, or any custom name).
    pub tag: &'a str,
    /// The whole element: from its `<` to the `>` of the end tag, or to the
    /// end of a self-closing start tag.
    pub range: Span,
    /// The start tag (`<tag ...>` or `<tag .../>`).
    pub start_tag_range: Span,
    /// The end tag, if there is one.
    pub end_tag_range: Option<Span>,
    /// Between the `>` of the start tag and the `<` of the end tag; empty for
    /// a self-closing element.
    pub content_range: Span,
    /// The attribute text between the tag name and the `>` (or `/>`) of the
    /// start tag, without surrounding whitespace.
    pub raw_attributes: &'a str,
    /// The start tag ended with `/>`.
    pub self_closing: bool,
}

/// The top level of a component.
#[derive(Debug, Clone)]
pub struct SfcLayout<'a> {
    pub blocks: Vec<SfcBlock<'a>>,
    /// Top-level text between blocks, each with its span.
    pub text_segments: Vec<(Span, &'a str)>,
}

/// Why a component could not be split.
#[derive(Debug, Clone)]
pub enum SfcError<'a> {
    /// The start tag that begins at `offset` never reaches a `>`.
    UnterminatedStartTag { offset: u32 },
    /// The block `name` has no end tag, or one that no `>` closes;
    /// `start..end` is its start tag.
    MissingEndTag { name: &'a str, start: u32, end: u32 },
}

impl<'a> SfcError<'a> {
    /// The source range that the error points at.
    pub fn label(&self) -> (r: Span)
        requires
            self matches SfcError::UnterminatedStartTag { offset } ==> offset < u32::MAX,
        ensures
            self matches SfcError::UnterminatedStartTag { offset } ==> r.start == offset && r.end
                == offset + 1,
            self matches SfcError::MissingEndTag { start, end, .. } ==> r.start == start && r.end
                == end,
    {
        match self {
            SfcError::UnterminatedStartTag { offset } => Span::new(*offset, *offset + 1),
            SfcError::MissingEndTag { start, end, .. } => Span::new(*start, *end),
        }
    }
    /// The text of the diagnostic.
    pub fn message(&self) -> (r: String)
        ensures
            self matches SfcError::UnterminatedStartTag { .. } ==> r@ == "Unterminated SFC start tag"@,
            self matches SfcError::MissingEndTag { name, .. } ==> r@ == "Missing end tag for `<"@ + name@
                + ">`"@,
    {
        match self {
            SfcError::UnterminatedStartTag { .. } => String::from_str("Unterminated SFC start tag"),
            SfcError::MissingEndTag { name, .. } => {
                let mut m = String::from_str("Missing end tag for `<");
                m.append(name);
                m.append(">`");
                m
            },
        }
    }

    /// The scope of the diagnostic's error code.
    pub fn code_scope(&self) -> (r: &'static str)
        ensures
            r@ == "vue-sfc"@,
    {
        "vue-sfc"
    }
}

pub open spec fn span_is(sp: Span, r: (int, int)) -> bool {
    sp.start == r.0 && sp.end == r.1
}

pub open spec fn block_matches(b: SfcBlock, m: BlockModel, s: Seq<u8>) -> bool {
    &&& b.tag.spec_bytes() == s.subrange(m.tag.0, m.tag.1)
    &&& span_is(b.range, m.range)
    &&& span_is(b.start_tag_range, m.start_tag)
    &&& match m.end_tag {
        Some(r) => b.end_tag_range matches Some(sp) && span_is(sp, r),
        None => b.end_tag_range is None,
    }
    &&& span_is(b.content_range, m.content)
    &&& b.raw_attributes@ == trim_chars(decode_utf8(s.subrange(m.attrs.0, m.attrs.1)))
    &&& b.self_closing == m.self_closing
}

pub open spec fn text_matches(t: (Span, &str), r: (int, int), s: Seq<u8>) -> bool {
    span_is(t.0, r) && t.1.spec_bytes() == s.subrange(r.0, r.1)
}

pub open spec fn blocks_match(v: Seq<SfcBlock>, m: Seq<BlockModel>, s: Seq<u8>) -> bool {
    v.len() == m.len() && forall|k: int| 0 <= k < v.len() ==> block_matches(#[trigger] v[k], m[k], s)
}

pub open spec fn texts_match(v: Seq<(Span, &str)>, m: Seq<(int, int)>, s: Seq<u8>) -> bool {
    v.len() == m.len() && forall|k: int| 0 <= k < v.len() ==> text_matches(#[trigger] v[k], m[k], s)
}

/// The layout holds exactly the blocks and the text pieces of `p`, in order.
pub open spec fn layout_matches(l: SfcLayout, p: Seq<Piece>, s: Seq<u8>) -> bool {
    blocks_match(l.blocks@, blocks_of(p), s) && texts_match(l.text_segments@, texts_of(p), s)
}

pub open spec fn error_matches(e: SfcError, m: SplitErrorModel, s: Seq<u8>) -> bool {
    match m {
        SplitErrorModel::UnterminatedStartTag { offset } => e matches SfcError::UnterminatedStartTag {
            offset: o,
        } && o == offset,
        SplitErrorModel::MissingEndTag { name, start, end } => e matches SfcError::MissingEndTag {
            name: n,
            start: a,
            end: b,
        } && n.spec_bytes() == s.subrange(name.0, name.1) && a == start && b == end,
    }
}

pub fn is_tag_name_start(b: u8) -> (r: bool)
    ensures
        r == is_tag_name_start_spec(b),
{
    is_ascii_alphabetic(b)
}

pub fn is_tag_name_part(b: u8) -> (r: bool)
    ensures
        r == is_tag_name_part_spec(b),
{
    is_ascii_alphanumeric(b) || b == 0x2d || b == 0x5f || b == 0x3a
}

/// Scan from `pos` (just past the tag name) to the `>` that ends the start
/// tag; returns the index just after it and whether the tag was
/// self-closing.
pub fn find_start_tag_end(bytes: &[u8], from: usize) -> (r: Option<(usize, bool)>)
    requires
        from <= bytes@.len(),
    ensures
        match start_tag_end(bytes@, from as int) {
            Some((e, sc)) => r == Some((e as usize, sc)),
            None => r is None,
        },
{
    let n = bytes.len();
    let mut pos = from;
    let ghost s = bytes@;
    let ghost target = start_tag_end(s, from as int);
    while pos < n
        invariant
            n == s.len(),
            s == bytes@,
            pos <= n,
            start_tag_end(s, pos as int) == target,
            target == start_tag_end(bytes@, from as int),
        decreases n - pos,
    {
        let b = bytes[pos];
        if b == 0x3e {
            return Some((pos + 1, false));
        } else if b == 0x2f && pos + 1 < n && bytes[pos + 1] == 0x3e {
            return Some((pos + 2, true));
        } else if b == 0x22 || b == 0x27 {
            let quote = b;
            let ghost q0 = pos + 1;
            pos += 1;
            proof {
                lemma_find_byte_from(s, q0 as int, quote);
            }
            while pos < n && bytes[pos] != quote
                invariant
                    n == s.len(),
                    s == bytes@,
                    q0 <= pos <= n,
                    find_byte_from(s, q0 as int, quote) == find_byte_from(s, pos as int, quote),
                decreases n - pos,
            {
                pos += 1;
            }
            if pos < n {
                pos += 1;
            }
        } else {
            pos += 1;
        }
    }
    None
}

/// End of the run of tag-name bytes that starts at `from`.
fn scan_tag_name(bytes: &[u8], from: usize) -> (r: usize)
    requires
        from <= bytes@.len(),
    ensures
        r == name_end(bytes@, from as int),
{
    let n = bytes.len();
    let mut j = from;
    while j < n && is_tag_name_part(bytes[j])
        invariant
            n == bytes@.len(),
            from <= j <= n,
            name_end(bytes@, from as int) == name_end(bytes@, j as int),
        decreases n - j,
    {
        j += 1;
    }
    j
}

/// Whether `marker` (up to ASCII case) sits at `k`, followed by a tag
/// delimiter or by the end of the source.
fn marker_at_exec(bytes: &[u8], k: usize, marker: &[u8]) -> (r: bool)
    ensures
        r == marker_at(bytes@, k as int, marker@),
{
    let n = bytes.len();
    if marker.len() > n || k > n - marker.len() {
        return false;
    }
    if !eq_ignore_case_at(bytes, k, marker) {
        return false;
    }
    let after = k + marker.len();
    after == n || {
        let b = bytes[after];
        b == 0x3e || b == 0x2f || b == 0x20 || b == 0x09 || b == 0x0d || b == 0x0a
    }
}

/// The executable form of `BodyEnd`.
pub enum ScanEnd {
    Closed(usize, usize),
    MissingGt,
    Unclosed,
}

/// Scan for the end tag of the block `name` whose body starts at
/// `body_start`, tolerating nested elements of the same name.
fn scan_body(bytes: &[u8], name: &[u8], body_start: usize) -> (r: ScanEnd)
    requires
        body_start <= bytes@.len(),
        bytes@.len() <= u32::MAX,
        name@.len() <= u32::MAX,
    ensures
        match body_end(bytes@, name@, body_start as int, 1) {
            BodyEnd::Closed { content_end, close_end } => r matches ScanEnd::Closed(a, b) && a
                == content_end && b == close_end,
            BodyEnd::MissingGt => r is MissingGt,
            BodyEnd::Unclosed => r is Unclosed,
        },
{
    let ghost s = bytes@;
    let mut close: Vec<u8> = Vec::new();
    close.push(0x3c);
    close.push(0x2f);
    let mut open: Vec<u8> = Vec::new();
    open.push(0x3c);
    let mut t: usize = 0;
    while t < name.len()
        invariant
            t <= name@.len(),
            close@ == seq![0x3cu8, 0x2fu8] + name@.subrange(0, t as int),
            open@ == seq![0x3cu8] + name@.subrange(0, t as int),
        decreases name@.len() - t,
    {
        close.push(name[t]);
        open.push(name[t]);
        proof {
            assert(name@.subrange(0, t + 1) =~= name@.subrange(0, t as int).push(name@[t as int]));
            assert(close@ =~= seq![0x3cu8, 0x2fu8] + name@.subrange(0, t + 1));
            assert(open@ =~= seq![0x3cu8] + name@.subrange(0, t + 1));
        }
        t += 1;
    }
    proof {
        assert(name@.subrange(0, name@.len() as int) =~= name@);
    }
    let n = bytes.len();
    let mut depth: u64 = 1;
    let mut k = body_start;
    let ghost target = body_end(s, name@, body_start as int, 1);
    while k < n
        invariant
            n == s.len(),
            s == bytes@,
            body_start <= k <= n,
            1 <= depth <= k - body_start + 1,
            close@ == close_marker(name@),
            open@ == open_marker(name@),
            body_end(s, name@, k as int, depth as int) == target,
            target == body_end(bytes@, name@, body_start as int, 1),
            n <= u32::MAX,
        decreases n - k,
    {
        if bytes[k] == 0x3c {
            if marker_at_exec(bytes, k, close.as_slice()) {
                if depth == 1 {
                    let mut m = k + close.len();
                    proof {
                        lemma_find_byte_from(s, m as int, 0x3e);
                    }
                    let ghost from = m;
                    while m < n && bytes[m] != 0x3e
                        invariant
                            n == s.len(),
                            s == bytes@,
                            from <= m <= n,
                            from == k + close_marker(name@).len(),
                            body_start <= k < n,
                            1 == depth,
                            s[k as int] == 0x3c,
                            marker_at(s, k as int, close_marker(name@)),
                            body_end(s, name@, k as int, depth as int) == target,
                            target == body_end(bytes@, name@, body_start as int, 1),
                            find_byte_from(s, from as int, 0x3e) == find_byte_from(
                                s,
                                m as int,
                                0x3e,
                            ),
                        decreases n - m,
                    {
                        m += 1;
                    }
                    if m >= n {
                        return ScanEnd::MissingGt;
                    }
                    return ScanEnd::Closed(k, m + 1);
                }
                depth -= 1;
            } else if marker_at_exec(bytes, k, open.as_slice()) {
                depth += 1;
            }
        }
        k += 1;
    }
    ScanEnd::Unclosed
}

/// Walk `source` and identify its top-level blocks and the text between
/// them.
///
/// Fails when a start tag never reaches its `>`, or when a block has no
/// closing tag (no matching end tag, or one without its `>`).
pub fn split<'a>(source: &'a str) -> (r: Result<SfcLayout<'a>, SfcError<'a>>)
    requires
        source.spec_bytes().len() <= u32::MAX,
    ensures
        match split_spec(source.spec_bytes()) {
            Ok(p) => r matches Ok(l) && layout_matches(l, p, source.spec_bytes()),
            Err(m) => r matches Err(e) && error_matches(e, m, source.spec_bytes()),
        },
{
    let bytes = source.as_bytes();
    let ghost s = source.spec_bytes();
    let len = bytes.len();
    let mut i: usize = 0;
    let mut blocks: Vec<SfcBlock<'a>> = Vec::new();
    let mut texts: Vec<(Span, &'a str)> = Vec::new();
    let mut text_start: usize = 0;
    let ghost mut done: Seq<Piece> = seq![];
    while i < len
        invariant
            s == source.spec_bytes(),
            s == bytes@,
            len == s.len(),
            len <= u32::MAX,
            text_start <= i <= len,
            ascii_adjacent(s, text_start as int),
            split_spec(s) == prepend(done, pieces_from(s, i as int, text_start as int)),
            blocks_match(blocks@, blocks_of(done), s),
            texts_match(texts@, texts_of(done), s),
        decreases len - i,
    {
        if bytes[i] == 0x3c && i + 1 < len && is_tag_name_start(bytes[i + 1]) {
            proof {
                lemma_block_at(s, i as int);
            }
            let ghost pre: Seq<Piece> = if i > text_start {
                seq![Piece::Text(text_start as int, i as int)]
            } else {
                seq![]
            };
            let ghost old_done = done;
            if i > text_start {
                let span = Span::new(text_start as u32, i as u32);
                let text = slice_between_ascii(source, text_start, i);
                texts.push((span, text));
            }
            let tag_open = i;
            let name_start = i + 1;
            let j = scan_tag_name(bytes, name_start);
            proof {
                lemma_name_end(s, name_start as int);
                assert(is_tag_name_part_spec(s[name_start as int]));
                assert(is_tag_name_part_spec(s[j - 1]));
                lemma_start_tag_end(s, j as int);
            }
            let name = slice_between_ascii(source, name_start, j);
            let found = find_start_tag_end(bytes, j);
            let (start_tag_end_at, self_closing) = match found {
                Some(v) => v,
                None => {
                    return Err(SfcError::UnterminatedStartTag { offset: tag_open as u32 });
                },
            };
            let attrs_end = if self_closing {
                start_tag_end_at - 2
            } else {
                start_tag_end_at - 1
            };
            let raw_attrs = str_trim(slice_between_ascii(source, j, attrs_end));
            let start_tag_range = Span::new(tag_open as u32, start_tag_end_at as u32);
            let ghost b = block_at(s, i as int)->Ok_0;
            if self_closing {
                blocks.push(
                    SfcBlock {
                        tag: name,
                        range: start_tag_range,
                        start_tag_range,
                        end_tag_range: None,
                        content_range: Span::new(start_tag_end_at as u32, start_tag_end_at as u32),
                        raw_attributes: raw_attrs,
                        self_closing: true,
                    },
                );
                proof {
                    done = old_done + pre + seq![Piece::Block(b)];
                    lemma_blocks_of_add(old_done, pre);
                    lemma_blocks_of_add(old_done + pre, seq![Piece::Block(b)]);
                    reveal_with_fuel(blocks_of, 2);
                    reveal_with_fuel(texts_of, 2);
                    assert(pieces_from(s, i as int, text_start as int) == prepend(
                        pre + seq![Piece::Block(b)],
                        pieces_from(s, start_tag_end_at as int, start_tag_end_at as int),
                    ));
                    assert forall|x: Seq<Piece>, y: Seq<Piece>, z: Seq<Piece>| #![auto]
                        x + (y + z) == x + y + z by {
                        assert(x + (y + z) =~= x + y + z);
                    }
                    assert(blocks@.last() == blocks@[blocks@.len() - 1]);
                }
                text_start = start_tag_end_at;
                i = start_tag_end_at;
                continue;
            }
            let body_start = start_tag_end_at;
            let scanned = scan_body(bytes, name.as_bytes(), body_start);
            let (final_content_end, final_end_close, end_tag_range) = match scanned {
                ScanEnd::Closed(content_end, end_tag_close) => (
                    content_end,
                    end_tag_close,
                    Some(Span::new(content_end as u32, end_tag_close as u32)),
                ),
                _ => {
                    return Err(
                        SfcError::MissingEndTag {
                            name,
                            start: tag_open as u32,
                            end: start_tag_end_at as u32,
                        },
                    );
                },
            };
            blocks.push(
                SfcBlock {
                    tag: name,
                    range: Span::new(tag_open as u32, final_end_close as u32),
                    start_tag_range,
                    end_tag_range,
                    content_range: Span::new(body_start as u32, final_content_end as u32),
                    raw_attributes: raw_attrs,
                    self_closing: false,
                },
            );
            proof {
                done = old_done + pre + seq![Piece::Block(b)];
                lemma_blocks_of_add(old_done, pre);
                lemma_blocks_of_add(old_done + pre, seq![Piece::Block(b)]);
                reveal_with_fuel(blocks_of, 2);
                reveal_with_fuel(texts_of, 2);
                assert(pieces_from(s, i as int, text_start as int) == prepend(
                    pre + seq![Piece::Block(b)],
                    pieces_from(s, final_end_close as int, final_end_close as int),
                ));
                assert forall|x: Seq<Piece>, y: Seq<Piece>, z: Seq<Piece>| #![auto]
                    x + (y + z) == x + y + z by {
                    assert(x + (y + z) =~= x + y + z);
                }
                assert(blocks@.last() == blocks@[blocks@.len() - 1]);
            }
            text_start = final_end_close;
            i = final_end_close;
            continue;
        }
        i += 1;
    }
    if text_start < len {
        let span = Span::new(text_start as u32, len as u32);
        let text = slice_between_ascii(source, text_start, len);
        texts.push((span, text));
    }
    proof {
        let tail: Seq<Piece> = if text_start < len {
            seq![Piece::Text(text_start as int, len as int)]
        } else {
            seq![]
        };
        lemma_blocks_of_add(done, tail);
        reveal_with_fuel(blocks_of, 2);
        reveal_with_fuel(texts_of, 2);
    }
    Ok(SfcLayout { blocks, text_segments: texts })
}

// ---------------------------------------------------------------------------
// The layout lists
// ---------------------------------------------------------------------------
proof fn lemma_listed_pieces(p: Seq<Piece>)
    ensures
        forall|k: int|
            0 <= k < blocks_of(p).len() ==> exists|t: int|
                0 <= t < p.len() && #[trigger] p[t] == Piece::Block(#[trigger] blocks_of(p)[k]),
        forall|k: int|
            0 <= k < texts_of(p).len() ==> exists|t: int|
                0 <= t < p.len() && #[trigger] p[t] == Piece::Text(
                    #[trigger] texts_of(p)[k].0,
                    texts_of(p)[k].1,
                ),
    decreases p.len(),
{
    if p.len() > 0 {
        let q = p.drop_last();
        lemma_listed_pieces(q);
        assert forall|k: int| 0 <= k < blocks_of(p).len() implies exists|t: int|
            0 <= t < p.len() && #[trigger] p[t] == Piece::Block(#[trigger] blocks_of(p)[k]) by {
            if k < blocks_of(q).len() {
                assert(blocks_of(p)[k] == blocks_of(q)[k]);
                let t = choose|t: int| 0 <= t < q.len() && #[trigger] q[t] == Piece::Block(blocks_of(q)[k]);
                assert(p[t] == q[t]);
            } else {
                assert(p[p.len() - 1] == p.last());
            }
        }
        assert forall|k: int| 0 <= k < texts_of(p).len() implies exists|t: int|
            0 <= t < p.len() && #[trigger] p[t] == Piece::Text(#[trigger] texts_of(p)[k].0, texts_of(p)[k].1) by {
            if k < texts_of(q).len() {
                assert(texts_of(p)[k] == texts_of(q)[k]);
                let t = choose|t: int| 0 <= t < q.len() && #[trigger] q[t] == Piece::Text(texts_of(q)[k].0, texts_of(q)[k].1);
                assert(p[t] == q[t]);
            } else {
                assert(p[p.len() - 1] == p.last());
            }
        }
    }
}

proof fn lemma_tiles_pieces(p: Seq<Piece>, a: int, b: int)
    requires
        tiles(p, a, b),
    ensures
        forall|t: int|
            0 <= t < p.len() ==> a <= piece_range(#[trigger] p[t]).0 < piece_range(p[t]).1 <= b,
    decreases p.len(),
{
    if p.len() > 0 {
        lemma_tiles_pieces(p.drop_first(), piece_range(p[0]).1, b);
        assert forall|t: int| 0 <= t < p.len() implies a <= piece_range(#[trigger] p[t]).0 < piece_range(
            p[t],
        ).1 <= b by {
            if t > 0 {
                assert(p[t] == p.drop_first()[t - 1]);
            } else if p.len() > 1 {
                assert(p.drop_first()[0] == p[1]);
            } else {
                assert(p.drop_first().len() == 0);
            }
        }
    }
}

/// What the layout says of one block `b` of `s`: it opens at a `<` and a
/// letter and is named by the longest tag name after it; its start tag
/// ends at the first `>` (or `/>`) after the name outside quoted values,
/// self-closing exactly when a `/` stands before that `>`, with the
/// trimmed text in between as its attributes; its ranges nest; a
/// self-closing block is its start tag alone, any other ends with `</`,
/// its name in any ASCII case, and a `>`.
pub open spec fn layout_block_facts(s: Seq<u8>, b: SfcBlock) -> bool {
    let st = b.range.start as int;
    let n = st + 1 + b.tag.spec_bytes().len();
    let e = b.start_tag_range.end as int;
    let g = if b.self_closing {
        e - 2
    } else {
        e - 1
    };
    &&& opens_block(s, st)
    &&& n == name_end(s, st + 1)
    &&& b.tag.spec_bytes() == s.subrange(st + 1, n)
    &&& b.start_tag_range.start == st
    &&& e == b.content_range.start <= b.content_range.end <= b.range.end <= s.len()
    &&& n <= g
    &&& s[e - 1] == 0x3e
    &&& visits(s, n, g)
    &&& forall|k: int| n <= k < g && #[trigger] visits(s, n, k) ==> !ends_tag_at(s, k)
    &&& b.self_closing == (s[e - 2] == 0x2f)
    &&& b.raw_attributes@ == trim_chars(decode_utf8(s.subrange(n, g)))
    &&& if b.self_closing {
        &&& b.range.end == e
        &&& b.end_tag_range is None
        &&& b.content_range.end == e
    } else {
        &&& b.end_tag_range matches Some(et)
        &&& et.start == b.content_range.end
        &&& et.end == b.range.end
        &&& marker_at(s, et.start as int, close_marker(b.tag.spec_bytes()))
        &&& s[et.end - 1] == 0x3e
    }
}

/// What the layout says of one text segment of `s`: it is not empty, it
/// holds the source text of its span, and no block opens inside it.
pub open spec fn layout_text_facts(s: Seq<u8>, seg: (Span, &str)) -> bool {
    &&& seg.0.start < seg.0.end <= s.len()
    &&& seg.1.spec_bytes() == s.subrange(seg.0.start as int, seg.0.end as int)
    &&& forall|k: int| seg.0.start <= k < seg.0.end ==> !#[trigger] opens_block(s, k)
}

/// Law: the laws of the split, read on the layout that `split` returns:
/// every block satisfies `layout_block_facts` and every text segment
/// `layout_text_facts`.
pub proof fn split_layout_lists_are_well_formed(s: Seq<u8>, l: SfcLayout)
    requires
        split_spec(s) is Ok,
        layout_matches(l, split_spec(s)->Ok_0, s),
    ensures
        forall|k: int| 0 <= k < l.blocks@.len() ==> layout_block_facts(s, #[trigger] l.blocks@[k]),
        forall|k: int| 0 <= k < l.text_segments@.len() ==> layout_text_facts(s, #[trigger] l.text_segments@[k]),
{
    let p = split_spec(s)->Ok_0;
    lemma_pieces_shape(s, 0, 0);
    lemma_pieces_tile(s, 0, 0);
    lemma_tiles_pieces(p, 0, s.len() as int);
    split_start_tags_end_at_first_unquoted_gt(s);
    lemma_listed_pieces(p);
    assert forall|k: int| 0 <= k < l.blocks@.len() implies layout_block_facts(s, #[trigger] l.blocks@[k]) by {
        let m = blocks_of(p)[k];
        assert(block_matches(l.blocks@[k], m, s));
        let t = choose|t: int| 0 <= t < p.len() && #[trigger] p[t] == Piece::Block(blocks_of(p)[k]);
        assert(p[t] is Block);
        assert(p[t]->Block_0 == m);
        lemma_name_end(s, m.range.0 + 1);
    }
    assert forall|k: int| 0 <= k < l.text_segments@.len() implies layout_text_facts(
        s,
        #[trigger] l.text_segments@[k],
    ) by {
        let r = texts_of(p)[k];
        assert(text_matches(l.text_segments@[k], r, s));
        let t = choose|t: int| 0 <= t < p.len() && #[trigger] p[t] == Piece::Text(texts_of(p)[k].0, texts_of(p)[k].1);
        assert(p[t] is Text);
        assert(piece_range(p[t]) == r);
    }
}

} // verus!
