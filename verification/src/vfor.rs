//! The alias and the list of a `v-for` value, as the regular expression of
//! Vue's `v-for` syntax finds them.
use vstd::prelude::*;
use vstd::string::StringSliceAdditionalSpecFns;
use vstd::utf8::*;

use crate::span::Span;
use crate::text::{is_unicode_ws, str_slice};

verus! {

broadcast use vstd::string::group_string_axioms;

/// The end of the run of Unicode whitespace that starts at `i`.
pub open spec fn ws_run_end(t: Seq<char>, i: int) -> int
    decreases t.len() - i,
{
    if 0 <= i < t.len() && is_unicode_ws(t[i]) {
        ws_run_end(t, i + 1)
    } else {
        i
    }
}

/// At character `i` stand whitespace, `in` or `of`, whitespace and a
/// character that is not whitespace: where that character is.
pub open spec fn for_separator_at(t: Seq<char>, i: int) -> Option<int> {
    let j = ws_run_end(t, i);
    let k = ws_run_end(t, j + 2);
    if 0 <= i < t.len() && is_unicode_ws(t[i]) && j + 2 <= t.len() && ((t[j] == 'i' && t[j + 1] == 'n') || (
    t[j] == 'o' && t[j + 1] == 'f')) && j + 2 < k < t.len() {
        Some(k)
    } else {
        None
    }
}

/// The first character index from `i` on where a separator stands, with
/// where the list after it starts.
pub open spec fn first_for_separator(t: Seq<char>, i: int) -> Option<(int, int)>
    decreases t.len() - i,
{
    if i < 0 || i >= t.len() {
        None
    } else {
        match for_separator_at(t, i) {
            Some(k) => Some((i, k)),
            None => first_for_separator(t, i + 1),
        }
    }
}

/// The bytes of the first `n` characters of `t`.
pub open spec fn bytes_before(t: Seq<char>, n: int) -> int {
    encode_utf8(t.take(n)).len() as int
}

/// What `for_alias_pattern` captures in `t`, as byte ranges: the alias
/// runs from the start to the first separator (the lazy first group), the
/// list from the first character after it to the end (`\S[\s\S]*`);
/// `None` where no separator stands.
pub open spec fn for_alias_groups(t: Seq<char>) -> Option<((int, int), (int, int))> {
    match first_for_separator(t, 0) {
        None => None,
        Some((i, k)) => Some(((0, bytes_before(t, i)), (bytes_before(t, k), encode_utf8(t).len() as int))),
    }
}

/// `regex::Regex::new(pattern)` on `for_alias_pattern`, then
/// `Regex::captures(text)` and the byte ranges (`Match::start`,
/// `Match::end`) of groups 1 and 2.
///
/// The pattern is anchored, its first group is lazy and the crate reports
/// the leftmost-first match, so the first group ends at the first index
/// where the rest can match; `\s` is Unicode's White_Space
/// (`is_unicode_ws`), a whitespace run before `in`/`of` and before the
/// list must be taken whole, and the greedy last group runs to the end.
/// The contract states this (`for_alias_groups`), and that every offset
/// lies in the text on a character boundary.
#[verifier::external_body]
fn regex_captures_two(pattern: &str, text: &str) -> (r: Option<((usize, usize), (usize, usize))>)
    requires
        pattern@ == for_alias_pattern(),
    ensures
        match r {
            Some(((a, b), (c, d))) => for_alias_groups(text@) == Some(
                ((a as int, b as int), (c as int, d as int)),
            ) && a <= b <= text.spec_bytes().len() && c <= d <= text.spec_bytes().len()
                && is_char_boundary(text.spec_bytes(), a as int) && is_char_boundary(text.spec_bytes(), b as int)
                && is_char_boundary(text.spec_bytes(), c as int) && is_char_boundary(text.spec_bytes(), d as int),
            None => for_alias_groups(text@) is None,
        },
{
    let re = match regex::Regex::new(pattern) {
        Ok(re) => re,
        Err(_) => return None,
    };
    let caps = re.captures(text)?;
    let (g1, g2) = (caps.get(1)?, caps.get(2)?);
    Some(((g1.start(), g1.end()), (g2.start(), g2.end())))
}

/// The `v-for` syntax: an alias, whitespace, `in` or `of`, whitespace, and
/// a list that starts with a non-space character; the alias is the
/// shortest that fits.
pub open spec fn for_alias_pattern() -> Seq<char> {
    "^([\\s\\S]*?)\\s+(?:in|of)\\s+(\\S[\\s\\S]*)"@
}

/// The spans, in the source, of the alias and the list of the `v-for`
/// value that spans `value`: the two groups of `for_alias_pattern` in the
/// value's text (`for_alias_groups`), moved by `value.start`. `None` where
/// the pattern does not match.
pub fn parse_v_for_spans(source: &str, value: Span) -> (r: Option<(Span, Span)>)
    requires
        value.start <= value.end <= source.spec_bytes().len(),
        source.spec_bytes().len() <= u32::MAX,
        is_char_boundary(source.spec_bytes(), value.start as int),
        is_char_boundary(source.spec_bytes(), value.end as int),
    ensures
        ({
            let raw = decode_utf8(source.spec_bytes().subrange(value.start as int, value.end as int));
            match for_alias_groups(raw) {
                None => r is None,
                Some(((a, b), (c, d))) => r matches Some((left, right)) && {
                    &&& left.start == value.start + a && left.end == value.start + b
                    &&& right.start == value.start + c && right.end == value.start + d
                },
            }
        }),
{
    let raw = str_slice(source, value.start as usize, value.end as usize);
    proof {
        encode_utf8_decode_utf8(raw@);
    }
    let pattern = "^([\\s\\S]*?)\\s+(?:in|of)\\s+(\\S[\\s\\S]*)";
    match regex_captures_two(pattern, raw) {
        None => None,
        Some(((a, b), (c, d))) => {
            let base = value.start;
            assert(raw.spec_bytes().len() == value.end - value.start);
            Some(
                (
                    Span::new(base + a as u32, base + b as u32),
                    Span::new(base + c as u32, base + d as u32),
                ),
            )
        },
    }
}

} // verus!
