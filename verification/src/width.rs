//! The width of a text on a terminal: its grapheme clusters or characters,
//! less the bytes of the escape sequences that a terminal does not show.

use crate::segment::{get_graphemes, grapheme_clusters};
use vstd::prelude::*;
use vstd::string::{StrSliceExecFns, StringSliceAdditionalSpecFns};
use vstd::utf8::encode_utf8;

verus! {

/// The byte that begins an escape sequence.
pub const ESCAPE: u8 = 0x1B;

/// The byte `[`, which comes right after [`ESCAPE`].
pub const BRACKET: u8 = 0x5B;

/// The byte `;`, which parts one group of digits from the next.
pub const SEPARATOR: u8 = 0x3B;

/// Whether `byte` is a decimal digit.
pub open spec fn is_digit(byte: u8) -> bool {
    0x30 <= byte <= 0x39
}

/// Whether `byte` is a letter of the ASCII alphabet, small or capital.
pub open spec fn is_letter(byte: u8) -> bool {
    0x41 <= byte <= 0x5A || 0x61 <= byte <= 0x7A
}

/// Whether `list` is made of groups of digits with one separator between
/// each two: it begins and ends with a digit, holds digits and separators
/// only, and no two separators side by side.
pub open spec fn is_parameter_list(list: Seq<u8>) -> bool {
    &&& list.len() > 0
    &&& is_digit(list[0])
    &&& is_digit(list[list.len() - 1])
    &&& forall|i: int| 0 <= i < list.len() ==> is_digit(#[trigger] list[i]) || list[i] == SEPARATOR
    &&& forall|i: int|
        0 <= i < list.len() - 1 ==> is_digit(#[trigger] list[i]) || is_digit(list[i + 1])
}

/// Whether `sequence` is one escape sequence: [`ESCAPE`], [`BRACKET`], a
/// parameter list and one letter.
pub open spec fn is_escape(sequence: Seq<u8>) -> bool {
    &&& sequence.len() >= 4
    &&& sequence[0] == ESCAPE
    &&& sequence[1] == BRACKET
    &&& is_parameter_list(sequence.subrange(2, sequence.len() - 1))
    &&& is_letter(sequence[sequence.len() - 1])
}

/// Whether the `len` bytes of `bytes` from `at` on are an escape sequence.
pub open spec fn escape_at(bytes: Seq<u8>, at: int, len: int) -> bool {
    &&& 0 <= at
    &&& 0 < len
    &&& at + len <= bytes.len()
    &&& is_escape(bytes.subrange(at, at + len))
}

/// The length of the escape sequence that begins at `at`; 0 where none
/// begins there. There is at most one, see [`lemma_escape_unique`].
pub open spec fn escape_len_at(bytes: Seq<u8>, at: int) -> int {
    if exists|len: int| escape_at(bytes, at, len) {
        choose|len: int| escape_at(bytes, at, len)
    } else {
        0
    }
}

/// The lengths, added up, of the escape sequences that begin in `bytes` at
/// or after `at`.
pub open spec fn escape_total_from(bytes: Seq<u8>, at: int) -> int
    decreases bytes.len() - at,
{
    if at < 0 || at >= bytes.len() {
        0
    } else {
        escape_len_at(bytes, at) + escape_total_from(bytes, at + 1)
    }
}

/// The lengths, added up, of all escape sequences in `bytes`.
pub open spec fn escape_total(bytes: Seq<u8>) -> int {
    escape_total_from(bytes, 0)
}

/// Two escape sequences that begin at the same place are the same: the
/// letter ends a sequence, and none stands before its end.
pub proof fn lemma_escape_unique(bytes: Seq<u8>, at: int, len: int, other: int)
    requires
        escape_at(bytes, at, len),
        escape_at(bytes, at, other),
    ensures
        len == other,
{
    let a = bytes.subrange(at, at + len);
    let b = bytes.subrange(at, at + other);
    if len < other {
        let list = b.subrange(2, b.len() - 1);
        assert(list[len - 3] == a[len - 1]);
    } else if other < len {
        let list = a.subrange(2, a.len() - 1);
        assert(list[other - 3] == b[other - 1]);
    }
}

/// Whether the bytes from `at` up to `end` can begin an escape sequence that
/// goes on from `end`: [`ESCAPE`] and [`BRACKET`], then digits and
/// separators as a parameter list has them.
pub open spec fn escape_begun(bytes: Seq<u8>, at: int, end: int) -> bool {
    &&& 0 <= at
    &&& at + 2 <= end <= bytes.len()
    &&& bytes[at] == ESCAPE
    &&& bytes[at + 1] == BRACKET
    &&& end > at + 2 ==> is_digit(bytes[at + 2])
    &&& forall|k: int| at + 2 <= k < end ==> is_digit(#[trigger] bytes[k]) || bytes[k] == SEPARATOR
    &&& forall|k: int|
        at + 2 <= k < end - 1 ==> is_digit(#[trigger] bytes[k]) || is_digit(bytes[k + 1])
}

/// Whether a digit stands just before `end`, after the bracket.
pub open spec fn digit_before(bytes: Seq<u8>, at: int, end: int) -> bool {
    end > at + 2 && is_digit(bytes[end - 1])
}

/// A letter after a digit ends the escape sequence that was begun.
proof fn lemma_escape_ends(bytes: Seq<u8>, at: int, end: int)
    requires
        escape_begun(bytes, at, end),
        end < bytes.len(),
        digit_before(bytes, at, end),
        is_letter(bytes[end]),
    ensures
        escape_at(bytes, at, end + 1 - at),
        escape_len_at(bytes, at) == end + 1 - at,
{
    let len = end + 1 - at;
    let sequence = bytes.subrange(at, at + len);
    let list = sequence.subrange(2, sequence.len() - 1);
    assert forall|i: int| 0 <= i < list.len() implies is_digit(#[trigger] list[i]) || list[i]
        == SEPARATOR by {
        assert(list[i] == bytes[at + 2 + i]);
    }
    assert forall|i: int| 0 <= i < list.len() - 1 implies is_digit(#[trigger] list[i]) || is_digit(
        list[i + 1],
    ) by {
        assert(list[i] == bytes[at + 2 + i]);
        assert(list[i + 1] == bytes[at + 2 + i + 1]);
    }
    assert(list[0] == bytes[at + 2]);
    assert(list[list.len() - 1] == bytes[end - 1]);
    assert(escape_at(bytes, at, len));
    lemma_escape_unique(bytes, at, len, escape_len_at(bytes, at));
}

/// No escape sequence begins at `at` where `bytes` end after what was begun,
/// or go on with a byte that neither continues nor ends the sequence.
proof fn lemma_escape_broken(bytes: Seq<u8>, at: int, end: int)
    requires
        escape_begun(bytes, at, end),
        end < bytes.len() ==> {
            &&& !is_digit(bytes[end])
            &&& !(bytes[end] == SEPARATOR && digit_before(bytes, at, end))
            &&& !(is_letter(bytes[end]) && digit_before(bytes, at, end))
        },
    ensures
        forall|len: int| !escape_at(bytes, at, len),
        escape_len_at(bytes, at) == 0,
{
    assert forall|len: int| !escape_at(bytes, at, len) by {
        if escape_at(bytes, at, len) {
            let sequence = bytes.subrange(at, at + len);
            let list = sequence.subrange(2, sequence.len() - 1);
            let last = at + len - 1;
            assert(sequence[len - 1] == bytes[last]);
            if last < end {
                // The letter would stand among the digits and separators.
                assert(is_digit(bytes[last]) || bytes[last] == SEPARATOR);
            } else if last == end {
                // The letter would stand at `end`, with no digit before it.
                assert(list[list.len() - 1] == bytes[end - 1]);
            } else {
                // The byte at `end` would belong to the parameter list.
                let i = end - at - 2;
                assert(list[i] == bytes[end]);
                if end > at + 2 {
                    assert(list[i - 1] == bytes[end - 1]);
                }
            }
        }
    }
}

/// No escape sequence begins at `at` where the bytes there are not
/// [`ESCAPE`] and [`BRACKET`].
proof fn lemma_escape_not_begun(bytes: Seq<u8>, at: int)
    requires
        0 <= at,
        at + 2 > bytes.len() || bytes[at] != ESCAPE || bytes[at + 1] != BRACKET,
    ensures
        forall|len: int| !escape_at(bytes, at, len),
        escape_len_at(bytes, at) == 0,
{
    assert forall|len: int| !escape_at(bytes, at, len) by {
        if escape_at(bytes, at, len) {
            let sequence = bytes.subrange(at, at + len);
            assert(sequence[0] == bytes[at]);
            assert(sequence[1] == bytes[at + 1]);
        }
    }
}

/// Tells the length of the escape sequence that begins at `at`, and 0 where
/// none begins there.
pub fn escape_len(bytes: &[u8], at: usize) -> (len: usize)
    ensures
        len == escape_len_at(bytes@, at as int),
        at + len <= bytes.len() || len == 0,
{
    let n = bytes.len();
    if at >= n || n - at < 2 || bytes[at] != ESCAPE || bytes[at + 1] != BRACKET {
        proof {
            lemma_escape_not_begun(bytes@, at as int);
        }
        return 0;
    }
    let mut end: usize = at + 2;
    let mut after_digit = false;
    while end < n
        invariant
            n == bytes.len(),
            escape_begun(bytes@, at as int, end as int),
            after_digit == digit_before(bytes@, at as int, end as int),
        decreases n - end,
    {
        let byte = bytes[end];
        if 0x30 <= byte && byte <= 0x39 {
            after_digit = true;
            end += 1;
        } else if byte == SEPARATOR && after_digit {
            after_digit = false;
            end += 1;
        } else if after_digit && ((0x41 <= byte && byte <= 0x5A) || (0x61 <= byte && byte
            <= 0x7A)) {
            proof {
                lemma_escape_ends(bytes@, at as int, end as int);
            }
            return end + 1 - at;
        } else {
            proof {
                lemma_escape_broken(bytes@, at as int, end as int);
            }
            return 0;
        }
    }
    proof {
        lemma_escape_broken(bytes@, at as int, end as int);
    }
    0
}

/// Escape sequences do not overlap: none begins inside another.
pub proof fn lemma_no_escape_inside(bytes: Seq<u8>, at: int, len: int, inside: int)
    requires
        escape_at(bytes, at, len),
        at < inside < at + len,
    ensures
        forall|other: int| !escape_at(bytes, inside, other),
        escape_len_at(bytes, inside) == 0,
{
    let sequence = bytes.subrange(at, at + len);
    let list = sequence.subrange(2, sequence.len() - 1);
    let i = inside - at;
    assert(sequence[i] == bytes[inside]);
    if 2 <= i < len - 1 {
        assert(list[i - 2] == bytes[inside]);
    }
    assert(bytes[inside] != ESCAPE);
    lemma_escape_not_begun(bytes, inside);
}

/// After an escape sequence the sum goes on where the sequence ends.
pub proof fn lemma_escape_total_skips(bytes: Seq<u8>, at: int)
    requires
        escape_len_at(bytes, at) > 0,
    ensures
        escape_at(bytes, at, escape_len_at(bytes, at)),
        escape_total_from(bytes, at) == escape_len_at(bytes, at) + escape_total_from(
            bytes,
            at + escape_len_at(bytes, at),
        ),
{
    let len = escape_len_at(bytes, at);
    lemma_escape_total_skips_to(bytes, at, len, at + 1);
}

proof fn lemma_escape_total_skips_to(bytes: Seq<u8>, at: int, len: int, from: int)
    requires
        escape_at(bytes, at, len),
        at < from <= at + len,
    ensures
        escape_total_from(bytes, from) == escape_total_from(bytes, at + len),
    decreases at + len - from,
{
    if from < at + len {
        lemma_no_escape_inside(bytes, at, len, from);
        lemma_escape_total_skips_to(bytes, at, len, from + 1);
    }
}

/// The escape sequences from `at` on are no longer than the bytes there.
pub proof fn lemma_escape_total_bounded(bytes: Seq<u8>, at: int)
    requires
        0 <= at <= bytes.len(),
    ensures
        0 <= escape_total_from(bytes, at) <= bytes.len() - at,
    decreases bytes.len() - at,
{
    if at < bytes.len() {
        let len = escape_len_at(bytes, at);
        if len > 0 {
            lemma_escape_total_skips(bytes, at);
            lemma_escape_total_bounded(bytes, at + len);
        } else {
            lemma_escape_total_bounded(bytes, at + 1);
        }
    }
}

/// Adds up the lengths of the escape sequences in `bytes`, found from left
/// to right, each search beginning where the last sequence ended.
pub fn escape_length(bytes: &[u8]) -> (total: usize)
    ensures
        total == escape_total(bytes@),
{
    let mut at: usize = 0;
    let mut total: usize = 0;
    while at < bytes.len()
        invariant
            at <= bytes.len(),
            total <= at,
            total + escape_total_from(bytes@, at as int) == escape_total(bytes@),
        decreases bytes.len() - at,
    {
        let len = escape_len(bytes, at);
        if len > 0 {
            proof {
                lemma_escape_total_skips(bytes@, at as int);
            }
            total += len;
            at += len;
        } else {
            at += 1;
        }
    }
    total
}

/// A text has at most as many characters as its encoding has bytes.
pub proof fn lemma_characters_at_most_bytes(text: Seq<char>)
    ensures
        text.len() <= encode_utf8(text).len(),
    decreases text.len(),
{
    if text.len() > 0 {
        lemma_characters_at_most_bytes(text.drop_first());
    }
}

/// The width of `text`: the count of its characters where
/// `ignore_graphemes` holds, else of its grapheme clusters, and from that
/// count, unless `ignore_ansi_escapes` holds, the bytes of the escape
/// sequences in the encoded text taken off. The count is taken of the whole
/// text, escape sequences included, and in clusters while the escape
/// sequences are measured in bytes: nothing here keeps the width from
/// falling below 0.
pub open spec fn display_width(
    text: Seq<char>,
    ignore_graphemes: bool,
    ignore_ansi_escapes: bool,
) -> int {
    let base = if ignore_graphemes {
        text.len()
    } else {
        grapheme_clusters(text).len()
    };
    width_from_base(base as int, encode_utf8(text), ignore_ansi_escapes)
}

/// What is left of `base` once the escape sequences in `bytes` are taken
/// off, unless `ignore_ansi_escapes` holds.
pub open spec fn width_from_base(base: int, bytes: Seq<u8>, ignore_ansi_escapes: bool) -> int {
    if ignore_ansi_escapes {
        base
    } else {
        base - escape_total(bytes)
    }
}

/// Takes the bytes of the escape sequences in `bytes` off `base`, unless
/// `ignore_ansi_escapes` holds. Both counts have to fit the result.
pub fn subtract_escapes(base: usize, bytes: &[u8], ignore_ansi_escapes: bool) -> (width: i64)
    requires
        base <= i64::MAX,
        bytes.len() <= i64::MAX,
    ensures
        width == width_from_base(base as int, bytes@, ignore_ansi_escapes),
        base - bytes.len() <= width <= base,
{
    if ignore_ansi_escapes {
        base as i64
    } else {
        proof {
            lemma_escape_total_bounded(bytes@, 0);
        }
        let escapes = escape_length(bytes);
        base as i64 - escapes as i64
    }
}

/// Computes the width of `text` on a terminal. Both choices are `false`
/// where they are left out. The text may have no more bytes than the result
/// can count; [`try_calculate_display_width`] asks that of no caller.
pub fn calculate_display_width(
    text: &str,
    ignore_graphemes: Option<bool>,
    ignore_ansi_escapes: Option<bool>,
) -> (width: i64)
    requires
        text.spec_bytes().len() <= i64::MAX,
    ensures
        width == display_width(
            text@,
            ignore_graphemes.unwrap_or(false),
            ignore_ansi_escapes.unwrap_or(false),
        ),
        -text.spec_bytes().len() <= width <= text@.len(),
{
    let ignore_graphemes = ignore_graphemes.unwrap_or(false);
    let ignore_ansi_escapes = ignore_ansi_escapes.unwrap_or(false);
    proof {
        lemma_characters_at_most_bytes(text@);
    }
    let base = if ignore_graphemes {
        text.unicode_len()
    } else {
        get_graphemes(text).len()
    };
    subtract_escapes(base, text.as_bytes(), ignore_ansi_escapes)
}

/// Computes the width of `text` as [`calculate_display_width`] does, and
/// gives `None` for a text with more bytes than the result can count.
pub fn try_calculate_display_width(
    text: &str,
    ignore_graphemes: Option<bool>,
    ignore_ansi_escapes: Option<bool>,
) -> (width: Option<i64>)
    ensures
        width is Some <==> text.spec_bytes().len() <= i64::MAX,
        width matches Some(columns) ==> columns == display_width(
            text@,
            ignore_graphemes.unwrap_or(false),
            ignore_ansi_escapes.unwrap_or(false),
        ),
{
    if text.as_bytes().len() as u64 > i64::MAX as u64 {
        None
    } else {
        Some(calculate_display_width(text, ignore_graphemes, ignore_ansi_escapes))
    }
}

} // verus!
