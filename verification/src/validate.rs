//! Well-formedness of a byte sequence as UTF-8.
//!
//! The scan is a small state machine over the bytes: either it stands at the
//! beginning of a sequence, or it still waits for a number of continuation
//! bytes. Its result is stated over [`first_malformation`], and
//! [`lemma_well_formed_iff_valid`] ties that to `vstd::utf8::valid_utf8`.

use crate::decimal::{decimal_digits, push_decimal};
use vstd::prelude::*;
use vstd::string::StringExecFns;
use vstd::utf8::*;

verus! {

/// Where and how a byte sequence stops being well-formed.
#[derive(Clone, Copy, Debug, PartialEq, Eq, Structural)]
pub enum Malformation {
    /// The byte at `start` cannot begin a sequence.
    InvalidLead { start: usize },
    /// The first `accepted` bytes from `start` on begin a sequence, and the
    /// byte after them cannot continue it.
    InvalidContinuation { start: usize, accepted: usize },
    /// The input ends inside the sequence that begins at `start`.
    Truncated { start: usize },
}

impl Malformation {
    /// The index of the first byte that belongs to no well-formed sequence.
    pub open spec fn start_index(self) -> int {
        match self {
            Malformation::InvalidLead { start } => start as int,
            Malformation::InvalidContinuation { start, .. } => start as int,
            Malformation::Truncated { start } => start as int,
        }
    }

    /// The diagnostic in words: what is wrong, and from which byte on.
    pub open spec fn message_text(self) -> Seq<char> {
        match self {
            Malformation::InvalidLead { start } => "invalid utf-8 sequence of 1 bytes from index "@
                + decimal_digits(start as nat),
            Malformation::InvalidContinuation { start, accepted } => "invalid utf-8 sequence of "@
                + decimal_digits(accepted as nat) + " bytes from index "@ + decimal_digits(
                start as nat,
            ),
            Malformation::Truncated { start } => "incomplete utf-8 byte sequence from index "@
                + decimal_digits(start as nat),
        }
    }

    /// Writes the diagnostic out.
    pub fn message(&self) -> (text: String)
        ensures
            text@ == self.message_text(),
    {
        match self {
            Malformation::InvalidLead { start } => {
                let mut text = String::from_str("invalid utf-8 sequence of 1 bytes from index ");
                push_decimal(&mut text, *start as u64);
                text
            },
            Malformation::InvalidContinuation { start, accepted } => {
                let mut text = String::from_str("invalid utf-8 sequence of ");
                push_decimal(&mut text, *accepted as u64);
                text.append(" bytes from index ");
                push_decimal(&mut text, *start as u64);
                text
            },
            Malformation::Truncated { start } => {
                let mut text = String::from_str("incomplete utf-8 byte sequence from index ");
                push_decimal(&mut text, *start as u64);
                text
            },
        }
    }
}

/// Number of bytes in the sequence that `lead` begins; 0 where no sequence
/// begins with `lead`.
pub open spec fn sequence_len(lead: u8) -> int {
    if lead <= 0x7F {
        1
    } else if 0xC2 <= lead <= 0xDF {
        2
    } else if 0xE0 <= lead <= 0xEF {
        3
    } else if 0xF0 <= lead <= 0xF4 {
        4
    } else {
        0
    }
}

/// Whether `byte` may stand `offset` bytes after `lead`. Continuation bytes
/// lie in `0x80..=0xBF`. The first one is held to a narrower range after four
/// leads: after `0xE0` and `0xF0` to shut out overlong forms, after `0xED` to
/// shut out the surrogates, and after `0xF4` to shut out values above
/// `0x10FFFF`.
pub open spec fn may_follow(lead: u8, offset: int, byte: u8) -> bool {
    if offset == 1 && lead == 0xE0 {
        0xA0 <= byte <= 0xBF
    } else if offset == 1 && lead == 0xED {
        0x80 <= byte <= 0x9F
    } else if offset == 1 && lead == 0xF0 {
        0x90 <= byte <= 0xBF
    } else if offset == 1 && lead == 0xF4 {
        0x80 <= byte <= 0x8F
    } else {
        0x80 <= byte <= 0xBF
    }
}

/// Whether the byte `offset` places after `start` exists and may stand there.
pub open spec fn continues_at(bytes: Seq<u8>, start: int, offset: int) -> bool {
    start + offset < bytes.len() && may_follow(bytes[start], offset, bytes[start + offset])
}

/// How many bytes from `start` on belong to the beginning of one sequence:
/// the whole of it where it is well-formed, fewer where a byte is missing or
/// may not stand there, and 0 where `bytes[start]` begins none.
pub open spec fn accepted_len(bytes: Seq<u8>, start: int) -> int {
    let n = sequence_len(bytes[start]);
    if n <= 1 {
        n
    } else if !continues_at(bytes, start, 1) {
        1
    } else if n == 2 {
        2
    } else if !continues_at(bytes, start, 2) {
        2
    } else if n == 3 {
        3
    } else if !continues_at(bytes, start, 3) {
        3
    } else {
        4
    }
}

/// Whether a whole well-formed sequence begins at `start`.
pub open spec fn sequence_at(bytes: Seq<u8>, start: int) -> bool {
    &&& 0 <= start < bytes.len()
    &&& sequence_len(bytes[start]) > 0
    &&& accepted_len(bytes, start) == sequence_len(bytes[start])
}

/// What is wrong at `start`, where no well-formed sequence begins there.
pub open spec fn malformation_at(bytes: Seq<u8>, start: int) -> Malformation {
    let k = accepted_len(bytes, start);
    if k == 0 {
        Malformation::InvalidLead { start: start as usize }
    } else if start + k >= bytes.len() {
        Malformation::Truncated { start: start as usize }
    } else {
        Malformation::InvalidContinuation { start: start as usize, accepted: k as usize }
    }
}

/// The first malformation met when one sequence after the other is read
/// from `start` on; `None` where well-formed sequences fill the rest of
/// `bytes`.
pub open spec fn first_malformation_from(bytes: Seq<u8>, start: int) -> Option<Malformation>
    decreases bytes.len() - start,
{
    if start < 0 || start >= bytes.len() {
        None
    } else if sequence_at(bytes, start) {
        first_malformation_from(bytes, start + sequence_len(bytes[start]))
    } else {
        Some(malformation_at(bytes, start))
    }
}

/// The first malformation in `bytes`, `None` where there is none.
pub open spec fn first_malformation(bytes: Seq<u8>) -> Option<Malformation> {
    first_malformation_from(bytes, 0)
}

/// Scans `bytes` once, byte by byte, and gives the first malformation.
pub fn find_malformation(bytes: &[u8]) -> (found: Option<Malformation>)
    ensures
        found == first_malformation(bytes@),
{
    // `start` is where the sequence under way began, and `needed` how many
    // continuation bytes it still lacks: 0 between two sequences.
    let mut i: usize = 0;
    let mut start: usize = 0;
    let mut needed: u8 = 0;
    while i < bytes.len()
        invariant
            start <= i <= bytes.len(),
            first_malformation(bytes@) == first_malformation_from(bytes@, start as int),
            needed == 0 ==> start == i,
            needed > 0 ==> start < i && sequence_len(bytes[start as int]) == (i - start) + needed
                && accepted_len(bytes@, start as int) >= i - start,
            needed > 0 && i - start == 1 ==> sequence_len(bytes[start as int]) == 2,
        decreases bytes.len() - i,
    {
        let byte = bytes[i];
        if needed == 0 {
            if byte <= 0x7F {
                i += 1;
                start = i;
            } else if 0xC2 <= byte && byte <= 0xDF {
                needed = 1;
                i += 1;
            } else if 0xE0 <= byte && byte <= 0xEF {
                // The byte after this lead has a range of its own, so it is
                // read here, together with the lead.
                if i + 1 >= bytes.len() {
                    return Some(Malformation::Truncated { start: i });
                }
                let next = bytes[i + 1];
                let fits = if byte == 0xE0 {
                    0xA0 <= next && next <= 0xBF
                } else if byte == 0xED {
                    0x80 <= next && next <= 0x9F
                } else {
                    0x80 <= next && next <= 0xBF
                };
                if !fits {
                    return Some(Malformation::InvalidContinuation { start: i, accepted: 1 });
                }
                needed = 1;
                i += 2;
            } else if 0xF0 <= byte && byte <= 0xF4 {
                if i + 1 >= bytes.len() {
                    return Some(Malformation::Truncated { start: i });
                }
                let next = bytes[i + 1];
                let fits = if byte == 0xF0 {
                    0x90 <= next && next <= 0xBF
                } else if byte == 0xF4 {
                    0x80 <= next && next <= 0x8F
                } else {
                    0x80 <= next && next <= 0xBF
                };
                if !fits {
                    return Some(Malformation::InvalidContinuation { start: i, accepted: 1 });
                }
                needed = 2;
                i += 2;
            } else {
                return Some(Malformation::InvalidLead { start: i });
            }
        } else {
            if byte < 0x80 || byte > 0xBF {
                return Some(Malformation::InvalidContinuation { start, accepted: i - start });
            }
            needed -= 1;
            i += 1;
            if needed == 0 {
                start = i;
            }
        }
    }
    if needed > 0 {
        Some(Malformation::Truncated { start })
    } else {
        None
    }
}

/// What the validator answers for `bytes`: whether they are well-formed,
/// and beside that the text they encode or else the diagnostic.
pub open spec fn validation_of(bytes: Seq<u8>) -> (bool, Seq<char>) {
    match first_malformation(bytes) {
        None => (true, decode_utf8(bytes)),
        Some(malformation) => (false, malformation.message_text()),
    }
}

/// `String::from_utf8_lossy`, which turns bytes into text and puts a
/// replacement character in place of each malformed part. Of valid UTF-8 it
/// replaces nothing: the result is the text that the bytes encode.
#[verifier::external_body]
fn text_of(bytes: &[u8]) -> (text: String)
    ensures
        valid_utf8(bytes@) ==> text@ == decode_utf8(bytes@),
{
    String::from_utf8_lossy(bytes).into_owned()
}

/// Decides whether `bytes` are well-formed. Where they are, the answer
/// carries the text unchanged, else the diagnostic of the first malformation.
pub fn check_is_valid(bytes: &[u8]) -> (outcome: (bool, String))
    ensures
        (outcome.0, outcome.1@) == validation_of(bytes@),
        outcome.0 == valid_utf8(bytes@),
        outcome.0 ==> encode_utf8(outcome.1@) == bytes@,
{
    proof {
        lemma_well_formed_iff_valid(bytes@);
        if valid_utf8(bytes@) {
            decode_utf8_encode_utf8(bytes@);
        }
    }
    match find_malformation(bytes) {
        None => (true, text_of(bytes)),
        Some(malformation) => (false, malformation.message()),
    }
}

/// One byte below `0x80` stands for itself and is no surrogate.
proof fn lemma_width_1(b0: u8)
    by (bit_vector)
    requires
        b0 <= 0x7F,
    ensures
        !(0xD800 <= codepoint_width_1(b0) <= 0xDFFF),
{
}

/// The byte ranges of a two-byte sequence are those whose value needs two bytes.
proof fn lemma_width_2(b0: u8, b1: u8)
    by (bit_vector)
    requires
        0xC0 <= b0 <= 0xDF,
        0x80 <= b1 <= 0xBF,
    ensures
        0xC2 <= b0 <==> 0x80 <= codepoint_width_2(b0, b1),
        !(0xD800 <= codepoint_width_2(b0, b1) <= 0xDFFF),
{
}

/// The byte ranges of a three-byte sequence are those whose value needs three
/// bytes and is no surrogate.
proof fn lemma_width_3(b0: u8, b1: u8, b2: u8)
    by (bit_vector)
    requires
        0xE0 <= b0 <= 0xEF,
        0x80 <= b1 <= 0xBF,
        0x80 <= b2 <= 0xBF,
    ensures
        (if b0 == 0xE0 {
            0xA0 <= b1
        } else if b0 == 0xED {
            b1 <= 0x9F
        } else {
            true
        }) <==> (0x800 <= codepoint_width_3(b0, b1, b2) && !(0xD800 <= codepoint_width_3(
            b0,
            b1,
            b2,
        ) <= 0xDFFF)),
{
}

/// The byte ranges of a four-byte sequence are those whose value needs four
/// bytes and is at most `0x10FFFF`.
proof fn lemma_width_4(b0: u8, b1: u8, b2: u8, b3: u8)
    by (bit_vector)
    requires
        0xF0 <= b0 <= 0xF7,
        0x80 <= b1 <= 0xBF,
        0x80 <= b2 <= 0xBF,
        0x80 <= b3 <= 0xBF,
    ensures
        (if b0 == 0xF0 {
            0x90 <= b1
        } else if b0 == 0xF4 {
            b1 <= 0x8F
        } else {
            b0 <= 0xF4
        }) <==> 0x10000 <= codepoint_width_4(b0, b1, b2, b3) <= 0x10FFFF,
        0x10000 <= codepoint_width_4(b0, b1, b2, b3) ==> !(0xD800 <= codepoint_width_4(
            b0,
            b1,
            b2,
            b3,
        ) <= 0xDFFF),
{
}

/// A well-formed sequence begins at `start` exactly where the bytes from
/// `start` on begin with the encoding of one scalar value, and it is as long
/// as that encoding.
pub proof fn lemma_sequence_at_iff_first_scalar(bytes: Seq<u8>, start: int)
    requires
        0 <= start < bytes.len(),
    ensures
        sequence_at(bytes, start) <==> valid_first_scalar(bytes.skip(start)),
        sequence_at(bytes, start) ==> length_of_first_scalar(bytes.skip(start)) == sequence_len(
            bytes[start],
        ),
{
    let s = bytes.skip(start);
    let b0 = s[0];
    if b0 <= 0x7F {
        lemma_width_1(b0);
    } else if 0xC0 <= b0 <= 0xDF {
        if s.len() >= 2 && 0x80 <= s[1] <= 0xBF {
            lemma_width_2(b0, s[1]);
        }
    } else if 0xE0 <= b0 <= 0xEF {
        if s.len() >= 3 && 0x80 <= s[1] <= 0xBF && 0x80 <= s[2] <= 0xBF {
            lemma_width_3(b0, s[1], s[2]);
        }
    } else if 0xF0 <= b0 <= 0xF7 {
        if s.len() >= 4 && 0x80 <= s[1] <= 0xBF && 0x80 <= s[2] <= 0xBF && 0x80 <= s[3] <= 0xBF {
            lemma_width_4(b0, s[1], s[2], s[3]);
        }
    }
}

/// Well-formed sequences fill `bytes` from `start` on exactly where the bytes
/// from `start` on are valid UTF-8.
pub proof fn lemma_well_formed_from_iff_valid(bytes: Seq<u8>, start: int)
    requires
        0 <= start <= bytes.len(),
    ensures
        first_malformation_from(bytes, start) is None <==> valid_utf8(bytes.skip(start)),
    decreases bytes.len() - start,
{
    let s = bytes.skip(start);
    if start < bytes.len() {
        lemma_sequence_at_iff_first_scalar(bytes, start);
        if sequence_at(bytes, start) {
            let n = sequence_len(bytes[start]);
            lemma_well_formed_from_iff_valid(bytes, start + n);
            assert(pop_first_scalar(s) =~= bytes.skip(start + n));
        }
    }
}

/// A byte sequence has no malformation exactly where it is valid UTF-8.
pub proof fn lemma_well_formed_iff_valid(bytes: Seq<u8>)
    ensures
        first_malformation(bytes) is None <==> valid_utf8(bytes),
{
    lemma_well_formed_from_iff_valid(bytes, 0);
    assert(bytes.skip(0) =~= bytes);
}

/// All that stands before the first malformation is valid UTF-8.
pub proof fn lemma_valid_before_malformation(bytes: Seq<u8>)
    requires
        bytes.len() <= usize::MAX,
        first_malformation(bytes) is Some,
    ensures
        0 <= first_malformation(bytes).unwrap().start_index() < bytes.len(),
        valid_utf8(bytes.take(first_malformation(bytes).unwrap().start_index())),
        !valid_first_scalar(bytes.skip(first_malformation(bytes).unwrap().start_index())),
{
    lemma_valid_before_malformation_from(bytes, 0);
}

proof fn lemma_valid_before_malformation_from(bytes: Seq<u8>, start: int)
    requires
        0 <= start <= bytes.len(),
        bytes.len() <= usize::MAX,
        valid_utf8(bytes.take(start)),
        first_malformation_from(bytes, start) is Some,
    ensures
        start <= first_malformation_from(bytes, start).unwrap().start_index() < bytes.len(),
        valid_utf8(bytes.take(first_malformation_from(bytes, start).unwrap().start_index())),
        !valid_first_scalar(
            bytes.skip(first_malformation_from(bytes, start).unwrap().start_index()),
        ),
    decreases bytes.len() - start,
{
    lemma_sequence_at_iff_first_scalar(bytes, start);
    if sequence_at(bytes, start) {
        // The valid part grows by the sequence at `start`.
        assert(partial_valid_utf8(bytes, start));
        partial_valid_utf8_extend(bytes, start);
        lemma_valid_before_malformation_from(bytes, start + sequence_len(bytes[start]));
    }
}

/// Every text, once encoded, is found valid and comes back unchanged.
pub proof fn lemma_valid_text_round_trip(text: Seq<char>)
    ensures
        validation_of(encode_utf8(text)) == (true, text),
{
    encode_utf8_valid_utf8(text);
    encode_utf8_decode_utf8(text);
    lemma_well_formed_iff_valid(encode_utf8(text));
}

/// Valid bytes cut off inside the encoding of a character are not valid.
pub proof fn lemma_cut_inside_character_invalid(bytes: Seq<u8>, cut: int)
    requires
        valid_utf8(bytes),
        0 <= cut <= bytes.len(),
        !is_char_boundary(bytes, cut),
    ensures
        !valid_utf8(bytes.take(cut)),
        !validation_of(bytes.take(cut)).0,
    decreases bytes.len(),
{
    reveal_with_fuel(is_char_boundary, 2);
    let head = bytes.take(cut);
    lemma_well_formed_iff_valid(head);
    let n = length_of_first_scalar(bytes);
    let rest = pop_first_scalar(bytes);
    // A cut inside the first character leaves its lead byte with too few
    // bytes after it. A cut further on leaves the first character whole, and
    // cuts what follows it inside a character.
    if cut > n {
        lemma_cut_inside_character_invalid(rest, cut - n);
        if valid_utf8(head) {
            assert(pop_first_scalar(head) =~= rest.take(cut - n));
        }
    }
}

/// Valid bytes cut off inside the encoding of a character are found
/// truncated, from the first byte of that character on.
pub proof fn lemma_cut_inside_character_truncated(bytes: Seq<u8>, cut: int)
    requires
        bytes.len() <= usize::MAX,
        valid_utf8(bytes),
        0 <= cut <= bytes.len(),
        !is_char_boundary(bytes, cut),
    ensures
        first_malformation(bytes.take(cut)) matches Some(Malformation::Truncated { start })
            && cut - 4 < start < cut,
{
    assert(bytes.skip(0) =~= bytes);
    lemma_cut_truncated_from(bytes, 0, cut);
}

proof fn lemma_cut_truncated_from(bytes: Seq<u8>, from: int, cut: int)
    requires
        bytes.len() <= usize::MAX,
        0 <= from <= cut <= bytes.len(),
        valid_utf8(bytes.skip(from)),
        !is_char_boundary(bytes.skip(from), cut - from),
    ensures
        first_malformation_from(bytes.take(cut), from) matches Some(
            Malformation::Truncated { start },
        ) && from <= start && cut - 4 < start < cut,
    decreases bytes.len() - from,
{
    reveal_with_fuel(is_char_boundary, 2);
    lemma_sequence_at_iff_first_scalar(bytes, from);
    let n = sequence_len(bytes[from]);
    assert(pop_first_scalar(bytes.skip(from)) =~= bytes.skip(from + n));
    // The sequence at `from` either ends before the cut, and is whole in the
    // cut bytes too, or goes on beyond it, and is the one that is truncated.
    if from + n < cut {
        lemma_cut_truncated_from(bytes, from + n, cut);
    }
}

} // verus!
