//! Decomposition of text into characters, grapheme clusters and codepoints.

use crate::convert::{is_scalar_value, lemma_char_is_scalar_value};
use unicode_segmentation::UnicodeSegmentation;
use vstd::prelude::*;

verus! {

/// The text of each string of `parts`, in order.
pub open spec fn texts_of(parts: Seq<String>) -> Seq<Seq<char>> {
    Seq::new(parts.len(), |i: int| parts[i]@)
}

/// The characters of `text`, each as a text of its own.
pub open spec fn characters_of(text: Seq<char>) -> Seq<Seq<char>> {
    Seq::new(text.len(), |i: int| seq![text[i]])
}

/// The codepoints of the characters of `text`.
pub open spec fn codepoints_of(text: Seq<char>) -> Seq<u32> {
    Seq::new(text.len(), |i: int| text[i] as u32)
}

/// The extended grapheme clusters of `text`, in order, as the segmentation
/// rules of Unicode set their boundaries.
pub uninterp spec fn grapheme_clusters(text: Seq<char>) -> Seq<Seq<char>>;

/// Whether `parts` cut `text` into pieces: none of them empty, and together,
/// in order, the whole text.
pub open spec fn is_segmentation_of(parts: Seq<Seq<char>>, text: Seq<char>) -> bool {
    &&& forall|i: int| 0 <= i < parts.len() ==> (#[trigger] parts[i]).len() > 0
    &&& parts.flatten() == text
}

/// `UnicodeSegmentation::graphemes` with extended clusters, each cluster
/// copied into a string of its own. The iterator hands out the slice between
/// one boundary and the next until the end of the text is reached, and each
/// boundary lies at least one character after the one before: so the
/// clusters are not empty and make up the text. Where the boundaries lie is
/// left to [`grapheme_clusters`].
#[verifier::external_body]
fn extended_graphemes(text: &str) -> (parts: Vec<String>)
    ensures
        texts_of(parts@) == grapheme_clusters(text@),
        is_segmentation_of(texts_of(parts@), text@),
{
    text.graphemes(true).map(|cluster| cluster.to_owned()).collect()
}

/// Splits `text` into its characters: one string for each scalar value, in
/// the order of the text.
pub fn get_chars(text: &str) -> (parts: Vec<String>)
    ensures
        texts_of(parts@) == characters_of(text@),
        parts.len() == text@.len(),
{
    let mut parts: Vec<String> = Vec::new();
    for c in it: text.chars()
        invariant
            it.seq() == text@,
            parts.len() == it.index(),
            forall|j: int| 0 <= j < parts.len() ==> (#[trigger] parts[j])@ == seq![text@[j]],
    {
        let mut part = String::new();
        part.push(c);
        parts.push(part);
    }
    parts
}

/// Splits `text` into its extended grapheme clusters, in the order of the
/// text. A base letter and the marks that combine with it stay together.
pub fn get_graphemes(text: &str) -> (parts: Vec<String>)
    ensures
        texts_of(parts@) == grapheme_clusters(text@),
        is_segmentation_of(texts_of(parts@), text@),
        parts.len() <= text@.len(),
{
    let parts = extended_graphemes(text);
    proof {
        lemma_parts_at_most_characters(texts_of(parts@), text@);
    }
    parts
}

/// Lists the codepoint of each character of `text`, in the order of the text.
pub fn get_codepoints(text: &str) -> (codepoints: Vec<u32>)
    ensures
        codepoints@ == codepoints_of(text@),
        codepoints.len() == text@.len(),
        forall|i: int|
            0 <= i < codepoints.len() ==> is_scalar_value(#[trigger] codepoints[i] as int),
{
    let mut codepoints: Vec<u32> = Vec::new();
    for c in it: text.chars()
        invariant
            it.seq() == text@,
            codepoints.len() == it.index(),
            forall|j: int|
                0 <= j < codepoints.len() ==> #[trigger] codepoints[j] == text@[j] as u32,
            forall|j: int|
                0 <= j < codepoints.len() ==> is_scalar_value(#[trigger] codepoints[j] as int),
    {
        proof {
            lemma_char_is_scalar_value(c);
        }
        codepoints.push(c as u32);
    }
    codepoints
}

/// Pieces that are not empty are at most as many as the characters they
/// make up.
pub proof fn lemma_parts_at_most_characters(parts: Seq<Seq<char>>, text: Seq<char>)
    requires
        is_segmentation_of(parts, text),
    ensures
        parts.len() <= text.len(),
    decreases parts.len(),
{
    if parts.len() > 0 {
        let rest = parts.drop_first();
        lemma_parts_at_most_characters(rest, rest.flatten());
    }
}

/// Every codepoint of a text is a scalar value: at most `0x10FFFF` and no
/// surrogate.
pub proof fn lemma_codepoints_are_scalar_values(text: Seq<char>)
    ensures
        forall|i: int|
            0 <= i < text.len() ==> is_scalar_value(#[trigger] codepoints_of(text)[i] as int),
{
    assert forall|i: int| 0 <= i < text.len() implies is_scalar_value(
        #[trigger] codepoints_of(text)[i] as int,
    ) by {
        lemma_char_is_scalar_value(text[i]);
    }
}

/// A text has as many codepoints as characters, and each codepoint is that
/// of the character in its place.
pub proof fn lemma_codepoints_match_characters(text: Seq<char>)
    ensures
        codepoints_of(text).len() == characters_of(text).len(),
        forall|i: int|
            0 <= i < text.len() ==> #[trigger] codepoints_of(text)[i] == characters_of(
                text,
            )[i][0] as u32,
{
}

} // verus!
