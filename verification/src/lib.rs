//! Wildcard matching on user-perceived characters.
//!
//! A pattern is a string in which `*` stands for any run of characters,
//! `?` for exactly one character, and everything else for itself. Both the
//! pattern and the text are read as sequences of grapheme clusters, so a
//! letter with its combining marks is one character.
use vstd::prelude::*;

pub mod grapheme;
pub mod laws;
pub mod matcher;
pub mod memo;
pub mod preprocess;
pub mod semantics;

use crate::grapheme::{
    any_one, grapheme_clusters, is_segmentation, lemma_segmentation_holds_no_other_chars,
    split_graphemes, star,
};
use crate::laws::{
    is_all_stars, is_literal, lemma_empty_text, lemma_literal_matches_only_itself,
    lemma_lone_star_matches_everything, lemma_matches_itself,
    lemma_question_marks_count_graphemes, repeated,
};
use crate::matcher::match_with_cache;
use crate::preprocess::preprocessing;
use crate::semantics::{lemma_empty_pattern, wildcard_matches};

verus! {

/// Checks whether a pattern with wildcards matches the whole of a text.
///
/// The wildcards are `*`, which stands for any number of characters, none
/// included, and `?`, which stands for exactly one character. A character
/// is an extended grapheme cluster, in the pattern as in the text.
///
/// Beyond the answer itself, the contract says how the two strings were
/// cut, and spells out what the answer comes to in a few cases: a text
/// matches itself; `*` matches everything; `?` matches the texts of one
/// character; the empty pattern matches the empty text only; the empty text
/// is matched by runs of `*` only; and a pattern without `*` and `?` matches
/// itself only.
pub fn is_wildcard_match(text: &str, pattern: &str) -> (matched: bool)
    ensures
        matched == wildcard_matches(
            grapheme_clusters(pattern@, true),
            grapheme_clusters(text@, true),
        ),
        is_segmentation(grapheme_clusters(pattern@, true), pattern@),
        is_segmentation(grapheme_clusters(text@, true), text@),
        pattern@ == text@ ==> matched,
        pattern@ == star() ==> matched,
        pattern@ == any_one() ==> matched == (grapheme_clusters(text@, true).len() == 1),
        pattern@.len() == 0 ==> matched == (text@.len() == 0),
        text@.len() == 0 ==> matched == is_all_stars(grapheme_clusters(pattern@, true)),
        !pattern@.contains('*') && !pattern@.contains('?') ==> matched == (pattern@ == text@),
{
    let pattern_graphemes = split_graphemes(pattern);
    let text_graphemes = split_graphemes(text);
    let matched = match_with_cache(&pattern_graphemes, &text_graphemes);
    proof {
        let p = pattern_graphemes.deep_view();
        let t = text_graphemes.deep_view();
        if pattern@ == text@ {
            lemma_matches_itself(p);
        }
        if pattern@ == star() {
            lemma_lone_star_matches_everything(t);
        }
        if pattern@ == any_one() {
            assert(p =~= repeated(any_one(), 1));
            lemma_question_marks_count_graphemes(1, t);
        }
        if pattern@.len() == 0 {
            lemma_empty_pattern(t);
        }
        if text@.len() == 0 {
            assert(t =~= Seq::empty());
            lemma_empty_text(p);
        }
        if !pattern@.contains('*') && !pattern@.contains('?') {
            assert forall|i: int| 0 <= i < p.len() implies (#[trigger] p[i]) != star() && p[i]
                != any_one() by {
                lemma_segmentation_holds_no_other_chars(p, pattern@, i, 0);
            }
            lemma_literal_matches_only_itself(p, t);
        }
    }
    matched
}

/// Gives the answer of [`is_wildcard_match`], but searches only what is left
/// of the pattern and the text once [`preprocessing`] has shrunk them.
pub fn is_wildcard_match_preprocessed(text: &str, pattern: &str) -> (matched: bool)
    ensures
        matched == wildcard_matches(
            grapheme_clusters(pattern@, true),
            grapheme_clusters(text@, true),
        ),
        is_segmentation(grapheme_clusters(pattern@, true), pattern@),
        is_segmentation(grapheme_clusters(text@, true), text@),
{
    let (pattern_graphemes, text_graphemes) = preprocessing(
        split_graphemes(pattern),
        split_graphemes(text),
    );
    match_with_cache(&pattern_graphemes, &text_graphemes)
}

} // verus!
