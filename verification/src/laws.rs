//! What follows from the meaning of a match, for every pattern and text.
use vstd::prelude::*;
use crate::grapheme::{any_one, star, Grapheme};
use crate::semantics::{
    aligns, lemma_empty_pattern, lemma_last_single, lemma_last_star, stands_for,
    wildcard_matches,
};

verus! {

/// `count` times the same grapheme.
pub open spec fn repeated(g: Grapheme, count: nat) -> Seq<Grapheme> {
    Seq::new(count, |i: int| g)
}

/// Whether a pattern holds no wildcard.
pub open spec fn is_literal(pattern: Seq<Grapheme>) -> bool {
    forall|i: int|
        0 <= i < pattern.len() ==> (#[trigger] pattern[i]) != star() && pattern[i] != any_one()
}

/// Whether a pattern holds nothing but `*`.
pub open spec fn is_all_stars(pattern: Seq<Grapheme>) -> bool {
    forall|i: int| 0 <= i < pattern.len() ==> #[trigger] pattern[i] == star()
}

/// The empty text is matched by the patterns that hold nothing but `*`, the
/// empty pattern among them, and by no other.
pub proof fn lemma_empty_text(pattern: Seq<Grapheme>)
    ensures
        wildcard_matches(pattern, Seq::empty()) <==> is_all_stars(pattern),
    decreases pattern.len(),
{
    let text = Seq::<Grapheme>::empty();
    if pattern.len() == 0 {
        assert(pattern =~= Seq::empty());
        lemma_empty_pattern(text);
    } else {
        let rest = pattern.drop_last();
        lemma_empty_text(rest);
        if pattern.last() == star() {
            lemma_last_star(pattern, text);
            if is_all_stars(rest) {
                assert forall|i: int| 0 <= i < pattern.len() implies #[trigger] pattern[i]
                    == star() by {
                    if i < rest.len() {
                        assert(rest[i] == pattern[i]);
                    }
                }
            }
            if is_all_stars(pattern) {
                assert forall|i: int| 0 <= i < rest.len() implies #[trigger] rest[i]
                    == star() by {
                    assert(rest[i] == pattern[i]);
                }
            }
        } else {
            lemma_last_single(pattern, text);
        }
    }
}

/// The pattern `*` matches every text.
pub proof fn lemma_lone_star_matches_everything(text: Seq<Grapheme>)
    ensures
        wildcard_matches(seq![star()], text),
{
    let cuts = seq![0int, text.len() as int];
    assert(aligns(seq![star()], text, cuts));
}

/// A pattern of one or more `*` and nothing else matches every text, the
/// empty text included.
pub proof fn lemma_stars_match_everything(count: nat, text: Seq<Grapheme>)
    requires
        count >= 1,
    ensures
        wildcard_matches(repeated(star(), count), text),
    decreases count,
{
    let stars = repeated(star(), count);
    if count == 1 {
        assert(stars =~= seq![star()]);
        lemma_lone_star_matches_everything(text);
    } else {
        assert(stars.drop_last() =~= repeated(star(), (count - 1) as nat));
        lemma_stars_match_everything((count - 1) as nat, text);
        lemma_last_star(stars, text);
    }
}

/// A pattern of `count` times `?` and nothing else matches exactly the
/// texts of `count` graphemes: not one fewer, not one more.
pub proof fn lemma_question_marks_count_graphemes(count: nat, text: Seq<Grapheme>)
    ensures
        wildcard_matches(repeated(any_one(), count), text) <==> text.len() == count,
    decreases count,
{
    let marks = repeated(any_one(), count);
    if count == 0 {
        assert(marks =~= Seq::empty());
        lemma_empty_pattern(text);
    } else {
        assert(any_one()[0] != star()[0]);
        assert(marks.drop_last() =~= repeated(any_one(), (count - 1) as nat));
        lemma_last_single(marks, text);
        lemma_question_marks_count_graphemes((count - 1) as nat, text.drop_last());
    }
}

/// Every sequence of graphemes, read as a pattern, matches itself read as a
/// text: each `*` in it stands for the `*` in its place, each `?` for the
/// `?`, and everything else for itself.
pub proof fn lemma_matches_itself(graphemes: Seq<Grapheme>)
    ensures
        wildcard_matches(graphemes, graphemes),
{
    let cuts = Seq::new(graphemes.len() + 1, |i: int| i);
    assert forall|i: int| 0 <= i < graphemes.len() implies stands_for(
        #[trigger] graphemes[i],
        graphemes.subrange(cuts[i], cuts[i + 1]),
    ) by {
        assert(graphemes.subrange(cuts[i], cuts[i + 1])[0] == graphemes[i]);
    }
    assert(aligns(graphemes, graphemes, cuts));
}

/// A pattern without wildcards matches one text only: itself. So it matches
/// neither a text that goes on after it nor one that has something before
/// it.
pub proof fn lemma_literal_matches_only_itself(pattern: Seq<Grapheme>, text: Seq<Grapheme>)
    requires
        is_literal(pattern),
    ensures
        wildcard_matches(pattern, text) <==> pattern == text,
    decreases pattern.len(),
{
    if pattern.len() == 0 {
        assert(pattern =~= Seq::empty());
        lemma_empty_pattern(text);
        if text.len() == 0 {
            assert(pattern =~= text);
        }
    } else {
        let last = pattern[pattern.len() - 1];
        let rest = pattern.drop_last();
        lemma_last_single(pattern, text);
        if text.len() > 0 {
            assert forall|i: int| 0 <= i < rest.len() implies (#[trigger] rest[i]) != star()
                && rest[i] != any_one() by {
                assert(rest[i] == pattern[i]);
            }
            lemma_literal_matches_only_itself(rest, text.drop_last());
            if last == text.last() && rest == text.drop_last() {
                assert(pattern =~= rest.push(last));
                assert(text =~= text.drop_last().push(text.last()));
            }
        }
    }
}

/// A `*` right after a `*` changes nothing: with or without it, the pattern
/// matches the same texts.
pub proof fn lemma_second_star_changes_nothing(
    before: Seq<Grapheme>,
    after: Seq<Grapheme>,
    text: Seq<Grapheme>,
)
    ensures
        wildcard_matches(before.push(star()).push(star()) + after, text) == wildcard_matches(
            before.push(star()) + after,
            text,
        ),
    decreases after.len(), text.len(),
{
    let two = before.push(star()).push(star()) + after;
    let one = before.push(star()) + after;
    if after.len() == 0 {
        assert(two.drop_last() =~= one);
        lemma_last_star(two, text);
        lemma_last_star(one, text);
        if text.len() > 0 {
            lemma_second_star_changes_nothing(before, after, text.drop_last());
        }
    } else {
        assert(two.drop_last() =~= before.push(star()).push(star()) + after.drop_last());
        assert(one.drop_last() =~= before.push(star()) + after.drop_last());
        if after.last() == star() {
            lemma_last_star(two, text);
            lemma_last_star(one, text);
            lemma_second_star_changes_nothing(before, after.drop_last(), text);
            if text.len() > 0 {
                lemma_second_star_changes_nothing(before, after, text.drop_last());
            }
        } else {
            lemma_last_single(two, text);
            lemma_last_single(one, text);
            lemma_second_star_changes_nothing(before, after.drop_last(), text.drop_last());
        }
    }
}

/// A run of `*` is worth a single `*`: a pattern with `count` of them in a
/// row, `count` at least one, matches the same texts as the pattern with one
/// `*` in their place.
pub proof fn lemma_star_run_is_one_star(
    before: Seq<Grapheme>,
    count: nat,
    after: Seq<Grapheme>,
    text: Seq<Grapheme>,
)
    requires
        count >= 1,
    ensures
        wildcard_matches(before + repeated(star(), count) + after, text) == wildcard_matches(
            before + seq![star()] + after,
            text,
        ),
    decreases count,
{
    if count == 1 {
        assert(repeated(star(), count) =~= seq![star()]);
    } else {
        let shorter = before + repeated(star(), (count - 2) as nat);
        assert(before + repeated(star(), count) + after =~= shorter.push(star()).push(star())
            + after);
        assert(before + repeated(star(), (count - 1) as nat) + after =~= shorter.push(star())
            + after);
        lemma_second_star_changes_nothing(shorter, after, text);
        lemma_star_run_is_one_star(before, (count - 1) as nat, after, text);
    }
}

} // verus!
