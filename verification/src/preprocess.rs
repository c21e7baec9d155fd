//! Shrinking a pattern and a text before the search, without changing
//! whether they match.
//!
//! Two rewrites: runs of `*` are collapsed to one `*`, and the graphemes at
//! the start and at the end of the pattern that need no search, because each
//! can only stand for the text grapheme beside it, are taken off together
//! with those text graphemes.
use vstd::prelude::*;
use crate::grapheme::{is_any_one, is_star, same_grapheme, star, Grapheme};
use crate::laws::lemma_second_star_changes_nothing;
use crate::semantics::{
    lemma_first_single, lemma_last_single, lemma_last_star, stands_for_one, wildcard_matches,
};

verus! {

/// The pattern without each `*` that comes right after another `*`.
pub open spec fn collapse_stars(pattern: Seq<Grapheme>) -> Seq<Grapheme>
    decreases pattern.len(),
{
    if pattern.len() == 0 {
        pattern
    } else if pattern.len() >= 2 && pattern.last() == star() && pattern[pattern.len() - 2]
        == star() {
        collapse_stars(pattern.drop_last())
    } else {
        collapse_stars(pattern.drop_last()).push(pattern.last())
    }
}

/// Whether a pattern grapheme and the text grapheme beside it can be taken
/// off together: the pattern grapheme is no `*`, and it stands for the text
/// grapheme.
pub open spec fn strippable(p: Grapheme, t: Grapheme) -> bool {
    p != star() && stands_for_one(p, t)
}

/// Pattern and text without their longest common start of strippable
/// pairs.
pub open spec fn strip_front(pattern: Seq<Grapheme>, text: Seq<Grapheme>) -> (
    Seq<Grapheme>,
    Seq<Grapheme>,
)
    decreases pattern.len(),
{
    if pattern.len() > 0 && text.len() > 0 && strippable(pattern.first(), text.first()) {
        strip_front(pattern.drop_first(), text.drop_first())
    } else {
        (pattern, text)
    }
}

/// Pattern and text without their longest common end of strippable pairs.
pub open spec fn strip_back(pattern: Seq<Grapheme>, text: Seq<Grapheme>) -> (
    Seq<Grapheme>,
    Seq<Grapheme>,
)
    decreases pattern.len(),
{
    if pattern.len() > 0 && text.len() > 0 && strippable(pattern.last(), text.last()) {
        strip_back(pattern.drop_last(), text.drop_last())
    } else {
        (pattern, text)
    }
}

/// Pattern and text stripped at the start, and what is left of them
/// stripped at the end.
pub open spec fn strip_affixes(pattern: Seq<Grapheme>, text: Seq<Grapheme>) -> (
    Seq<Grapheme>,
    Seq<Grapheme>,
) {
    let (p, t) = strip_front(pattern, text);
    strip_back(p, t)
}

/// Whether no `*` in a pattern comes right after another.
pub open spec fn no_star_run(pattern: Seq<Grapheme>) -> bool {
    forall|i: int|
        0 < i < pattern.len() ==> !(#[trigger] pattern[i] == star() && pattern[i - 1] == star())
}

/// Collapsing keeps the last grapheme of a pattern in its place, and leaves
/// no `*` right after another.
pub proof fn lemma_collapse_stars_shape(pattern: Seq<Grapheme>)
    ensures
        no_star_run(collapse_stars(pattern)),
        collapse_stars(pattern).len() <= pattern.len(),
        pattern.len() > 0 ==> collapse_stars(pattern).len() > 0 && collapse_stars(pattern).last()
            == pattern.last(),
    decreases pattern.len(),
{
    if pattern.len() > 0 {
        lemma_collapse_stars_shape(pattern.drop_last());
    }
}

/// A pattern in which no `*` comes right after another is left as it is.
pub proof fn lemma_collapse_stars_leaves_single_stars(pattern: Seq<Grapheme>)
    requires
        no_star_run(pattern),
    ensures
        collapse_stars(pattern) == pattern,
    decreases pattern.len(),
{
    if pattern.len() > 0 {
        let rest = pattern.drop_last();
        assert forall|i: int| 0 < i < rest.len() implies !(#[trigger] rest[i] == star() && rest[i
            - 1] == star()) by {
            assert(rest[i] == pattern[i] && rest[i - 1] == pattern[i - 1]);
        }
        lemma_collapse_stars_leaves_single_stars(rest);
        assert(pattern =~= rest.push(pattern.last()));
    }
}

/// Collapsing twice is the same as collapsing once.
pub proof fn lemma_collapse_stars_once_is_enough(pattern: Seq<Grapheme>)
    ensures
        collapse_stars(collapse_stars(pattern)) == collapse_stars(pattern),
{
    lemma_collapse_stars_shape(pattern);
    lemma_collapse_stars_leaves_single_stars(collapse_stars(pattern));
}

/// A pattern matches the same texts before and after its runs of `*` are
/// collapsed.
pub proof fn lemma_collapse_stars_keeps_matches(pattern: Seq<Grapheme>, text: Seq<Grapheme>)
    ensures
        wildcard_matches(collapse_stars(pattern), text) == wildcard_matches(pattern, text),
    decreases pattern.len(), text.len(),
{
    if pattern.len() > 0 {
        let rest = pattern.drop_last();
        let last = pattern.last();
        let collapsed = collapse_stars(pattern);
        assert(pattern =~= rest.push(last));
        lemma_collapse_stars_keeps_matches(rest, text);
        if pattern.len() >= 2 && last == star() && pattern[pattern.len() - 2] == star() {
            let before = rest.drop_last();
            assert(before.push(star()).push(star()) + Seq::empty() =~= pattern);
            assert(before.push(star()) + Seq::empty() =~= rest);
            lemma_second_star_changes_nothing(before, Seq::empty(), text);
        } else {
            assert(collapsed.drop_last() =~= collapse_stars(rest));
            if last == star() {
                lemma_last_star(collapsed, text);
                lemma_last_star(pattern, text);
                if text.len() > 0 {
                    lemma_collapse_stars_keeps_matches(pattern, text.drop_last());
                }
            } else {
                lemma_last_single(collapsed, text);
                lemma_last_single(pattern, text);
                if text.len() > 0 {
                    lemma_collapse_stars_keeps_matches(rest, text.drop_last());
                }
            }
        }
    }
}

/// What stripping at the start takes off is a run of strippable pairs, the
/// same number from the pattern as from the text, and the longest there is:
/// it ends where the pattern or the text ends, or before a pair that cannot
/// be stripped.
pub proof fn lemma_strip_front_is_longest(pattern: Seq<Grapheme>, text: Seq<Grapheme>)
    ensures
        ({
            let taken = pattern.len() - strip_front(pattern, text).0.len();
            &&& 0 <= taken <= pattern.len()
            &&& taken <= text.len()
            &&& strip_front(pattern, text) == (pattern.skip(taken), text.skip(taken))
            &&& forall|i: int| 0 <= i < taken ==> strippable(#[trigger] pattern[i], text[i])
            &&& taken < pattern.len() && taken < text.len() ==> !strippable(
                pattern[taken],
                text[taken],
            )
        }),
    decreases pattern.len(),
{
    if pattern.len() > 0 && text.len() > 0 && strippable(pattern.first(), text.first()) {
        let p = pattern.drop_first();
        let t = text.drop_first();
        lemma_strip_front_is_longest(p, t);
        let taken = p.len() - strip_front(p, t).0.len();
        assert(p.skip(taken) =~= pattern.skip(taken + 1));
        assert(t.skip(taken) =~= text.skip(taken + 1));
        assert forall|i: int| 0 <= i < taken + 1 implies strippable(
            #[trigger] pattern[i],
            text[i],
        ) by {
            if i > 0 {
                assert(strippable(p[i - 1], t[i - 1]));
            }
        }
    } else {
        assert(pattern.skip(0) =~= pattern);
        assert(text.skip(0) =~= text);
    }
}

/// What stripping at the end takes off is a run of strippable pairs, the
/// same number from the pattern as from the text, and the longest there is:
/// it begins where the pattern or the text begins, or after a pair that
/// cannot be stripped.
pub proof fn lemma_strip_back_is_longest(pattern: Seq<Grapheme>, text: Seq<Grapheme>)
    ensures
        ({
            let taken = pattern.len() - strip_back(pattern, text).0.len();
            &&& 0 <= taken <= pattern.len()
            &&& taken <= text.len()
            &&& strip_back(pattern, text) == (
                pattern.take(pattern.len() - taken),
                text.take(text.len() - taken),
            )
            &&& forall|i: int|
                pattern.len() - taken <= i < pattern.len() ==> strippable(
                    #[trigger] pattern[i],
                    text[i - pattern.len() + text.len()],
                )
            &&& taken < pattern.len() && taken < text.len() ==> !strippable(
                pattern[pattern.len() - 1 - taken],
                text[text.len() - 1 - taken],
            )
        }),
    decreases pattern.len(),
{
    if pattern.len() > 0 && text.len() > 0 && strippable(pattern.last(), text.last()) {
        let p = pattern.drop_last();
        let t = text.drop_last();
        lemma_strip_back_is_longest(p, t);
        let taken = p.len() - strip_back(p, t).0.len();
        assert(p.take(p.len() - taken) =~= pattern.take(pattern.len() - (taken + 1)));
        assert(t.take(t.len() - taken) =~= text.take(text.len() - (taken + 1)));
        assert forall|i: int| pattern.len() - (taken + 1) <= i < pattern.len() implies strippable(
            #[trigger] pattern[i],
            text[i - pattern.len() + text.len()],
        ) by {
            if i < p.len() {
                assert(strippable(p[i], t[i - p.len() + t.len()]));
            }
        }
    } else {
        assert(pattern.take(pattern.len() as int) =~= pattern);
        assert(text.take(text.len() as int) =~= text);
    }
}

/// Stripping at the start does not change whether pattern and text match.
pub proof fn lemma_strip_front_keeps_match(pattern: Seq<Grapheme>, text: Seq<Grapheme>)
    ensures
        wildcard_matches(strip_front(pattern, text).0, strip_front(pattern, text).1)
            == wildcard_matches(pattern, text),
    decreases pattern.len(),
{
    if pattern.len() > 0 && text.len() > 0 && strippable(pattern.first(), text.first()) {
        lemma_first_single(pattern, text);
        lemma_strip_front_keeps_match(pattern.drop_first(), text.drop_first());
    }
}

/// Stripping at the end does not change whether pattern and text match.
pub proof fn lemma_strip_back_keeps_match(pattern: Seq<Grapheme>, text: Seq<Grapheme>)
    ensures
        wildcard_matches(strip_back(pattern, text).0, strip_back(pattern, text).1)
            == wildcard_matches(pattern, text),
    decreases pattern.len(),
{
    if pattern.len() > 0 && text.len() > 0 && strippable(pattern.last(), text.last()) {
        lemma_last_single(pattern, text);
        lemma_strip_back_keeps_match(pattern.drop_last(), text.drop_last());
    }
}

/// Collapses every run of `*` in a pattern to a single `*`.
///
/// The pattern that comes back matches exactly the texts that the pattern
/// given matches.
pub fn remove_duplicate_stars<'a>(pattern: Vec<&'a str>) -> (collapsed: Vec<&'a str>)
    ensures
        collapsed.deep_view() == collapse_stars(pattern.deep_view()),
        no_star_run(collapsed.deep_view()),
        forall|text: Seq<Grapheme>| #[trigger]
            wildcard_matches(collapsed.deep_view(), text) == wildcard_matches(
                pattern.deep_view(),
                text,
            ),
{
    let mut collapsed: Vec<&'a str> = Vec::new();
    let mut i: usize = 0;
    let mut after_star = false;
    while i < pattern.len()
        invariant
            i <= pattern.len(),
            collapsed.deep_view() == collapse_stars(pattern.deep_view().take(i as int)),
            after_star == (i > 0 && pattern.deep_view()[i - 1] == star()),
        decreases pattern.len() - i,
    {
        let g = pattern[i];
        let this_star = is_star(g);
        assert(pattern.deep_view().take(i + 1).drop_last() =~= pattern.deep_view().take(
            i as int,
        ));
        if !(this_star && after_star) {
            collapsed.push(g);
        }
        after_star = this_star;
        i += 1;
    }
    proof {
        assert(pattern.deep_view().take(pattern.len() as int) =~= pattern.deep_view());
        lemma_collapse_stars_shape(pattern.deep_view());
        assert forall|text: Seq<Grapheme>| #[trigger]
            wildcard_matches(collapsed.deep_view(), text) == wildcard_matches(
                pattern.deep_view(),
                text,
            ) by {
            lemma_collapse_stars_keeps_matches(pattern.deep_view(), text);
        }
    }
    collapsed
}

/// Whether a pattern grapheme and the text grapheme beside it can be taken
/// off together.
fn can_strip(p: &str, t: &str) -> (yes: bool)
    ensures
        yes == strippable(p@, t@),
{
    if is_star(p) {
        false
    } else {
        is_any_one(p) || same_grapheme(p, t)
    }
}

/// Takes off the start and the end of a pattern and a text what needs no
/// search.
///
/// From the start, pairs of a pattern grapheme and the text grapheme beside
/// it are taken off for as long as the pattern grapheme is no `*` and stands
/// for the text grapheme; then the same from the end of what is left. What
/// comes back matches exactly when what was given does.
pub fn remove_matching_start_and_end<'a, 'b>(
    pattern: Vec<&'a str>,
    text: Vec<&'b str>,
) -> (stripped: (Vec<&'a str>, Vec<&'b str>))
    ensures
        (stripped.0.deep_view(), stripped.1.deep_view()) == strip_affixes(
            pattern.deep_view(),
            text.deep_view(),
        ),
        wildcard_matches(stripped.0.deep_view(), stripped.1.deep_view()) == wildcard_matches(
            pattern.deep_view(),
            text.deep_view(),
        ),
{
    let ghost p = pattern.deep_view();
    let ghost t = text.deep_view();
    let mut start: usize = 0;
    assert(p.skip(0) =~= p && t.skip(0) =~= t);
    while start < pattern.len() && start < text.len() && can_strip(pattern[start], text[start])
        invariant
            p == pattern.deep_view(),
            t == text.deep_view(),
            start <= pattern.len(),
            start <= text.len(),
            strip_front(p, t) == strip_front(p.skip(start as int), t.skip(start as int)),
        decreases pattern.len() - start,
    {
        assert(p.skip(start as int).drop_first() =~= p.skip(start + 1));
        assert(t.skip(start as int).drop_first() =~= t.skip(start + 1));
        start += 1;
    }
    let ghost p1 = p.skip(start as int);
    let ghost t1 = t.skip(start as int);
    let mut pattern_end: usize = pattern.len();
    let mut text_end: usize = text.len();
    while pattern_end > start && text_end > start && can_strip(
        pattern[pattern_end - 1],
        text[text_end - 1],
    )
        invariant
            p == pattern.deep_view(),
            t == text.deep_view(),
            start <= pattern_end <= pattern.len(),
            start <= text_end <= text.len(),
            strip_back(p1, t1) == strip_back(
                p.subrange(start as int, pattern_end as int),
                t.subrange(start as int, text_end as int),
            ),
        decreases pattern_end,
    {
        assert(p.subrange(start as int, pattern_end as int).drop_last() =~= p.subrange(
            start as int,
            pattern_end - 1,
        ));
        assert(t.subrange(start as int, text_end as int).drop_last() =~= t.subrange(
            start as int,
            text_end - 1,
        ));
        pattern_end -= 1;
        text_end -= 1;
    }
    proof {
        lemma_strip_front_keeps_match(p, t);
        lemma_strip_back_keeps_match(p1, t1);
    }
    let mut pattern = pattern;
    let mut text = text;
    pattern.truncate(pattern_end);
    text.truncate(text_end);
    let kept_pattern = pattern.split_off(start);
    let kept_text = text.split_off(start);
    assert(kept_pattern.deep_view() =~= p.subrange(start as int, pattern_end as int));
    assert(kept_text.deep_view() =~= t.subrange(start as int, text_end as int));
    (kept_pattern, kept_text)
}

/// Shrinks a pattern and a text before the search: collapses the runs of
/// `*` in the pattern, then strips both at the start and at the end.
///
/// What comes back matches exactly when what was given does.
pub fn preprocessing<'a, 'b>(
    pattern: Vec<&'a str>,
    text: Vec<&'b str>,
) -> (shrunk: (Vec<&'a str>, Vec<&'b str>))
    ensures
        (shrunk.0.deep_view(), shrunk.1.deep_view()) == strip_affixes(
            collapse_stars(pattern.deep_view()),
            text.deep_view(),
        ),
        wildcard_matches(shrunk.0.deep_view(), shrunk.1.deep_view()) == wildcard_matches(
            pattern.deep_view(),
            text.deep_view(),
        ),
{
    let collapsed = remove_duplicate_stars(pattern);
    remove_matching_start_and_end(collapsed, text)
}

} // verus!
