//! What it means for a pattern to match a text.
//!
//! The meaning is stated once, and independently of any algorithm: a
//! pattern matches a text when the text can be cut into consecutive pieces,
//! one for each grapheme of the pattern, such that every piece is one that
//! its pattern grapheme stands for. Everything else in this crate is proved
//! against that statement.
use vstd::prelude::*;
use crate::grapheme::{any_one, star, Grapheme};

verus! {

/// Whether the pattern grapheme `p` stands for the text grapheme `t`:
/// `?` stands for every grapheme, any other grapheme for itself.
///
/// `*` is not meant to be asked about here; it stands for runs, not for
/// single graphemes.
pub open spec fn stands_for_one(p: Grapheme, t: Grapheme) -> bool {
    p == any_one() || p == t
}

/// Whether the pattern grapheme `p` stands for the run `piece` of text
/// graphemes.
pub open spec fn stands_for(p: Grapheme, piece: Seq<Grapheme>) -> bool {
    if p == star() {
        true
    } else {
        piece.len() == 1 && stands_for_one(p, piece[0])
    }
}

/// Whether `cuts` splits `text` into consecutive pieces, the `i`-th running
/// from `cuts[i]` to `cuts[i + 1]`, such that the `i`-th grapheme of
/// `pattern` stands for the `i`-th piece.
pub open spec fn aligns(pattern: Seq<Grapheme>, text: Seq<Grapheme>, cuts: Seq<int>) -> bool {
    &&& cuts.len() == pattern.len() + 1
    &&& cuts.first() == 0
    &&& cuts.last() == text.len()
    &&& forall|i: int, j: int| 0 <= i <= j < cuts.len() ==> cuts[i] <= cuts[j]
    &&& forall|i: int|
        0 <= i < pattern.len() ==> stands_for(
            #[trigger] pattern[i],
            text.subrange(cuts[i], cuts[i + 1]),
        )
}

/// Whether `pattern` matches the whole of `text`.
pub open spec fn wildcard_matches(pattern: Seq<Grapheme>, text: Seq<Grapheme>) -> bool {
    exists|cuts: Seq<int>| aligns(pattern, text, cuts)
}

/// The empty pattern matches the empty text and no other.
pub proof fn lemma_empty_pattern(text: Seq<Grapheme>)
    ensures
        wildcard_matches(Seq::empty(), text) <==> text.len() == 0,
{
    if text.len() == 0 {
        assert(aligns(Seq::empty(), text, seq![0int]));
    }
}

/// A pattern that ends in a grapheme other than `*` matches a text exactly
/// when that grapheme stands for the last grapheme of the text and the rest
/// of the pattern matches the rest of the text.
pub proof fn lemma_last_single(pattern: Seq<Grapheme>, text: Seq<Grapheme>)
    requires
        pattern.len() > 0,
        pattern.last() != star(),
    ensures
        wildcard_matches(pattern, text) <==> {
            &&& text.len() > 0
            &&& stands_for_one(pattern.last(), text.last())
            &&& wildcard_matches(pattern.drop_last(), text.drop_last())
        },
{
    let n = pattern.len() as int;
    if wildcard_matches(pattern, text) {
        // The last piece is the last grapheme of the text; the cuts before
        // it serve for what is left.
        let cuts = choose|cuts: Seq<int>| aligns(pattern, text, cuts);
        let shorter = cuts.drop_last();
        assert forall|i: int| 0 <= i < n - 1 implies stands_for(
            #[trigger] pattern.drop_last()[i],
            text.drop_last().subrange(shorter[i], shorter[i + 1]),
        ) by {
            assert(text.drop_last().subrange(shorter[i], shorter[i + 1]) =~= text.subrange(
                cuts[i],
                cuts[i + 1],
            ));
        }
        assert(aligns(pattern.drop_last(), text.drop_last(), shorter));
    }
    if text.len() > 0 && stands_for_one(pattern.last(), text.last()) && wildcard_matches(
        pattern.drop_last(),
        text.drop_last(),
    ) {
        // One more cut, at the end of the text, makes the last grapheme a
        // piece of its own.
        let shorter = choose|cuts: Seq<int>| aligns(pattern.drop_last(), text.drop_last(), cuts);
        let cuts = shorter.push(text.len() as int);
        assert forall|i: int| 0 <= i < n implies stands_for(
            #[trigger] pattern[i],
            text.subrange(cuts[i], cuts[i + 1]),
        ) by {
            if i < n - 1 {
                assert(text.drop_last().subrange(shorter[i], shorter[i + 1]) =~= text.subrange(
                    cuts[i],
                    cuts[i + 1],
                ));
                assert(stands_for(
                    pattern.drop_last()[i],
                    text.drop_last().subrange(shorter[i], shorter[i + 1]),
                ));
            }
        }
        assert(aligns(pattern, text, cuts));
    }
}

/// A pattern that starts with a grapheme other than `*` matches a text
/// exactly when that grapheme stands for the first grapheme of the text and
/// the rest of the pattern matches the rest of the text.
pub proof fn lemma_first_single(pattern: Seq<Grapheme>, text: Seq<Grapheme>)
    requires
        pattern.len() > 0,
        pattern.first() != star(),
    ensures
        wildcard_matches(pattern, text) <==> {
            &&& text.len() > 0
            &&& stands_for_one(pattern.first(), text.first())
            &&& wildcard_matches(pattern.drop_first(), text.drop_first())
        },
{
    let n = pattern.len() as int;
    if wildcard_matches(pattern, text) {
        // The first piece is the first grapheme of the text; the cuts after
        // it, moved one to the left, serve for what is left.
        let cuts = choose|cuts: Seq<int>| aligns(pattern, text, cuts);
        let later = Seq::new(n as nat, |i: int| cuts[i + 1] - 1);
        assert forall|i: int| 0 <= i < n - 1 implies stands_for(
            #[trigger] pattern.drop_first()[i],
            text.drop_first().subrange(later[i], later[i + 1]),
        ) by {
            assert(text.drop_first().subrange(later[i], later[i + 1]) =~= text.subrange(
                cuts[i + 1],
                cuts[i + 2],
            ));
        }
        assert(aligns(pattern.drop_first(), text.drop_first(), later));
    }
    if text.len() > 0 && stands_for_one(pattern.first(), text.first()) && wildcard_matches(
        pattern.drop_first(),
        text.drop_first(),
    ) {
        // One more cut, at the start of the text, with the others moved one
        // to the right, makes the first grapheme a piece of its own.
        let later = choose|cuts: Seq<int>| aligns(pattern.drop_first(), text.drop_first(), cuts);
        let cuts = Seq::new(
            (n + 1) as nat,
            |i: int|
                if i == 0 {
                    0
                } else {
                    later[i - 1] + 1
                },
        );
        assert forall|i: int| 0 <= i < n implies stands_for(
            #[trigger] pattern[i],
            text.subrange(cuts[i], cuts[i + 1]),
        ) by {
            if i > 0 {
                assert(text.drop_first().subrange(later[i - 1], later[i]) =~= text.subrange(
                    cuts[i],
                    cuts[i + 1],
                ));
                assert(stands_for(
                    pattern.drop_first()[i - 1],
                    text.drop_first().subrange(later[i - 1], later[i]),
                ));
            }
        }
        assert(aligns(pattern, text, cuts));
    }
}

/// A pattern that ends in `*` matches a text exactly when the pattern
/// without that `*` matches the text, or the text is not empty and the
/// pattern matches the text without its last grapheme.
pub proof fn lemma_last_star(pattern: Seq<Grapheme>, text: Seq<Grapheme>)
    requires
        pattern.len() > 0,
        pattern.last() == star(),
    ensures
        wildcard_matches(pattern, text) <==> {
            ||| wildcard_matches(pattern.drop_last(), text)
            ||| text.len() > 0 && wildcard_matches(pattern, text.drop_last())
        },
{
    let n = pattern.len() as int;
    if wildcard_matches(pattern, text) {
        let cuts = choose|cuts: Seq<int>| aligns(pattern, text, cuts);
        if cuts[n - 1] == text.len() {
            // The `*` stands for nothing: the cuts before it serve for the
            // pattern without it.
            let shorter = cuts.drop_last();
            assert forall|i: int| 0 <= i < n - 1 implies stands_for(
                #[trigger] pattern.drop_last()[i],
                text.subrange(shorter[i], shorter[i + 1]),
            ) by {
                assert(stands_for(pattern[i], text.subrange(cuts[i], cuts[i + 1])));
            }
            assert(aligns(pattern.drop_last(), text, shorter));
        } else {
            // The `*` stands for something: let it stand for one grapheme
            // less.
            let fewer = cuts.update(n, text.len() - 1);
            assert forall|i: int| 0 <= i < n implies stands_for(
                #[trigger] pattern[i],
                text.drop_last().subrange(fewer[i], fewer[i + 1]),
            ) by {
                if i < n - 1 {
                    assert(text.drop_last().subrange(fewer[i], fewer[i + 1]) =~= text.subrange(
                        cuts[i],
                        cuts[i + 1],
                    ));
                }
            }
            assert(aligns(pattern, text.drop_last(), fewer));
        }
    }
    if wildcard_matches(pattern.drop_last(), text) {
        // Let the `*` stand for nothing.
        let shorter = choose|cuts: Seq<int>| aligns(pattern.drop_last(), text, cuts);
        let cuts = shorter.push(text.len() as int);
        assert forall|i: int| 0 <= i < n implies stands_for(
            #[trigger] pattern[i],
            text.subrange(cuts[i], cuts[i + 1]),
        ) by {
            if i < n - 1 {
                assert(stands_for(
                    pattern.drop_last()[i],
                    text.subrange(shorter[i], shorter[i + 1]),
                ));
            }
        }
        assert(aligns(pattern, text, cuts));
    }
    if text.len() > 0 && wildcard_matches(pattern, text.drop_last()) {
        // Let the `*` stand for one grapheme more.
        let fewer = choose|cuts: Seq<int>| aligns(pattern, text.drop_last(), cuts);
        let cuts = fewer.update(n, text.len() as int);
        assert forall|i: int| 0 <= i < n implies stands_for(
            #[trigger] pattern[i],
            text.subrange(cuts[i], cuts[i + 1]),
        ) by {
            if i < n - 1 {
                assert(text.drop_last().subrange(fewer[i], fewer[i + 1]) =~= text.subrange(
                    cuts[i],
                    cuts[i + 1],
                ));
                assert(stands_for(
                    pattern[i],
                    text.drop_last().subrange(fewer[i], fewer[i + 1]),
                ));
            }
        }
        assert(aligns(pattern, text, cuts));
    }
}

} // verus!
