//! The search for a match: a table of results by position, filled in from
//! the position asked for back towards the empty prefixes.
//!
//! Positions are counted from one: position (`row`, `column`) stands for the
//! first `row - 1` graphemes of the pattern against the first `column - 1`
//! graphemes of the text, so (1, 1) stands for nothing against nothing. Row 0
//! and column 0 are a border around the table: the search may step onto it,
//! and finds `false` there.
//!
//! The search keeps its own stack of positions, so its depth is bounded by
//! the memory at hand rather than by the call stack, and it settles every
//! position at most once, so its work is bounded by the number of
//! positions.
use vstd::prelude::*;
use crate::grapheme::{any_one, is_any_one, is_star, same_grapheme, star, Grapheme};
use crate::memo::{Memo, Position};
use crate::semantics::{
    lemma_empty_pattern, lemma_last_single, lemma_last_star, wildcard_matches,
};

verus! {

/// What the table should hold at a position: `false` on the border and
/// beyond the pattern or the text, and elsewhere whether the first `row - 1`
/// graphemes of the pattern match the first `column - 1` graphemes of the
/// text.
pub open spec fn state_value(
    pattern: Seq<Grapheme>,
    text: Seq<Grapheme>,
    position: Position,
) -> bool {
    &&& 1 <= position.0 <= pattern.len() + 1
    &&& 1 <= position.1 <= text.len() + 1
    &&& wildcard_matches(pattern.take(position.0 - 1), text.take(position.1 - 1))
}

/// Whether every result in a table is the right one for this pattern and
/// text.
pub open spec fn agrees(
    memo: Map<Position, bool>,
    pattern: Seq<Grapheme>,
    text: Seq<Grapheme>,
) -> bool {
    forall|position: Position| #[trigger]
        memo.contains_key(position) ==> memo[position] == state_value(pattern, text, position)
}

/// Whether a table lies within the rows and columns that there are for a
/// pattern of `rows` graphemes and a text of `columns` graphemes: rows 0 to
/// `rows` + 1 and columns 0 to `columns` + 1.
pub open spec fn within_grid(memo: Map<Position, bool>, rows: nat, columns: nat) -> bool {
    forall|position: Position| #[trigger]
        memo.contains_key(position) ==> position.0 <= rows + 1 && position.1 <= columns + 1
}

/// The grapheme that a row or a column brings in: the last of the prefix it
/// stands for, or the empty grapheme where that prefix is empty.
pub open spec fn brought_in(graphemes: Seq<Grapheme>, index: int) -> Grapheme {
    if index >= 2 {
        graphemes[index - 2]
    } else {
        Seq::empty()
    }
}

/// Whether a pattern grapheme takes up the text grapheme beside it: it is
/// `?`, or the two are the same and no `*`.
pub open spec fn takes_one(p: Grapheme, t: Grapheme) -> bool {
    (p == t && t != star()) || p == any_one()
}

/// Whether two prefixes match, by their last graphemes.
proof fn lemma_prefix_rule(pattern: Seq<Grapheme>, text: Seq<Grapheme>, taken: int, read: int)
    requires
        0 <= taken <= pattern.len(),
        0 <= read <= text.len(),
    ensures
        wildcard_matches(pattern.take(taken), text.take(read)) == if taken == 0 {
            read == 0
        } else if pattern[taken - 1] == star() {
            ||| wildcard_matches(pattern.take(taken - 1), text.take(read))
            ||| read > 0 && wildcard_matches(pattern.take(taken), text.take(read - 1))
        } else {
            &&& read > 0
            &&& (pattern[taken - 1] == any_one() || pattern[taken - 1] == text[read - 1])
            &&& wildcard_matches(pattern.take(taken - 1), text.take(read - 1))
        },
{
    let p = pattern.take(taken);
    let t = text.take(read);
    if taken == 0 {
        assert(p =~= Seq::empty());
        lemma_empty_pattern(t);
    } else {
        assert(p.drop_last() =~= pattern.take(taken - 1));
        if read > 0 {
            assert(t.drop_last() =~= text.take(read - 1));
        }
        if pattern[taken - 1] == star() {
            lemma_last_star(p, t);
        } else {
            lemma_last_single(p, t);
        }
    }
}

/// How the result at a position follows from the results before it.
///
/// The border holds `false`, and (1, 1) holds `true`. Elsewhere, a pattern
/// grapheme that takes up the text grapheme beside it hands on the result
/// one row up and one column to the left; a `*` either stands for nothing
/// (one row up) or for one grapheme more than it did one column to the left;
/// and anything else fails.
pub proof fn lemma_state_rule(pattern: Seq<Grapheme>, text: Seq<Grapheme>, position: Position)
    requires
        position.0 <= pattern.len() + 1,
        position.1 <= text.len() + 1,
    ensures
        state_value(pattern, text, position) == {
            let (row, column) = position;
            let p = brought_in(pattern, row as int);
            let t = brought_in(text, column as int);
            if row == 0 || column == 0 {
                false
            } else if row == 1 && column == 1 {
                true
            } else if takes_one(p, t) {
                state_value(pattern, text, ((row - 1) as usize, (column - 1) as usize))
            } else if p == star() {
                ||| state_value(pattern, text, ((row - 1) as usize, column))
                ||| state_value(pattern, text, (row, (column - 1) as usize))
            } else {
                false
            }
        },
{
    let (row, column) = position;
    if row >= 1 && column >= 1 {
        lemma_prefix_rule(pattern, text, row - 1, column - 1);
        assert(star().len() == 1 && any_one().len() == 1);
        assert(star()[0] != any_one()[0]);
    }
}

/// Whether the search may go straight from the position `from` to the
/// position `to` in order to settle `from`, given what the table holds.
///
/// From a pattern grapheme that takes up the text grapheme beside it, the
/// search goes one row up and one column to the left. From a `*` it goes one
/// row up; one column to the left it goes only once the table holds `false`
/// one row up. From the border, from (1, 1) and from anything else it goes
/// nowhere.
pub open spec fn leads_to(
    pattern: Seq<Grapheme>,
    text: Seq<Grapheme>,
    memo: Map<Position, bool>,
    from: Position,
    to: Position,
) -> bool {
    let p = brought_in(pattern, from.0 as int);
    let t = brought_in(text, from.1 as int);
    let up = ((from.0 - 1) as usize, from.1);
    &&& 1 <= from.0 <= pattern.len() + 1
    &&& 1 <= from.1 <= text.len() + 1
    &&& from != (1usize, 1usize)
    &&& if takes_one(p, t) {
        to.0 == from.0 - 1 && to.1 == from.1 - 1
    } else if p == star() {
        ||| to == up
        ||| to.0 == from.0 && to.1 == from.1 - 1 && memo.contains_key(up) && !memo[up]
    } else {
        false
    }
}

/// Whether the search may take the way `path`, given what the table holds:
/// each position on it leads to the next.
pub open spec fn is_descent(
    pattern: Seq<Grapheme>,
    text: Seq<Grapheme>,
    memo: Map<Position, bool>,
    path: Seq<Position>,
) -> bool {
    forall|i: int|
        0 <= i < path.len() - 1 ==> leads_to(pattern, text, memo, #[trigger] path[i], path[i + 1])
}

/// Whether the search for the result at `goal` may come by `position`, given
/// what the table holds.
pub open spec fn on_the_way(
    pattern: Seq<Grapheme>,
    text: Seq<Grapheme>,
    memo: Map<Position, bool>,
    goal: Position,
    position: Position,
) -> bool {
    exists|path: Seq<Position>|
        {
            &&& path.len() > 0
            &&& path.first() == goal
            &&& path.last() == position
            &&& is_descent(pattern, text, memo, path)
        }
}

/// A way that the search may take stays one when the table grows.
proof fn lemma_way_stays(
    pattern: Seq<Grapheme>,
    text: Seq<Grapheme>,
    before: Map<Position, bool>,
    after: Map<Position, bool>,
    goal: Position,
    position: Position,
)
    requires
        on_the_way(pattern, text, before, goal, position),
        forall|key: Position| #[trigger]
            before.contains_key(key) ==> after.contains_key(key) && after[key] == before[key],
    ensures
        on_the_way(pattern, text, after, goal, position),
{
    let path = choose|path: Seq<Position>|
        {
            &&& path.len() > 0
            &&& path.first() == goal
            &&& path.last() == position
            &&& is_descent(pattern, text, before, path)
        };
    assert(is_descent(pattern, text, after, path)) by {
        assert forall|i: int| 0 <= i < path.len() - 1 implies leads_to(
            pattern,
            text,
            after,
            #[trigger] path[i],
            path[i + 1],
        ) by {
            assert(leads_to(pattern, text, before, path[i], path[i + 1]));
            let up = ((path[i].0 - 1) as usize, path[i].1);
            if before.contains_key(up) {
                assert(after.contains_key(up));
            }
        }
    }
}

/// What the search does next about a position.
#[derive(Clone, Copy, Debug, PartialEq, Eq)]
pub enum Step {
    /// The table holds enough to tell the result at the position.
    Settled(bool),
    /// The result at this other position, (row, column), is needed first.
    Needs(usize, usize),
}

/// Decides what to do about a position, given what the table holds.
///
/// The border is settled as `false` and (1, 1) as `true`. A pattern grapheme
/// that takes up the text grapheme beside it sends the search one row up and
/// one column to the left. A `*` is tried as standing for nothing first (one
/// row up); only when that has failed is it tried as standing for one
/// grapheme more (one column to the left). A position is settled as soon as
/// the table holds what decides it.
pub fn next_step(
    memo: &Memo,
    pattern: &Vec<&str>,
    text: &Vec<&str>,
    row: usize,
    column: usize,
) -> (step: Step)
    requires
        row <= pattern.len() + 1,
        column <= text.len() + 1,
    ensures
        match step {
            Step::Settled(value) => {
                &&& agrees(memo@, pattern.deep_view(), text.deep_view()) ==> value == state_value(
                    pattern.deep_view(),
                    text.deep_view(),
                    (row, column),
                )
                &&& row == 0 || column == 0 ==> !value
                &&& row == 1 && column == 1 ==> value
            },
            Step::Needs(r, c) => {
                &&& !memo@.contains_key((r, c))
                &&& leads_to(pattern.deep_view(), text.deep_view(), memo@, (row, column), (r, c))
            },
        },
{
    proof {
        lemma_state_rule(pattern.deep_view(), text.deep_view(), (row, column));
        reveal_strlit("");
    }
    if row == 0 || column == 0 {
        return Step::Settled(false);
    }
    if row == 1 && column == 1 {
        return Step::Settled(true);
    }
    let p = if row == 1 {
        ""
    } else {
        pattern[row - 2]
    };
    let t = if column == 1 {
        ""
    } else {
        text[column - 2]
    };
    assert(p@ =~= brought_in(pattern.deep_view(), row as int));
    assert(t@ =~= brought_in(text.deep_view(), column as int));
    if (same_grapheme(p, t) && !is_star(t)) || is_any_one(p) {
        match memo.get(row - 1, column - 1) {
            None => Step::Needs(row - 1, column - 1),
            Some(value) => Step::Settled(value),
        }
    } else if is_star(p) {
        match memo.get(row - 1, column) {
            None => Step::Needs(row - 1, column),
            Some(true) => Step::Settled(true),
            Some(false) => match memo.get(row, column - 1) {
                None => Step::Needs(row, column - 1),
                Some(value) => Step::Settled(value),
            },
        }
    } else {
        Step::Settled(false)
    }
}

/// The positions at or before `goal`, in both coordinates, that a table
/// does not hold yet.
spec fn unsettled(memo: Map<Position, bool>, goal: Position) -> Set<Position> {
    Set::new(
        |position: Position|
            position.0 <= goal.0 && position.1 <= goal.1 && !memo.contains_key(position),
    )
}

/// The positions of one row, up to a column.
spec fn row_upto(row: usize, column: usize) -> Set<Position> {
    Set::new(|position: Position| position.0 == row && position.1 <= column)
}

/// The positions at or before `goal` in both coordinates.
spec fn upto(goal: Position) -> Set<Position> {
    Set::new(|position: Position| position.0 <= goal.0 && position.1 <= goal.1)
}

/// There are column + 1 positions in a row up to a column.
proof fn lemma_row_upto_len(row: usize, column: usize)
    ensures
        row_upto(row, column).finite(),
        row_upto(row, column).len() == column + 1,
    decreases column,
{
    if column == 0 {
        assert(row_upto(row, column) =~= Set::empty().insert((row, column)));
    } else {
        lemma_row_upto_len(row, (column - 1) as usize);
        assert(row_upto(row, column) =~= row_upto(row, (column - 1) as usize).insert(
            (row, column),
        ));
    }
}

/// There are (row + 1) × (column + 1) positions at or before (row, column).
proof fn lemma_upto_len(goal: Position)
    ensures
        upto(goal).finite(),
        upto(goal).len() == (goal.0 + 1) * (goal.1 + 1),
    decreases goal.0,
{
    lemma_row_upto_len(goal.0, goal.1);
    if goal.0 == 0 {
        assert(upto(goal) =~= row_upto(goal.0, goal.1));
    } else {
        let above = ((goal.0 - 1) as usize, goal.1);
        lemma_upto_len(above);
        assert(upto(goal) =~= upto(above).union(row_upto(goal.0, goal.1)));
        assert(upto(above).disjoint(row_upto(goal.0, goal.1)));
        vstd::set_lib::lemma_set_disjoint_lens(upto(above), row_upto(goal.0, goal.1));
        assert((goal.0 + 1) * (goal.1 + 1) == goal.0 * (goal.1 + 1) + (goal.1 + 1))
            by (nonlinear_arith);
    }
}

/// A table whose positions all lie at or before `corner` holds no more
/// results than there are such positions.
proof fn lemma_table_fits(table: Memo, corner: Position)
    requires
        forall|position: Position| #[trigger]
            table@.contains_key(position) ==> position.0 <= corner.0 && position.1 <= corner.1,
    ensures
        table@.dom().len() <= (corner.0 + 1) * (corner.1 + 1),
{
    table.lemma_finite();
    lemma_upto_len(corner);
    assert(table@.dom().subset_of(upto(corner)));
    vstd::set_lib::lemma_len_subset(table@.dom(), upto(corner));
}

/// A table that has grown only by positions at or before `goal` has grown by
/// no more than there are of them.
proof fn lemma_growth_is_bounded(before: Memo, after: Memo, goal: Position)
    requires
        forall|position: Position| #[trigger]
            before@.contains_key(position) ==> after@.contains_key(position),
        forall|position: Position| #[trigger]
            after@.contains_key(position) && !before@.contains_key(position) ==> position.0
                <= goal.0 && position.1 <= goal.1,
    ensures
        after@.dom().len() <= before@.dom().len() + (goal.0 + 1) * (goal.1 + 1),
{
    before.lemma_finite();
    after.lemma_finite();
    lemma_upto_len(goal);
    let added = after@.dom().difference(before@.dom());
    assert(added.subset_of(upto(goal)));
    vstd::set_lib::lemma_len_subset(added, upto(goal));
    assert(after@.dom() =~= before@.dom().union(added));
    assert(before@.dom().disjoint(added));
    vstd::set_lib::lemma_set_disjoint_lens(before@.dom(), added);
}

/// A table within rows 0 to `rows` + 1 and columns 0 to `columns` + 1 holds
/// no more than (`rows` + 2) × (`columns` + 2) results.
proof fn lemma_grid_holds(table: Memo, rows: nat, columns: nat)
    ensures
        within_grid(table@, rows, columns) ==> table@.dom().len() <= (rows + 2) * (columns + 2),
{
    if within_grid(table@, rows, columns) {
        let last_row = if rows + 1 <= usize::MAX {
            (rows + 1) as usize
        } else {
            usize::MAX
        };
        let last_column = if columns + 1 <= usize::MAX {
            (columns + 1) as usize
        } else {
            usize::MAX
        };
        lemma_table_fits(table, (last_row, last_column));
        assert((last_row + 1) * (last_column + 1) <= (rows + 2) * (columns + 2))
            by (nonlinear_arith)
            requires
                0 <= last_row + 1 <= rows + 2,
                0 <= last_column + 1 <= columns + 2,
        ;
    }
}

/// There are finitely many positions left to settle.
proof fn lemma_unsettled_finite(memo: Map<Position, bool>, goal: Position)
    ensures
        unsettled(memo, goal).finite(),
{
    lemma_upto_len(goal);
    vstd::set_lib::lemma_set_subset_finite(upto(goal), unsettled(memo, goal));
}

/// Settling a position leaves fewer to settle.
proof fn lemma_settling_leaves_fewer(
    memo: Map<Position, bool>,
    goal: Position,
    position: Position,
    value: bool,
)
    requires
        position.0 <= goal.0,
        position.1 <= goal.1,
        !memo.contains_key(position),
    ensures
        unsettled(memo.insert(position, value), goal).len() < unsettled(memo, goal).len(),
{
    lemma_unsettled_finite(memo, goal);
    assert(unsettled(memo.insert(position, value), goal) =~= unsettled(memo, goal).remove(
        position,
    ));
}

/// How far a stack of positions is from its end: the coordinates of its top
/// added up, or nothing for the empty stack.
spec fn top_weight(stack: Seq<Position>) -> int {
    if stack.len() == 0 {
        0
    } else {
        stack.last().0 + stack.last().1
    }
}

/// Makes sure the table holds the result at (`row`, `column`), settling on
/// the way whatever that result depends on and the table lacks.
///
/// A table that holds the position already is left as it is, and a position
/// on the border is settled as `false` at once. In every case, no entry that
/// was there is touched, and what is added lies at or before (`row`,
/// `column`), on a way that the search may take from there: a `*` is tried
/// one column to the left only where the table holds `false` one row up. So
/// a table within rows 0 to the length of the pattern plus one and columns 0
/// to the length of the text plus one stays within them. If the table agreed
/// with the pattern and the text on entry, it does so on return, and so holds
/// the right result at (`row`, `column`).
pub fn set_cache(
    cache: &mut Memo,
    pattern: &Vec<&str>,
    text: &Vec<&str>,
    row: usize,
    column: usize,
)
    requires
        row <= pattern.len() + 1,
        column <= text.len() + 1,
    ensures
        final(cache)@.contains_key((row, column)),
        old(cache)@.contains_key((row, column)) ==> final(cache)@ == old(cache)@,
        (row == 0 || column == 0) && !old(cache)@.contains_key((row, column)) ==> final(cache)@
            == old(cache)@.insert((row, column), false),
        forall|position: Position| #[trigger]
            old(cache)@.contains_key(position) ==> final(cache)@.contains_key(position)
                && final(cache)@[position] == old(cache)@[position],
        forall|position: Position| #[trigger]
            final(cache)@.contains_key(position) && !old(cache)@.contains_key(position) ==> {
                &&& position.0 <= row
                &&& position.1 <= column
                &&& on_the_way(
                    pattern.deep_view(),
                    text.deep_view(),
                    final(cache)@,
                    (row, column),
                    position,
                )
            },
        final(cache)@.dom().len() <= old(cache)@.dom().len() + (row + 1) * (column + 1),
        within_grid(old(cache)@, pattern@.len(), text@.len()) ==> {
            &&& within_grid(final(cache)@, pattern@.len(), text@.len())
            &&& final(cache)@.dom().len() <= (pattern.len() + 2) * (text.len() + 2)
        },
        agrees(old(cache)@, pattern.deep_view(), text.deep_view()) ==> {
            &&& agrees(final(cache)@, pattern.deep_view(), text.deep_view())
            &&& final(cache)@[(row, column)] == state_value(
                pattern.deep_view(),
                text.deep_view(),
                (row, column),
            )
        },
{
    let ghost goal: Position = (row, column);
    let ghost p = pattern.deep_view();
    let ghost t = text.deep_view();
    if cache.get(row, column).is_some() {
        proof {
            lemma_growth_is_bounded(*cache, *cache, goal);
            lemma_grid_holds(*cache, p.len(), t.len());
        }
        return ;
    }
    if row == 0 || column == 0 {
        cache.record(row, column, false);
        proof {
            assert(is_descent(p, t, cache@, seq![goal]));
            assert(seq![goal].first() == goal && seq![goal].last() == goal);
            assert(on_the_way(p, t, cache@, goal, goal));
            lemma_growth_is_bounded(*old(cache), *cache, goal);
            lemma_grid_holds(*cache, p.len(), t.len());
        }
        return ;
    }
    let mut stack: Vec<Position> = Vec::new();
    stack.push((row, column));
    proof {
        lemma_unsettled_finite(cache@, goal);
    }
    while stack.len() > 0
        invariant
            row <= pattern.len() + 1,
            column <= text.len() + 1,
            goal == (row, column),
            p == pattern.deep_view(),
            t == text.deep_view(),
            !old(cache)@.contains_key(goal),
            agrees(old(cache)@, p, t) ==> agrees(cache@, p, t),
            forall|position: Position| #[trigger]
                old(cache)@.contains_key(position) ==> cache@.contains_key(position)
                    && cache@[position] == old(cache)@[position],
            forall|position: Position| #[trigger]
                cache@.contains_key(position) && !old(cache)@.contains_key(position) ==> {
                    &&& position.0 <= row
                    &&& position.1 <= column
                    &&& on_the_way(p, t, cache@, goal, position)
                },
            is_descent(p, t, cache@, stack@),
            forall|i: int|
                0 <= i < stack.len() ==> (#[trigger] stack[i]).0 <= row && stack[i].1 <= column
                    && !cache@.contains_key(stack[i]),
            forall|i: int, j: int|
                0 <= i < j < stack.len() ==> (#[trigger] stack[i]).0 + stack[i].1 > (
                #[trigger] stack[j]).0 + stack[j].1,
            stack.len() > 0 ==> stack[0] == goal,
            stack.len() == 0 ==> cache@.contains_key(goal),
            unsettled(cache@, goal).finite(),
        decreases unsettled(cache@, goal).len(), top_weight(stack@),
    {
        let (r, c) = stack[stack.len() - 1];
        match next_step(cache, pattern, text, r, c) {
            Step::Settled(value) => {
                let ghost before = cache@;
                proof {
                    lemma_settling_leaves_fewer(before, goal, (r, c), value);
                    lemma_unsettled_finite(before.insert((r, c), value), goal);
                    // The stack itself is the way by which the search came
                    // here.
                    assert(stack@.first() == goal && stack@.last() == (r, c));
                    assert(on_the_way(p, t, before, goal, (r, c)));
                }
                cache.record(r, c, value);
                stack.pop();
                proof {
                    // Nothing that the table held has changed, so every way
                    // is still one.
                    assert forall|position: Position| #[trigger]
                        cache@.contains_key(position) && !old(cache)@.contains_key(
                            position,
                        ) implies on_the_way(p, t, cache@, goal, position) by {
                        lemma_way_stays(p, t, before, cache@, goal, position);
                    }
                    assert forall|i: int| 0 <= i < stack@.len() - 1 implies leads_to(
                        p,
                        t,
                        cache@,
                        #[trigger] stack@[i],
                        stack@[i + 1],
                    ) by {
                        assert(leads_to(p, t, before, stack@[i], stack@[i + 1]));
                        let up = ((stack@[i].0 - 1) as usize, stack@[i].1);
                        if before.contains_key(up) {
                            assert(cache@.contains_key(up));
                        }
                    }
                }
            },
            Step::Needs(r2, c2) => {
                stack.push((r2, c2));
            },
        }
    }
    proof {
        lemma_growth_is_bounded(*old(cache), *cache, goal);
        lemma_grid_holds(*cache, p.len(), t.len());
    }
}

/// Whether the first `taken` graphemes of the pattern match the first `read`
/// graphemes of the text.
///
/// This is what [`match_with_cache`] falls back on where the positions of a
/// table cannot all be numbered. Where `taken` and `read` leave room for one
/// more, a table is made and asked; where not, the answer is put together
/// from the answers for shorter prefixes.
fn match_past_the_table(
    pattern: &Vec<&str>,
    text: &Vec<&str>,
    taken: usize,
    read: usize,
) -> (matched: bool)
    requires
        taken <= pattern.len(),
        read <= text.len(),
    ensures
        matched == wildcard_matches(
            pattern.deep_view().take(taken as int),
            text.deep_view().take(read as int),
        ),
    decreases taken + read,
{
    proof {
        lemma_prefix_rule(pattern.deep_view(), text.deep_view(), taken as int, read as int);
    }
    if taken < usize::MAX && read < usize::MAX {
        let mut cache = Memo::new();
        set_cache(&mut cache, pattern, text, taken + 1, read + 1);
        match cache.get(taken + 1, read + 1) {
            Some(value) => value,
            None => false,
        }
    } else if taken == 0 {
        read == 0
    } else if is_star(pattern[taken - 1]) {
        match_past_the_table(pattern, text, taken - 1, read) || (read > 0 && match_past_the_table(
            pattern,
            text,
            taken,
            read - 1,
        ))
    } else {
        read > 0 && (is_any_one(pattern[taken - 1]) || same_grapheme(
            pattern[taken - 1],
            text[read - 1],
        )) && match_past_the_table(pattern, text, taken - 1, read - 1)
    }
}

/// Whether the pattern matches the whole text, both given as graphemes.
///
/// Works on a table of its own, made for this call and dropped at its end:
/// it holds `true` at (1, 1) to begin with, and the answer is what it holds
/// in the end one row and one column past the lengths of the pattern and the
/// text.
///
/// Were one of the two as long as a `usize` can count, that position could
/// not be written down. No vector in memory is that long, but the answer is
/// right then too.
pub fn match_with_cache(pattern: &Vec<&str>, text: &Vec<&str>) -> (matched: bool)
    ensures
        matched == wildcard_matches(pattern.deep_view(), text.deep_view()),
{
    proof {
        assert(pattern.deep_view().take(pattern.len() as int) =~= pattern.deep_view());
        assert(text.deep_view().take(text.len() as int) =~= text.deep_view());
    }
    if pattern.len() == usize::MAX || text.len() == usize::MAX {
        return match_past_the_table(pattern, text, pattern.len(), text.len());
    }
    let row: usize = pattern.len() + 1;
    let column: usize = text.len() + 1;
    let mut cache = Memo::new();
    proof {
        lemma_state_rule(pattern.deep_view(), text.deep_view(), (1, 1));
    }
    cache.record(1, 1, true);
    set_cache(&mut cache, pattern, text, row, column);
    match cache.get(row, column) {
        Some(value) => value,
        None => false,
    }
}

} // verus!
