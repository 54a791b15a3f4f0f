//! What the search preserves and what it delivers: pruned rows stay ascending
//! sets, a step keeps a board well formed and consistent, and every board
//! that the search returns is a full placement of queens at peace.

use crate::board::{ascending_below, attacks, initial, lemma_initial_is_sound, peaceful, Board};
use crate::render::{rendered, QUEEN};
use crate::search::{
    gather, lemma_filter_members, lemma_step_commits_one_row, next_iteration, prune, solutions,
    successor,
};
use vstd::prelude::*;

verus! {

/// Pruning is exact: below a queen in column `c`, the row `n` rows down
/// keeps a column if and only if it had it before and the column is neither
/// `c`, nor `c + n`, nor `c - n`.
pub proof fn lemma_prune_exact(row: Seq<u8>, c: u8, n: int)
    ensures
        forall|d: u8| #[trigger]
            prune(row, c, n).contains(d) <==> row.contains(d) && d != c && d as int != c as int + n
                && d as int != c as int - n,
{
    lemma_filter_members(row, |d: u8| !attacks(c, d, n));
}

/// The same, said of a step: the candidates of the row at offset `k + 1`
/// below the newly committed queen are those of the parent without the
/// queen's column and its two diagonals.
pub proof fn lemma_successor_prunes_exactly(b: Board, c: u8, k: int)
    requires
        0 <= k < b.open.len() - 1,
    ensures
        successor(b, c).fixed == b.fixed.push(c),
        forall|d: u8| #[trigger]
            successor(b, c).open[k].contains(d) <==> b.open[k + 1].contains(d) && d != c
                && d as int != c as int + (k + 1) && d as int != c as int - (k + 1),
{
    lemma_prune_exact(b.open[k + 1], c, k + 1);
}

/// Pruning never reorders: an ascending row stays ascending, and within the
/// same bound.
pub proof fn lemma_prune_ascending(row: Seq<u8>, c: u8, n: int, bound: nat)
    requires
        ascending_below(row, bound),
    ensures
        ascending_below(prune(row, c, n), bound),
    decreases row.len(),
{
    reveal(Seq::filter);
    if row.len() > 0 {
        let front = row.drop_last();
        let kept = prune(front, c, n);
        assert(ascending_below(front, bound));
        lemma_prune_ascending(front, c, n, bound);
        lemma_prune_exact(front, c, n);
        assert forall|i: int| 0 <= i < kept.len() implies #[trigger] kept[i] < row.last() by {
            assert(kept.contains(kept[i]));
            let j = choose|j: int| 0 <= j < front.len() && front[j] == kept[i];
            assert(row[j] < row[row.len() - 1]);
        }
    }
}

/// A step from a well-formed board onto one of its candidates gives a
/// well-formed board.
pub proof fn lemma_successor_well_formed(b: Board, c: u8)
    requires
        b.well_formed(),
        !b.solved(),
        b.open[0].contains(c),
    ensures
        successor(b, c).well_formed(),
{
    let s = successor(b, c);
    assert(ascending_below(b.open[0], b.size));
    assert forall|i: int| 0 <= i < s.fixed.len() implies (#[trigger] s.fixed[i] as nat)
        < s.size by {
        if i < b.fixed.len() {
            assert(s.fixed[i] == b.fixed[i]);
        }
    }
    assert forall|k: int| 0 <= k < s.open.len() implies ascending_below(
        #[trigger] s.open[k],
        s.size,
    ) by {
        assert(ascending_below(b.open[k + 1], b.size));
        lemma_prune_ascending(b.open[k + 1], c, k + 1, b.size);
    }
}

/// A step from a consistent board onto one of its candidates gives a
/// consistent board: the new queen is at peace with the others, and no
/// candidate that is left is attacked.
pub proof fn lemma_successor_consistent(b: Board, c: u8)
    requires
        b.consistent(),
        !b.solved(),
        b.open[0].contains(c),
    ensures
        successor(b, c).consistent(),
{
    let s = successor(b, c);
    let m0 = choose|m: int| 0 <= m < b.open[0].len() && b.open[0][m] == c;
    assert forall|i: int, j: int| 0 <= i < j < s.fixed.len() implies s.fixed[i] != s.fixed[j]
        && s.fixed[j] as int - s.fixed[i] as int != j - i && s.fixed[i] as int
        - s.fixed[j] as int != j - i by {
        if j < b.fixed.len() {
            assert(s.fixed[i] == b.fixed[i] && s.fixed[j] == b.fixed[j]);
        } else {
            assert(!attacks(b.fixed[i], b.open[0][m0], b.fixed.len() + 0 - i));
        }
    }
    assert forall|i: int, k: int, m: int|
        0 <= i < s.fixed.len() && 0 <= k < s.open.len() && 0 <= m < s.open[k].len() implies !attacks(
        #[trigger] s.fixed[i],
        #[trigger] s.open[k][m],
        s.fixed.len() + k - i,
    ) by {
        let d = s.open[k][m];
        lemma_prune_exact(b.open[k + 1], c, k + 1);
        assert(s.open[k].contains(d));
        assert(b.open[k + 1].contains(d));
        if i < b.fixed.len() {
            let row = b.open[k + 1];
            let m1 = choose|m1: int| 0 <= m1 < row.len() && row[m1] == d;
            assert(!attacks(b.fixed[i], b.open[k + 1][m1], b.fixed.len() + (k + 1) - i));
        }
    }
}

/// A full placement: every row committed, every queen on the board, none
/// attacking another.
pub open spec fn is_solution(b: Board) -> bool {
    &&& b.solved()
    &&& b.fixed.len() == b.size
    &&& forall|i: int| 0 <= i < b.fixed.len() ==> (#[trigger] b.fixed[i] as nat) < b.size
    &&& peaceful(b.fixed)
}

/// From a well-formed board one step yields only well-formed boards.
pub proof fn lemma_step_stays_well_formed(b: Board)
    requires
        b.well_formed(),
    ensures
        forall|j: int|
            0 <= j < next_iteration(b).len() ==> (#[trigger] next_iteration(b)[j]).well_formed(),
{
    if !b.solved() {
        lemma_step_commits_one_row(b);
        assert forall|j: int| 0 <= j < next_iteration(b).len() implies (#[trigger] next_iteration(
            b,
        )[j]).well_formed() by {
            let s = next_iteration(b)[j];
            let m = choose|m: int| 0 <= m < b.open[0].len() && s == successor(b, b.open[0][m]);
            assert(b.open[0].contains(b.open[0][m]));
            lemma_successor_well_formed(b, b.open[0][m]);
        }
    }
}

/// From a well-formed, consistent board one step yields only well-formed,
/// consistent boards.
pub proof fn lemma_step_stays_sound(b: Board)
    requires
        b.well_formed(),
        b.consistent(),
    ensures
        forall|j: int|
            0 <= j < next_iteration(b).len() ==> {
                let s = #[trigger] next_iteration(b)[j];
                s.well_formed() && s.consistent() && s.possible()
            },
{
    if !b.solved() {
        lemma_step_commits_one_row(b);
        assert forall|j: int| 0 <= j < next_iteration(b).len() implies {
            let s = #[trigger] next_iteration(b)[j];
            s.well_formed() && s.consistent() && s.possible()
        } by {
            let s = next_iteration(b)[j];
            let m = choose|m: int| 0 <= m < b.open[0].len() && s == successor(b, b.open[0][m]);
            assert(b.open[0].contains(b.open[0][m]));
            lemma_successor_well_formed(b, b.open[0][m]);
            lemma_successor_consistent(b, b.open[0][m]);
        }
    }
}

/// Every board that the search returns from a well-formed, consistent board
/// is solved and is a placement in which no two queens share a column or a
/// diagonal.
pub proof fn lemma_solutions_are_solutions(b: Board)
    requires
        b.well_formed(),
        b.consistent(),
    ensures
        forall|i: int| 0 <= i < solutions(b).len() ==> is_solution(#[trigger] solutions(b)[i]),
    decreases b.open.len(), 1nat, 0nat,
{
    if b.solved() {
        assert(solutions(b) =~= seq![b]);
        assert(is_solution(b));
    } else {
        lemma_step_stays_sound(b);
        lemma_gather_are_solutions(next_iteration(b), b.open.len(), next_iteration(b).len());
        assert(solutions(b) == gather(
            next_iteration(b),
            b.open.len(),
            next_iteration(b).len(),
        ));
    }
}

/// The same for the solutions gathered below a list of boards.
pub proof fn lemma_gather_are_solutions(successors: Seq<Board>, depth: nat, count: nat)
    requires
        count <= successors.len(),
        forall|j: int|
            0 <= j < successors.len() ==> (#[trigger] successors[j]).well_formed()
                && successors[j].consistent(),
    ensures
        forall|i: int|
            0 <= i < gather(successors, depth, count).len() ==> is_solution(
                #[trigger] gather(successors, depth, count)[i],
            ),
    decreases depth, 0nat, count,
{
    if count > 0 {
        let last = successors[count - 1];
        let before = gather(successors, depth, (count - 1) as nat);
        lemma_gather_are_solutions(successors, depth, (count - 1) as nat);
        if last.open.len() < depth {
            lemma_solutions_are_solutions(last);
        }
        assert forall|i: int| 0 <= i < gather(successors, depth, count).len() implies is_solution(
            #[trigger] gather(successors, depth, count)[i],
        ) by {
            if i < before.len() {
                assert(gather(successors, depth, count)[i] == before[i]);
            } else {
                assert(gather(successors, depth, count)[i] == solutions(last)[i - before.len()]);
            }
        }
    }
}

/// Every board found from the fresh board of any size is a full placement of
/// queens at peace.
pub proof fn lemma_search_from_initial(size: nat)
    requires
        size <= u8::MAX,
    ensures
        forall|i: int|
            0 <= i < solutions(initial(size)).len() ==> is_solution(
                #[trigger] solutions(initial(size))[i],
            ),
{
    lemma_initial_is_sound(size);
    lemma_solutions_are_solutions(initial(size));
}

/// A solution renders as `size` rows of `size` glyphs. Each row shows the
/// queen glyph exactly once, in the column of its queen, and no two rows
/// show it in the same column.
pub proof fn lemma_rendered_solution(b: Board)
    requires
        is_solution(b),
    ensures
        rendered(b).len() == b.size,
        forall|row: int| 0 <= row < b.size ==> (#[trigger] rendered(b)[row]).len() == b.size,
        forall|row: int, col: int|
            0 <= row < b.size && 0 <= col < b.size ==> (#[trigger] rendered(b)[row][col] == QUEEN
                <==> col == b.fixed[row]),
        forall|above: int, below: int, col: int|
            0 <= above < below < b.size && 0 <= col < b.size && #[trigger] rendered(
                b,
            )[above][col] == QUEEN ==> #[trigger] rendered(b)[below][col] != QUEEN,
{
    assert forall|above: int, below: int, col: int|
        0 <= above < below < b.size && 0 <= col < b.size && #[trigger] rendered(
            b,
        )[above][col] == QUEEN implies #[trigger] rendered(b)[below][col] != QUEEN by {
        assert(b.fixed[above] != b.fixed[below]);
    }
}

} // verus!
