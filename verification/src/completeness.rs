//! Nothing is missed and nothing is made up: the search finds exactly the
//! peaceful placements that a board still allows, and it unfolds into one
//! search per successor.

use crate::board::{attacks, initial, peaceful, Board};
use crate::search::{
    gather, lemma_filter_members, lemma_step_commits_one_row, next_iteration, prune, solutions,
    successor,
};
use crate::soundness::{is_solution, lemma_prune_exact, lemma_solutions_are_solutions};
use vstd::prelude::*;

verus! {

/// The placement `p` completes the board: it has a column for every row,
/// agrees with the committed rows, and picks for each pending row one of
/// its candidates.
pub open spec fn completes(b: Board, p: Seq<u8>) -> bool {
    &&& p.len() == b.fixed.len() + b.open.len()
    &&& forall|i: int| 0 <= i < b.fixed.len() ==> #[trigger] p[i] == b.fixed[i]
    &&& forall|k: int|
        0 <= k < b.open.len() ==> (#[trigger] b.open[k]).contains(p[b.fixed.len() + k])
}

/// The solved board that holds the placement `p`.
pub open spec fn placed(size: nat, p: Seq<u8>) -> Board {
    Board { size, fixed: p, open: Seq::empty() }
}

/// The solutions below each of the boards, one after the other.
pub open spec fn solutions_of_each(boards: Seq<Board>) -> Seq<Board>
    decreases boards.len(),
{
    if boards.len() == 0 {
        Seq::empty()
    } else {
        solutions_of_each(boards.drop_last()) + solutions(boards.last())
    }
}

/// The search from an unsolved board is the search from each of its
/// successors, in their order.
pub proof fn lemma_solutions_unfold(b: Board)
    requires
        !b.solved(),
    ensures
        solutions(b) == solutions_of_each(next_iteration(b)),
{
    let next = next_iteration(b);
    lemma_step_commits_one_row(b);
    lemma_gather_is_each(next, b.open.len(), next.len());
    assert(next.take(next.len() as int) =~= next);
}

/// Gathering below boards that all stay under the depth adds up the
/// solutions of each.
pub proof fn lemma_gather_is_each(successors: Seq<Board>, depth: nat, count: nat)
    requires
        count <= successors.len(),
        forall|j: int| 0 <= j < successors.len() ==> (#[trigger] successors[j]).open.len() < depth,
    ensures
        gather(successors, depth, count) == solutions_of_each(successors.take(count as int)),
    decreases count,
{
    if count > 0 {
        let taken = successors.take(count as int);
        lemma_gather_is_each(successors, depth, (count - 1) as nat);
        assert(taken.drop_last() =~= successors.take(count - 1));
        assert(taken.last() == successors[count - 1]);
    }
}

/// What is found below one of the first `count` boards is among what is
/// gathered below all of them.
pub proof fn lemma_gather_contains(
    successors: Seq<Board>,
    depth: nat,
    count: nat,
    j: int,
    found: Board,
)
    requires
        0 <= j < count <= successors.len(),
        successors[j].open.len() < depth,
        solutions(successors[j]).contains(found),
    ensures
        gather(successors, depth, count).contains(found),
    decreases count,
{
    let front = gather(successors, depth, (count - 1) as nat);
    let all = gather(successors, depth, count);
    if j == count - 1 {
        let below = solutions(successors[j]);
        let i = choose|i: int| 0 <= i < below.len() && below[i] == found;
        assert(all[front.len() + i] == found);
    } else {
        lemma_gather_contains(successors, depth, (count - 1) as nat, j, found);
        let i = choose|i: int| 0 <= i < front.len() && front[i] == found;
        assert(all[i] == found);
    }
}

/// The search is complete: every placement of queens at peace that
/// completes a board is among the solutions found from it.
pub proof fn lemma_every_placement_is_found(b: Board, p: Seq<u8>)
    requires
        completes(b, p),
        peaceful(p),
    ensures
        solutions(b).contains(placed(b.size, p)),
    decreases b.open.len(),
{
    if b.solved() {
        assert(b.fixed =~= p);
        assert(b.open =~= Seq::<Seq<u8>>::empty());
        assert(solutions(b)[0] == placed(b.size, p));
    } else {
        let row = b.fixed.len() as int;
        let c = p[row];
        let s = successor(b, c);
        assert(b.open[0].contains(p[row + 0]));
        assert forall|k: int| 0 <= k < s.open.len() implies (#[trigger] s.open[k]).contains(
            p[s.fixed.len() + k],
        ) by {
            let d = p[row + 1 + k];
            lemma_prune_exact(b.open[k + 1], c, k + 1);
            assert(b.open[k + 1].contains(p[row + (k + 1)]));
            assert(!attacks(c, d, k + 1));
            assert(prune(b.open[k + 1], c, k + 1).contains(d));
        }
        assert(completes(s, p));
        assert forall|k: int| 0 <= k < s.open.len() implies (#[trigger] s.open[k]).len() > 0 by {
            assert(s.open[k].contains(p[s.fixed.len() + k]));
        }
        let all = b.open[0].map_values(|c: u8| successor(b, c));
        let m = choose|m: int| 0 <= m < b.open[0].len() && b.open[0][m] == c;
        assert(all[m] == s);
        assert(all.contains(s));
        lemma_filter_members(all, |s: Board| s.possible());
        let next = next_iteration(b);
        assert(next.contains(s));
        let j = choose|j: int| 0 <= j < next.len() && next[j] == s;
        lemma_every_placement_is_found(s, p);
        assert(placed(s.size, p) == placed(b.size, p));
        lemma_gather_contains(next, b.open.len(), next.len(), j, placed(b.size, p));
    }
}

/// A placement that completes a successor completes the board it was made
/// from, as long as the new column was a candidate.
pub proof fn lemma_completes_parent(b: Board, c: u8, p: Seq<u8>)
    requires
        !b.solved(),
        b.open[0].contains(c),
        completes(successor(b, c), p),
    ensures
        completes(b, p),
{
    let s = successor(b, c);
    let row = b.fixed.len() as int;
    assert forall|i: int| 0 <= i < b.fixed.len() implies #[trigger] p[i] == b.fixed[i] by {
        assert(p[i] == s.fixed[i]);
    }
    assert(p[row] == s.fixed[row]);
    assert forall|k: int| 0 <= k < b.open.len() implies (#[trigger] b.open[k]).contains(
        p[b.fixed.len() + k],
    ) by {
        if k > 0 {
            lemma_prune_exact(b.open[k], c, k);
            assert(s.open[k - 1].contains(p[s.fixed.len() + (k - 1)]));
        }
    }
}

/// Every board found from `b` is solved, has the size of `b`, and holds a
/// placement that completes `b`.
pub proof fn lemma_solutions_complete_the_board(b: Board)
    ensures
        forall|i: int|
            0 <= i < solutions(b).len() ==> {
                let x = #[trigger] solutions(b)[i];
                x == placed(b.size, x.fixed) && completes(b, x.fixed)
            },
    decreases b.open.len(), 1nat, 0nat,
{
    if b.solved() {
        assert(solutions(b) =~= seq![b]);
        assert(b.open =~= Seq::<Seq<u8>>::empty());
    } else {
        let next = next_iteration(b);
        let found = gather(next, b.open.len(), next.len());
        lemma_step_commits_one_row(b);
        lemma_gather_completes_a_board(next, b.open.len(), next.len());
        assert(solutions(b) == found);
        assert forall|i: int| 0 <= i < found.len() implies {
            let x = #[trigger] found[i];
            x == placed(b.size, x.fixed) && completes(b, x.fixed)
        } by {
            let x = found[i];
            let j = choose|j: int|
                0 <= j < next.len() && x == placed((#[trigger] next[j]).size, x.fixed) && completes(
                    next[j],
                    x.fixed,
                );
            let m = choose|m: int| 0 <= m < b.open[0].len() && next[j] == successor(b, b.open[0][m]);
            assert(b.open[0].contains(b.open[0][m]));
            lemma_completes_parent(b, b.open[0][m], x.fixed);
        }
    }
}

/// The same for what is gathered below a list of boards: each board found
/// completes one of them.
pub proof fn lemma_gather_completes_a_board(successors: Seq<Board>, depth: nat, count: nat)
    requires
        count <= successors.len(),
    ensures
        forall|i: int|
            0 <= i < gather(successors, depth, count).len() ==> {
                let x = #[trigger] gather(successors, depth, count)[i];
                exists|j: int|
                    0 <= j < count && x == placed((#[trigger] successors[j]).size, x.fixed)
                        && completes(successors[j], x.fixed)
            },
    decreases depth, 0nat, count,
{
    if count > 0 {
        let last = successors[count - 1];
        let front = gather(successors, depth, (count - 1) as nat);
        let all = gather(successors, depth, count);
        lemma_gather_completes_a_board(successors, depth, (count - 1) as nat);
        if last.open.len() < depth {
            lemma_solutions_complete_the_board(last);
        }
        assert forall|i: int| 0 <= i < all.len() implies {
            let x = #[trigger] all[i];
            exists|j: int|
                0 <= j < count && x == placed((#[trigger] successors[j]).size, x.fixed)
                    && completes(successors[j], x.fixed)
        } by {
            let x = all[i];
            if i < front.len() {
                assert(x == front[i]);
                let j = choose|j: int|
                    0 <= j < count - 1 && x == placed((#[trigger] successors[j]).size, x.fixed)
                        && completes(successors[j], x.fixed);
                assert(completes(successors[j], x.fixed));
            } else {
                assert(x == solutions(last)[i - front.len()]);
                assert(completes(successors[count - 1], x.fixed));
            }
        }
    }
}

/// What the search finds, said without the search: from a well-formed,
/// consistent board it returns a board if and only if that board is solved,
/// has the same size, and holds a placement of queens at peace that
/// completes the board.
pub proof fn lemma_solutions_are_exactly_the_placements(b: Board, x: Board)
    requires
        b.well_formed(),
        b.consistent(),
    ensures
        solutions(b).contains(x) <==> x == placed(b.size, x.fixed) && completes(b, x.fixed)
            && peaceful(x.fixed),
{
    if solutions(b).contains(x) {
        let i = choose|i: int| 0 <= i < solutions(b).len() && solutions(b)[i] == x;
        lemma_solutions_complete_the_board(b);
        lemma_solutions_are_solutions(b);
        assert(is_solution(solutions(b)[i]));
    }
    if x == placed(b.size, x.fixed) && completes(b, x.fixed) && peaceful(x.fixed) {
        lemma_every_placement_is_found(b, x.fixed);
    }
}

/// From the fresh board the search finds every placement of queens at peace
/// whose top queen stands on the left half of the board, the centre column
/// included.
pub proof fn lemma_initial_search_is_complete(size: nat, p: Seq<u8>)
    requires
        0 < size <= u8::MAX,
        p.len() == size,
        forall|i: int| 0 <= i < size ==> (#[trigger] p[i] as nat) < size,
        (p[0] as nat) < (size + 1) / 2,
        peaceful(p),
    ensures
        solutions(initial(size)).contains(placed(size, p)),
{
    let b = initial(size);
    assert forall|k: int| 0 <= k < b.open.len() implies (#[trigger] b.open[k]).contains(
        p[b.fixed.len() + k],
    ) by {
        assert((p[k] as nat) < size);
        assert(b.open[k][p[k] as int] == p[k]);
    }
    lemma_every_placement_is_found(b, p);
}

} // verus!
