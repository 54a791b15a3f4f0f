//! The order of the search: solutions come out in the lexicographic order of
//! their columns, so none comes twice.

use crate::board::{ascending_below, Board};
use crate::search::{gather, lemma_filter_members, next_iteration, solutions, successor};
use crate::soundness::lemma_step_stays_well_formed;
use vstd::prelude::*;

verus! {

/// The placements agree before row `k`, and there `p` stands further left.
pub open spec fn parts_at(p: Seq<u8>, q: Seq<u8>, k: int) -> bool {
    &&& 0 <= k < p.len()
    &&& k < q.len()
    &&& p[k] < q[k]
    &&& forall|i: int| 0 <= i < k ==> p[i] == q[i]
}

/// `p` comes strictly before `q` in lexicographic order.
pub open spec fn before(p: Seq<u8>, q: Seq<u8>) -> bool {
    exists|k: int| parts_at(p, q, k)
}

/// Filtering keeps the order: two items of the filtered sequence stand in
/// the source in the same order, at the places that the lemma hands back.
pub proof fn lemma_filter_keeps_order<A>(s: Seq<A>, pred: spec_fn(A) -> bool, i: int, j: int) -> (at: (
    int,
    int,
))
    requires
        0 <= i < j < s.filter(pred).len(),
    ensures
        0 <= at.0 < at.1 < s.len(),
        s[at.0] == s.filter(pred)[i],
        s[at.1] == s.filter(pred)[j],
    decreases s.len(),
{
    reveal(Seq::filter);
    let front = s.drop_last();
    let kept = front.filter(pred);
    if j < kept.len() {
        lemma_filter_keeps_order(front, pred, i, j)
    } else {
        lemma_filter_members(front, pred);
        assert(kept.contains(kept[i]));
        let m = choose|m: int| 0 <= m < front.len() && front[m] == kept[i];
        (m, s.len() - 1)
    }
}

/// The successors of a well-formed board come in the order of their new
/// columns, each one row longer than the board.
pub proof fn lemma_step_is_ordered(b: Board)
    requires
        b.well_formed(),
        !b.solved(),
    ensures
        forall|j: int|
            0 <= j < next_iteration(b).len() ==> b.fixed.is_prefix_of(
                (#[trigger] next_iteration(b)[j]).fixed,
            ),
        forall|i: int, j: int|
            0 <= i < j < next_iteration(b).len() ==> before(
                (#[trigger] next_iteration(b)[i]).fixed,
                (#[trigger] next_iteration(b)[j]).fixed,
            ),
{
    let row = b.open[0];
    let all = row.map_values(|c: u8| successor(b, c));
    let keep = |s: Board| s.possible();
    let next = next_iteration(b);
    lemma_filter_members(all, keep);
    assert(ascending_below(row, b.size));
    assert forall|j: int| 0 <= j < next.len() implies b.fixed.is_prefix_of(
        (#[trigger] next[j]).fixed,
    ) by {
        assert(all.filter(keep).contains(next[j]));
        let m = choose|m: int| 0 <= m < all.len() && all[m] == next[j];
        assert(next[j].fixed == b.fixed.push(row[m]));
    }
    assert forall|i: int, j: int| 0 <= i < j < next.len() implies before(
        (#[trigger] next[i]).fixed,
        (#[trigger] next[j]).fixed,
    ) by {
        let (m, n) = lemma_filter_keeps_order(all, keep, i, j);
        assert(row[m] < row[n]);
        assert(parts_at(next[i].fixed, next[j].fixed, b.fixed.len() as int));
    }
}

/// Two placements that part keep their order however they are continued.
pub proof fn lemma_before_lifts(p: Seq<u8>, q: Seq<u8>, x: Seq<u8>, y: Seq<u8>)
    requires
        before(p, q),
        p.is_prefix_of(x),
        q.is_prefix_of(y),
    ensures
        before(x, y),
{
    let k = choose|k: int| parts_at(p, q, k);
    assert forall|i: int| 0 <= i <= k implies x[i] == p[i] && y[i] == q[i] by {
        assert(p[i] == x.subrange(0, p.len() as int)[i]);
        assert(q[i] == y.subrange(0, q.len() as int)[i]);
    }
    assert(parts_at(x, y, k));
}

/// Every solution found from a board continues its committed rows, and from
/// a well-formed board the solutions come in strictly ascending
/// lexicographic order of their columns. So no solution is found twice.
pub proof fn lemma_solutions_are_ordered(b: Board)
    requires
        b.well_formed(),
    ensures
        forall|i: int|
            0 <= i < solutions(b).len() ==> b.fixed.is_prefix_of((#[trigger] solutions(b)[i]).fixed),
        forall|i: int, j: int|
            0 <= i < j < solutions(b).len() ==> before(
                (#[trigger] solutions(b)[i]).fixed,
                (#[trigger] solutions(b)[j]).fixed,
            ),
    decreases b.open.len(), 1nat, 0nat,
{
    if b.solved() {
        assert(solutions(b) =~= seq![b]);
    } else {
        let next = next_iteration(b);
        lemma_step_stays_well_formed(b);
        lemma_step_is_ordered(b);
        lemma_gather_is_ordered(next, b.open.len(), next.len());
        let found = gather(next, b.open.len(), next.len());
        assert(solutions(b) == found);
        assert forall|i: int| 0 <= i < found.len() implies b.fixed.is_prefix_of(
            (#[trigger] found[i]).fixed,
        ) by {
            let j = choose|j: int|
                0 <= j < next.len() && (#[trigger] next[j]).fixed.is_prefix_of(found[i].fixed);
            lemma_prefix_chain(b.fixed, next[j].fixed, found[i].fixed);
        }
    }
}

/// A prefix of a prefix is a prefix.
pub proof fn lemma_prefix_chain(p: Seq<u8>, q: Seq<u8>, x: Seq<u8>)
    requires
        p.is_prefix_of(q),
        q.is_prefix_of(x),
    ensures
        p.is_prefix_of(x),
{
    assert forall|i: int| 0 <= i < p.len() implies p[i] == x[i] by {
        assert(p[i] == q.subrange(0, p.len() as int)[i]);
        assert(q[i] == x.subrange(0, q.len() as int)[i]);
    }
    assert(p =~= x.subrange(0, p.len() as int));
}

/// The same for the solutions gathered below boards that are themselves in
/// order: each continues one of the boards, and they come in order.
pub proof fn lemma_gather_is_ordered(successors: Seq<Board>, depth: nat, count: nat)
    requires
        count <= successors.len(),
        forall|j: int| 0 <= j < successors.len() ==> (#[trigger] successors[j]).well_formed(),
        forall|i: int, j: int|
            0 <= i < j < successors.len() ==> before(
                (#[trigger] successors[i]).fixed,
                (#[trigger] successors[j]).fixed,
            ),
    ensures
        forall|i: int|
            0 <= i < gather(successors, depth, count).len() ==> exists|j: int|
                0 <= j < count && (#[trigger] successors[j]).fixed.is_prefix_of(
                    (#[trigger] gather(successors, depth, count)[i]).fixed,
                ),
        forall|i: int, j: int|
            0 <= i < j < gather(successors, depth, count).len() ==> before(
                (#[trigger] gather(successors, depth, count)[i]).fixed,
                (#[trigger] gather(successors, depth, count)[j]).fixed,
            ),
    decreases depth, 0nat, count,
{
    if count > 0 {
        let last = successors[count - 1];
        let front = gather(successors, depth, (count - 1) as nat);
        let all = gather(successors, depth, count);
        lemma_gather_is_ordered(successors, depth, (count - 1) as nat);
        if last.open.len() < depth {
            lemma_solutions_are_ordered(last);
        }
        assert forall|i: int| 0 <= i < all.len() implies exists|j: int|
            0 <= j < count && (#[trigger] successors[j]).fixed.is_prefix_of(
                (#[trigger] all[i]).fixed,
            ) by {
            if i < front.len() {
                assert(all[i] == front[i]);
                let j = choose|j: int|
                    0 <= j < count - 1 && (#[trigger] successors[j]).fixed.is_prefix_of(
                        front[i].fixed,
                    );
                assert(successors[j].fixed.is_prefix_of(all[i].fixed));
            } else {
                assert(all[i] == solutions(last)[i - front.len()]);
                assert(successors[count - 1].fixed.is_prefix_of(all[i].fixed));
            }
        }
        assert forall|i: int, j: int| 0 <= i < j < all.len() implies before(
            (#[trigger] all[i]).fixed,
            (#[trigger] all[j]).fixed,
        ) by {
            if j < front.len() {
                assert(all[i] == front[i] && all[j] == front[j]);
            } else if i >= front.len() {
                assert(all[i] == solutions(last)[i - front.len()]);
                assert(all[j] == solutions(last)[j - front.len()]);
            } else {
                assert(all[i] == front[i]);
                assert(all[j] == solutions(last)[j - front.len()]);
                let k = choose|k: int|
                    0 <= k < count - 1 && (#[trigger] successors[k]).fixed.is_prefix_of(
                        front[i].fixed,
                    );
                assert(before(successors[k].fixed, successors[count - 1].fixed));
                lemma_before_lifts(successors[k].fixed, last.fixed, all[i].fixed, all[j].fixed);
            }
        }
    }
}

} // verus!
