//! Committing a row, pruning the rows below it, and the depth-first search
//! for every solved board.

use crate::board::{attacks, boards, copy_row, rows_view, Board, Fields};
use crate::soundness::{is_solution, lemma_solutions_are_solutions, lemma_step_stays_sound};
use vstd::prelude::*;

verus! {

/// What is left of a candidate row once a queen stands in column `c`,
/// `n` rows above it: the columns that the queen does not attack, in their
/// old order.
pub open spec fn prune(row: Seq<u8>, c: u8, n: int) -> Seq<u8> {
    row.filter(|d: u8| !attacks(c, d, n))
}

/// The board after the next pending row is committed to column `c`: the
/// column joins the committed rows, and each row below is pruned by its
/// distance from the new queen.
pub open spec fn successor(b: Board, c: u8) -> Board {
    Board {
        size: b.size,
        fixed: b.fixed.push(c),
        open: Seq::new((b.open.len() - 1) as nat, |k: int| prune(b.open[k + 1], c, k + 1)),
    }
}

/// The successors for the given candidate columns, in their order, without
/// those that left some pending row empty.
pub open spec fn successors_of(b: Board, candidates: Seq<u8>) -> Seq<Board> {
    candidates.map_values(|c: u8| successor(b, c)).filter(|s: Board| s.possible())
}

/// One step of the search. A solved board stays as it is; any other board
/// gives one successor per candidate of its next row, dead ends left out.
pub open spec fn next_iteration(b: Board) -> Seq<Board> {
    if b.solved() {
        seq![b]
    } else {
        successors_of(b, b.open[0])
    }
}

/// Every solved board that repeated steps reach from `b`, depth first and
/// leftmost candidate first.
pub open spec fn solutions(b: Board) -> Seq<Board>
    decreases b.open.len(), 1nat, 0nat,
{
    if b.solved() {
        seq![b]
    } else {
        gather(next_iteration(b), b.open.len(), next_iteration(b).len())
    }
}

/// The solutions below the first `count` of the given boards, one after the
/// other. Only boards with fewer than `depth` pending rows are searched;
/// `lemma_solutions_unfold` shows that a step never yields any other.
pub open spec fn gather(successors: Seq<Board>, depth: nat, count: nat) -> Seq<Board>
    decreases depth, 0nat, count,
{
    if count == 0 || count > successors.len() {
        Seq::empty()
    } else {
        let last = successors[count - 1];
        gather(successors, depth, (count - 1) as nat) + (if last.open.len() < depth {
            solutions(last)
        } else {
            Seq::empty()
        })
    }
}

/// Filtering a sequence with one more item at its end.
pub proof fn lemma_filter_push<A>(s: Seq<A>, x: A, pred: spec_fn(A) -> bool)
    ensures
        s.push(x).filter(pred) == if pred(x) {
            s.filter(pred).push(x)
        } else {
            s.filter(pred)
        },
{
    reveal(Seq::filter);
    assert(s.push(x).drop_last() =~= s);
}

/// A filtered sequence holds exactly the items of the source that pass.
pub proof fn lemma_filter_members<A>(s: Seq<A>, pred: spec_fn(A) -> bool)
    ensures
        forall|x: A| #[trigger] s.filter(pred).contains(x) <==> s.contains(x) && pred(x),
    decreases s.len(),
{
    reveal(Seq::filter);
    if s.len() > 0 {
        let front = s.drop_last();
        let last = s.last();
        lemma_filter_members(front, pred);
        assert forall|x: A| #[trigger] s.filter(pred).contains(x) <==> s.contains(x) && pred(
            x,
        ) by {
            if s.filter(pred).contains(x) {
                let i = choose|i: int| 0 <= i < s.filter(pred).len() && s.filter(pred)[i] == x;
                if i < front.filter(pred).len() {
                    assert(front.filter(pred)[i] == x);
                    assert(front.filter(pred).contains(x));
                    let j = choose|j: int| 0 <= j < front.len() && front[j] == x;
                    assert(s[j] == x);
                } else {
                    assert(x == last);
                    assert(s[s.len() - 1] == x);
                }
            }
            if s.contains(x) && pred(x) {
                let j = choose|j: int| 0 <= j < s.len() && s[j] == x;
                if j < front.len() {
                    assert(front[j] == x);
                    assert(front.filter(pred).contains(x));
                    let i = choose|i: int|
                        0 <= i < front.filter(pred).len() && front.filter(pred)[i] == x;
                    assert(s.filter(pred)[i] == x);
                } else {
                    assert(s.filter(pred)[s.filter(pred).len() - 1] == x);
                }
            }
        }
    }
}

/// The candidates of `row` that a queen in column `c`, `n` rows above, does
/// not attack. The distance is compared without adding to a column, so no
/// column of a large board can wrap around.
fn prune_row(row: &Vec<u8>, c: u8, n: usize) -> (kept: Vec<u8>)
    ensures
        kept@ == prune(row@, c, n as int),
{
    let mut kept: Vec<u8> = Vec::new();
    let mut i: usize = 0;
    proof {
        reveal(Seq::filter);
        assert(row@.take(0) =~= Seq::<u8>::empty());
    }
    while i < row.len()
        invariant
            i <= row.len(),
            kept@ == prune(row@.take(i as int), c, n as int),
        decreases row.len() - i,
    {
        let d: u8 = row[i];
        let hit = d == c || (d > c && (d - c) as usize == n) || (d < c && (c - d) as usize == n);
        proof {
            assert(hit == attacks(c, d, n as int));
            assert(row@.take(i as int + 1) =~= row@.take(i as int).push(d));
            lemma_filter_push(row@.take(i as int), d, |d: u8| !attacks(c, d, n as int));
        }
        if !hit {
            kept.push(d);
        }
        i += 1;
    }
    proof {
        assert(row@.take(row.len() as int) =~= row@);
    }
    kept
}

impl Fields {
    /// Commits the next pending row to column `c` and prunes the rows below.
    fn commit(&self, c: u8) -> (next: Fields)
        requires
            !self@.solved(),
        ensures
            next@ == successor(self@, c),
    {
        let mut fixed_rows = copy_row(&self.fixed_rows);
        fixed_rows.push(c);
        let mut open_rows: Vec<Vec<u8>> = Vec::new();
        let mut k: usize = 1;
        while k < self.open_rows.len()
            invariant
                1 <= k <= self.open_rows.len(),
                open_rows@.len() == k - 1,
                forall|j: int|
                    0 <= j < k - 1 ==> (#[trigger] open_rows@[j])@ == prune(
                        self.open_rows@[j + 1]@,
                        c,
                        j + 1,
                    ),
            decreases self.open_rows.len() - k,
        {
            open_rows.push(prune_row(&self.open_rows[k], c, k));
            k += 1;
        }
        proof {
            assert(rows_view(open_rows@) =~= successor(self@, c).open);
        }
        Fields { size: self.size, fixed_rows, open_rows }
    }

    /// One step of the search: the states one committed row deeper, in the
    /// order of the candidates of the next row. A solved state comes back
    /// alone and unchanged.
    pub fn get_next_iteration(&self) -> (next: Vec<Fields>)
        ensures
            boards(next@) == next_iteration(self@),
            self@.solved() ==> boards(next@) == seq![self@],
            self@.well_formed() && self@.consistent() ==> forall|i: int|
                0 <= i < next.len() ==> {
                    let s = #[trigger] next@[i]@;
                    s.well_formed() && s.consistent() && s.possible()
                },
    {
        if self.is_solved() {
            let mut same: Vec<Fields> = Vec::new();
            same.push(self.clone());
            proof {
                assert(boards(same@) =~= seq![self@]);
                assert(boards(same@)[0] == same@[0]@);
            }
            return same;
        }
        let first = &self.open_rows[0];
        let mut next: Vec<Fields> = Vec::new();
        let mut i: usize = 0;
        proof {
            reveal(Seq::filter);
            assert(first@.take(0) =~= Seq::<u8>::empty());
            assert(first@.take(0).map_values(|c: u8| successor(self@, c)) =~= Seq::<
                Board,
            >::empty());
            assert(boards(next@) =~= successors_of(self@, first@.take(0)));
        }
        while i < first.len()
            invariant
                i <= first.len(),
                !self@.solved(),
                first@ == self@.open[0],
                boards(next@) == successors_of(self@, first@.take(i as int)),
            decreases first.len() - i,
        {
            let c: u8 = first[i];
            let candidate = self.commit(c);
            let ghost before = boards(next@);
            proof {
                let done = first@.take(i as int);
                assert(first@.take(i as int + 1) =~= done.push(c));
                assert(done.push(c).map_values(|c: u8| successor(self@, c)) =~= done.map_values(
                    |c: u8| successor(self@, c),
                ).push(successor(self@, c)));
                lemma_filter_push(
                    done.map_values(|c: u8| successor(self@, c)),
                    successor(self@, c),
                    |s: Board| s.possible(),
                );
            }
            if candidate.is_still_possible() {
                next.push(candidate);
                proof {
                    assert(boards(next@) =~= before.push(candidate@));
                }
            }
            i += 1;
        }
        proof {
            assert(first@.take(first.len() as int) =~= first@);
            if self@.well_formed() && self@.consistent() {
                lemma_step_stays_sound(self@);
                assert forall|i: int| 0 <= i < next.len() implies {
                    let s = #[trigger] next@[i]@;
                    s.well_formed() && s.consistent() && s.possible()
                } by {
                    assert(next@[i]@ == next_iteration(self@)[i]);
                }
            }
        }
        next
    }

    /// Every solved state that the search reaches from this one, depth first,
    /// so in the lexicographic order of the committed columns.
    pub fn get_all_solutions(&self) -> (found: Vec<Fields>)
        ensures
            boards(found@) == solutions(self@),
            self@.well_formed() && self@.consistent() ==> forall|i: int|
                0 <= i < found.len() ==> is_solution(#[trigger] found@[i]@),
        decreases self.open_rows.len(),
    {
        if self.is_solved() {
            let mut same: Vec<Fields> = Vec::new();
            same.push(self.clone());
            proof {
                assert(boards(same@) =~= seq![self@]);
                assert(boards(same@)[0] == same@[0]@);
            }
            return same;
        }
        let next = self.get_next_iteration();
        let mut found: Vec<Fields> = Vec::new();
        let mut i: usize = 0;
        proof {
            lemma_step_commits_one_row(self@);
            assert(boards(found@) =~= Seq::<Board>::empty());
        }
        while i < next.len()
            invariant
                i <= next.len(),
                boards(next@) == next_iteration(self@),
                forall|j: int|
                    0 <= j < next.len() ==> (#[trigger] boards(next@)[j]).open.len() + 1
                        == self.open_rows.len(),
                boards(found@) == gather(boards(next@), self.open_rows.len() as nat, i as nat),
            decreases next.len() - i,
        {
            let ghost before = boards(found@);
            assert(boards(next@)[i as int] == next@[i as int]@);
            let mut below = next[i].get_all_solutions();
            let ghost added = boards(below@);
            found.append(&mut below);
            proof {
                assert(boards(found@) =~= before + added);
            }
            i += 1;
        }
        proof {
            assert(boards(found@) == solutions(self@));
            if self@.well_formed() && self@.consistent() {
                lemma_solutions_are_solutions(self@);
                assert forall|i: int| 0 <= i < found.len() implies is_solution(
                    #[trigger] found@[i]@,
                ) by {
                    assert(found@[i]@ == solutions(self@)[i]);
                }
            }
        }
        found
    }
}

/// A step from an unsolved board yields only boards with one more committed
/// row and one pending row fewer, each for a candidate of the next row, and
/// none of them is a dead end.
pub proof fn lemma_step_commits_one_row(b: Board)
    requires
        !b.solved(),
    ensures
        forall|j: int|
            0 <= j < next_iteration(b).len() ==> {
                let s = #[trigger] next_iteration(b)[j];
                &&& s.possible()
                &&& s.open.len() + 1 == b.open.len()
                &&& exists|m: int| 0 <= m < b.open[0].len() && s == successor(b, b.open[0][m])
            },
{
    let all = b.open[0].map_values(|c: u8| successor(b, c));
    let keep = |s: Board| s.possible();
    lemma_filter_members(all, keep);
    assert forall|j: int| 0 <= j < next_iteration(b).len() implies {
        let s = #[trigger] next_iteration(b)[j];
        &&& s.possible()
        &&& s.open.len() + 1 == b.open.len()
        &&& exists|m: int| 0 <= m < b.open[0].len() && s == successor(b, b.open[0][m])
    } by {
        let s = next_iteration(b)[j];
        assert(all.filter(keep).contains(s));
        assert(all.contains(s));
        let m = choose|m: int| 0 <= m < all.len() && all[m] == s;
        assert(s == successor(b, b.open[0][m]));
    }
}

} // verus!
