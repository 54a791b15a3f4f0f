//! The board state, its mathematical model and its construction.

use vstd::prelude::*;

verus! {

/// The mathematical picture of a partially filled board.
pub struct Board {
    /// The board's dimension.
    pub size: nat,
    /// The column of the queen in each committed row, from row 0 on.
    pub fixed: Seq<u8>,
    /// For each pending row, in row order, the columns still available to it.
    pub open: Seq<Seq<u8>>,
}

/// The columns `0, 1, .., count - 1` in ascending order.
pub open spec fn columns(count: nat) -> Seq<u8> {
    Seq::new(count, |i: int| i as u8)
}

/// The candidate rows of a fresh board: the top row is offered only the left
/// half of the board (with the centre column when the size is odd), since a
/// queen on the right half gives the mirror image of one on the left. Every
/// other row is offered every column.
pub open spec fn initial_rows(size: nat) -> Seq<Seq<u8>> {
    Seq::new(
        size,
        |row: int|
            if row == 0 {
                columns((size + 1) / 2)
            } else {
                columns(size)
            },
    )
}

/// The fresh board of the given size: nothing committed yet.
pub open spec fn initial(size: nat) -> Board {
    Board { size, fixed: Seq::empty(), open: initial_rows(size) }
}

/// A candidate row is strictly ascending and stays on the board.
pub open spec fn ascending_below(row: Seq<u8>, bound: nat) -> bool {
    &&& forall|i: int, j: int| 0 <= i < j < row.len() ==> row[i] < row[j]
    &&& forall|i: int| 0 <= i < row.len() ==> (#[trigger] row[i] as nat) < bound
}

/// A queen in column `c` attacks column `d` of the row `n` rows below it:
/// the same column, or one of the two diagonals.
pub open spec fn attacks(c: u8, d: u8, n: int) -> bool {
    d == c || d as int == c as int + n || d as int == c as int - n
}

/// No two queens of the placement share a column or a diagonal.
pub open spec fn peaceful(fixed: Seq<u8>) -> bool {
    forall|i: int, j: int|
        0 <= i < j < fixed.len() ==> fixed[i] != fixed[j] && fixed[j] as int - fixed[i] as int != j
            - i && fixed[i] as int - fixed[j] as int != j - i
}

impl Board {
    /// Every row is committed.
    pub open spec fn solved(self) -> bool {
        self.open.len() == 0
    }

    /// No pending row has run out of candidates.
    pub open spec fn possible(self) -> bool {
        forall|k: int| 0 <= k < self.open.len() ==> (#[trigger] self.open[k]).len() > 0
    }

    /// Committed and pending rows together make up the board, every column
    /// lies on it, and every candidate row is an ascending set of columns.
    pub open spec fn well_formed(self) -> bool {
        &&& self.fixed.len() + self.open.len() == self.size
        &&& forall|i: int| 0 <= i < self.fixed.len() ==> (#[trigger] self.fixed[i] as nat) < self.size
        &&& forall|k: int|
            0 <= k < self.open.len() ==> ascending_below(#[trigger] self.open[k], self.size)
    }

    /// No committed queen attacks a candidate of a pending row.
    pub open spec fn pruned(self) -> bool {
        forall|i: int, k: int, m: int|
            0 <= i < self.fixed.len() && 0 <= k < self.open.len() && 0 <= m < self.open[k].len()
                ==> !attacks(#[trigger] self.fixed[i], #[trigger] self.open[k][m], self.fixed.len() + k - i)
    }

    /// The committed queens are at peace, and pruning is up to date.
    pub open spec fn consistent(self) -> bool {
        peaceful(self.fixed) && self.pruned()
    }
}

/// A snapshot of the search: the rows decided so far and, for each row still
/// to decide, the columns left to it.
#[derive(Debug)]
pub struct Fields {
    pub size: u8,
    pub fixed_rows: Vec<u8>,
    pub open_rows: Vec<Vec<u8>>,
}

/// The candidate rows as sequences of columns.
pub open spec fn rows_view(rows: Seq<Vec<u8>>) -> Seq<Seq<u8>> {
    Seq::new(rows.len(), |i: int| rows[i]@)
}

/// The boards that a list of states stands for.
pub open spec fn boards(states: Seq<Fields>) -> Seq<Board> {
    Seq::new(states.len(), |i: int| states[i]@)
}

impl View for Fields {
    type V = Board;

    open spec fn view(&self) -> Board {
        Board {
            size: self.size as nat,
            fixed: self.fixed_rows@,
            open: rows_view(self.open_rows@),
        }
    }
}

/// A copy of a list of columns.
pub fn copy_row(row: &Vec<u8>) -> (copy: Vec<u8>)
    ensures
        copy@ == row@,
{
    let mut copy: Vec<u8> = Vec::new();
    let mut i: usize = 0;
    while i < row.len()
        invariant
            i <= row.len(),
            copy@ == row@.take(i as int),
        decreases row.len() - i,
    {
        copy.push(row[i]);
        proof {
            assert(row@.take(i as int + 1) =~= row@.take(i as int).push(row@[i as int]));
        }
        i += 1;
    }
    proof {
        assert(row@.take(row.len() as int) =~= row@);
    }
    copy
}

impl Clone for Fields {
    fn clone(&self) -> (copy: Self)
        ensures
            copy@ == self@,
    {
        let mut open_rows: Vec<Vec<u8>> = Vec::new();
        let mut k: usize = 0;
        while k < self.open_rows.len()
            invariant
                k <= self.open_rows.len(),
                open_rows@.len() == k,
                forall|j: int| 0 <= j < k ==> (#[trigger] open_rows@[j])@ == self.open_rows@[j]@,
            decreases self.open_rows.len() - k,
        {
            open_rows.push(copy_row(&self.open_rows[k]));
            k += 1;
        }
        proof {
            assert(rows_view(open_rows@) =~= rows_view(self.open_rows@));
        }
        Fields { size: self.size, fixed_rows: copy_row(&self.fixed_rows), open_rows }
    }
}

impl Fields {
    /// The fresh state of a board of the given size.
    pub fn default(size: u8) -> (state: Fields)
        ensures
            state@ == initial(size as nat),
            state@.well_formed(),
            state@.consistent(),
    {
        proof {
            lemma_initial_is_sound(size as nat);
        }
        Fields { size, fixed_rows: Vec::new(), open_rows: Fields::gen_fields(size) }
    }

    /// Whether every row is committed.
    pub fn is_solved(&self) -> (solved: bool)
        ensures
            solved == self@.solved(),
    {
        self.open_rows.len() == 0
    }

    /// Whether every pending row still has a candidate.
    pub fn is_still_possible(&self) -> (possible: bool)
        ensures
            possible == self@.possible(),
    {
        let mut k: usize = 0;
        while k < self.open_rows.len()
            invariant
                k <= self.open_rows.len(),
                forall|j: int| 0 <= j < k ==> (#[trigger] self@.open[j]).len() > 0,
            decreases self.open_rows.len() - k,
        {
            if self.open_rows[k].len() == 0 {
                assert(self@.open[k as int].len() == 0);
                return false;
            }
            k += 1;
        }
        true
    }

    /// The candidate rows of a fresh board of the given size.
    pub fn gen_fields(num: u8) -> (rows: Vec<Vec<u8>>)
        ensures
            rows_view(rows@) == initial_rows(num as nat),
    {
        let half: u8 = num / 2 + num % 2;
        let mut rows: Vec<Vec<u8>> = Vec::new();
        let mut row: u8 = 0;
        while row < num
            invariant
                row <= num,
                half as nat == (num as nat + 1) / 2,
                rows@.len() == row,
                forall|j: int| 0 <= j < row ==> (#[trigger] rows@[j])@ == initial_rows(num as nat)[j],
            decreases num - row,
        {
            let candidates = if row == 0 {
                column_range(half)
            } else {
                column_range(num)
            };
            rows.push(candidates);
            row += 1;
        }
        proof {
            assert(rows_view(rows@) =~= initial_rows(num as nat));
        }
        rows
    }
}

/// The columns below `count`, ascending.
fn column_range(count: u8) -> (row: Vec<u8>)
    ensures
        row@ == columns(count as nat),
{
    let mut row: Vec<u8> = Vec::new();
    let mut c: u8 = 0;
    while c < count
        invariant
            c <= count,
            row@.len() == c,
            forall|j: int| 0 <= j < c ==> row@[j] == j as u8,
        decreases count - c,
    {
        row.push(c);
        c += 1;
    }
    proof {
        assert(row@ =~= columns(count as nat));
    }
    row
}

/// A fresh board is well formed and consistent.
pub proof fn lemma_initial_is_sound(size: nat)
    requires
        size <= u8::MAX,
    ensures
        initial(size).well_formed(),
        initial(size).consistent(),
        initial(size).solved() <==> size == 0,
{
    let b = initial(size);
    assert forall|k: int| 0 <= k < b.open.len() implies ascending_below(
        #[trigger] b.open[k],
        b.size,
    ) by {
        let row = b.open[k];
        assert forall|i: int| 0 <= i < row.len() implies (#[trigger] row[i] as nat) < size by {}
    }
}

} // verus!
