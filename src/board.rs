use vstd::prelude::*;
use crate::space::Space;
use crate::choices::SudokuChoices;
use vstd::arithmetic::div_mod::lemma_fundamental_div_mod_converse;

verus! {

/// The three kinds of region: every cell lies in one of each.
#[derive(Clone, Copy, Debug, Hash, PartialEq, Eq, Structural)]
pub enum RegionKind {
    Row,
    Column,
    Square,
}

/// Which region of kind `kind` (0 to 8) holds cell `i`; rows and columns count
/// from the top and the left, squares row by row.
pub open spec fn region_of(kind: RegionKind, i: int) -> int {
    match kind {
        RegionKind::Row => i / 9,
        RegionKind::Column => i % 9,
        RegionKind::Square => (i / 27) * 3 + (i % 9) / 3,
    }
}

/// The place (0 to 8) of cell `i` within its region of kind `kind`.
pub open spec fn slot_of(kind: RegionKind, i: int) -> int {
    match kind {
        RegionKind::Row => i % 9,
        RegionKind::Column => i / 9,
        RegionKind::Square => ((i / 9) % 3) * 3 + i % 3,
    }
}

/// The cell at place `k` of region `r` of kind `kind`.
pub open spec fn region_cell(kind: RegionKind, r: int, k: int) -> int {
    match kind {
        RegionKind::Row => r * 9 + k,
        RegionKind::Column => k * 9 + r,
        RegionKind::Square => ((r / 3) * 3 + k / 3) * 9 + (r % 3) * 3 + k % 3,
    }
}

/// Two cells lie in a common region of kind `kind`.
pub open spec fn same_region(kind: RegionKind, i: int, j: int) -> bool {
    region_of(kind, i) == region_of(kind, j)
}

/// Two distinct cells that share a row, a column or a square.
pub open spec fn peers(i: int, j: int) -> bool {
    &&& i != j
    &&& (same_region(RegionKind::Row, i, j) || same_region(RegionKind::Column, i, j)
        || same_region(RegionKind::Square, i, j))
}

pub open spec fn is_cell(i: int) -> bool {
    0 <= i < 81
}

/// Cells and (region, place) pairs correspond one to one.
pub proof fn lemma_cell_region(kind: RegionKind, i: int)
    requires
        is_cell(i),
    ensures
        0 <= region_of(kind, i) < 9,
        0 <= slot_of(kind, i) < 9,
        region_cell(kind, region_of(kind, i), slot_of(kind, i)) == i,
{
    let y = i / 9;
    let x = i % 9;
    lemma_fundamental_div_mod_converse(i, 27, y / 3, 9 * (y % 3) + x);
    lemma_fundamental_div_mod_converse(
        (i / 27) * 3 + x / 3,
        3,
        i / 27,
        x / 3,
    );
    lemma_fundamental_div_mod_converse(((y % 3) * 3 + i % 3), 3, y % 3, i % 3);
    lemma_fundamental_div_mod_converse(i, 3, 3 * y + x / 3, x % 3);
}

pub proof fn lemma_region_cell(kind: RegionKind, r: int, k: int)
    requires
        0 <= r < 9,
        0 <= k < 9,
    ensures
        is_cell(region_cell(kind, r, k)),
        region_of(kind, region_cell(kind, r, k)) == r,
        slot_of(kind, region_cell(kind, r, k)) == k,
{
    let rq = r / 3;
    let rr = r % 3;
    let kq = k / 3;
    let kr = k % 3;
    let c = region_cell(RegionKind::Square, r, k);
    lemma_fundamental_div_mod_converse(c, 9, rq * 3 + kq, rr * 3 + kr);
    lemma_fundamental_div_mod_converse(c, 27, rq, kq * 9 + rr * 3 + kr);
    lemma_fundamental_div_mod_converse(rr * 3 + kr, 3, rr, kr);
    lemma_fundamental_div_mod_converse(rq * 3 + kq, 3, rq, kq);
    lemma_fundamental_div_mod_converse(c, 3, (rq * 3 + kq) * 3 + rr, kr);
}

/// A fixed 9 by 9 grid, stored row by row.
#[derive(Clone, Copy, Debug, Hash, PartialEq, Eq)]
pub struct Board<Cell>(pub [Cell; 81]);

impl<Cell> View for Board<Cell> {
    type V = Seq<Cell>;

    open spec fn view(&self) -> Seq<Cell> {
        self.0@
    }
}

impl<Cell> Board<Cell> {
    /// The 81 cells, row by row.
    pub fn iter(&self) -> (r: &[Cell])
        ensures
            r@ == self@,
    {
        self.0.as_slice()
    }

    /// The cell in column `x` and row `y`.
    pub fn get(&self, x: usize, y: usize) -> (r: &Cell)
        requires
            x < 9,
            y < 9,
        ensures
            *r == self@[y * 9 + x],
    {
        &self.0[y * 9 + x]
    }

    /// The cell with row-major index `i`.
    pub fn cell(&self, i: usize) -> (r: &Cell)
        requires
            i < 81,
        ensures
            *r == self@[i as int],
    {
        &self.0[i]
    }

    /// Replaces the cell with row-major index `i`.
    pub fn set_cell(&mut self, i: usize, v: Cell)
        requires
            i < 81,
        ensures
            final(self)@ == old(self)@.update(i as int, v),
    {
        self.0[i] = v;
    }
}

/// The cell with row-major index `k` of region `r` of kind `kind`.
pub fn region_cell_index(kind: RegionKind, r: usize, k: usize) -> (c: usize)
    requires
        r < 9,
        k < 9,
    ensures
        c == region_cell(kind, r as int, k as int),
        c < 81,
{
    proof {
        lemma_region_cell(kind, r as int, k as int);
    }
    match kind {
        RegionKind::Row => r * 9 + k,
        RegionKind::Column => k * 9 + r,
        RegionKind::Square => ((r / 3) * 3 + k / 3) * 9 + (r % 3) * 3 + k % 3,
    }
}

/// The region of kind `kind` that holds cell `pos`.
pub fn region_index(kind: RegionKind, pos: usize) -> (r: usize)
    requires
        pos < 81,
    ensures
        r == region_of(kind, pos as int),
        r < 9,
{
    proof {
        lemma_cell_region(kind, pos as int);
    }
    match kind {
        RegionKind::Row => pos / 9,
        RegionKind::Column => pos % 9,
        RegionKind::Square => (pos / 27) * 3 + (pos % 9) / 3,
    }
}

/// The nine cells of the region of kind `kind` that holds `pos`, `pos` itself included.
pub fn region_positions(kind: RegionKind, pos: usize) -> (r: [usize; 9])
    requires
        pos < 81,
    ensures
        forall|k: int| 0 <= k < 9 ==> r@[k] == region_cell(kind, region_of(kind, pos as int), k),
{
    let g = region_index(kind, pos);
    let mut r = [0usize; 9];
    let mut k: usize = 0;
    while k < 9
        invariant
            k <= 9,
            g == region_of(kind, pos as int),
            g < 9,
            r@.len() == 9,
            forall|j: int| 0 <= j < k ==> r@[j] == region_cell(kind, g as int, j),
        decreases 9 - k,
    {
        r[k] = region_cell_index(kind, g, k);
        k = k + 1;
    }
    r
}

/// A board of values: each cell is determined (`Some`) or not (`None`).
pub type SudokuBoard = Board<Option<Space>>;

/// A board of candidate sets, one per cell.
pub type PossibilitySpaceBoard = Board<SudokuChoices>;

/// Number of undetermined cells among the first `n`.
pub open spec fn num_none(b: Seq<Option<Space>>, n: int) -> nat
    decreases n,
{
    if n <= 0 {
        0
    } else {
        num_none(b, n - 1) + if b[n - 1] is None { 1nat } else { 0nat }
    }
}

/// Every cell is determined.
pub open spec fn is_solved(b: Seq<Option<Space>>) -> bool {
    forall|i: int| 0 <= i < 81 ==> b[i] is Some
}

/// Every cell determined in `b0` holds the same value in `b1`.
pub open spec fn extends(b0: Seq<Option<Space>>, b1: Seq<Option<Space>>) -> bool {
    forall|i: int| 0 <= i < 81 && b0[i] is Some ==> b1[i] == b0[i]
}

pub proof fn lemma_num_none_zero(b: Seq<Option<Space>>, n: int)
    requires
        0 <= n <= b.len(),
    ensures
        num_none(b, n) == 0 <==> (forall|i: int| 0 <= i < n ==> b[i] is Some),
    decreases n,
{
    if n > 0 {
        lemma_num_none_zero(b, n - 1);
    }
}

/// Determining cells lowers the count of undetermined ones, strictly where one more is determined.
pub proof fn lemma_num_none_extends(b0: Seq<Option<Space>>, b1: Seq<Option<Space>>, n: int)
    requires
        0 <= n <= 81,
        b0.len() == 81,
        b1.len() == 81,
        extends(b0, b1),
    ensures
        num_none(b1, n) <= num_none(b0, n),
        (exists|i: int| 0 <= i < n && b0[i] is None && b1[i] is Some) ==> num_none(b1, n) < num_none(b0, n),
    decreases n,
{
    if n > 0 {
        lemma_num_none_extends(b0, b1, n - 1);
        if exists|i: int| 0 <= i < n && b0[i] is None && b1[i] is Some {
            let i = choose|i: int| 0 <= i < n && b0[i] is None && b1[i] is Some;
            if i < n - 1 {
                assert(exists|i: int| 0 <= i < n - 1 && b0[i] is None && b1[i] is Some);
            }
        }
    }
}

impl Board<SudokuChoices> {
    /// Candidate sets read off a board of values: `{v}` where `v` is determined, all
    /// nine values elsewhere.
    pub fn new(board: &SudokuBoard) -> (r: PossibilitySpaceBoard)
        ensures
            forall|i: int| 0 <= i < 81 ==> match #[trigger] board@[i] {
                Some(s) => r@[i].is_only(s),
                None => r@[i].is_full(),
            },
    {
        let mut a = [SudokuChoices::all(); 81];
        let mut i: usize = 0;
        while i < 81
            invariant
                i <= 81,
                a@.len() == 81,
                forall|j: int| 0 <= j < i ==> match #[trigger] board@[j] {
                    Some(s) => a@[j].is_only(s),
                    None => a@[j].is_full(),
                },
            decreases 81 - i,
        {
            a[i] = SudokuChoices::new(board.0[i]);
            i = i + 1;
        }
        Board(a)
    }
}

impl Board<Option<Space>> {
    /// Every cell is determined.
    pub fn is_solution(&self) -> (r: bool)
        ensures
            r == is_solved(self@),
    {
        let mut i: usize = 0;
        while i < 81
            invariant
                i <= 81,
                forall|j: int| 0 <= j < i ==> self@[j] is Some,
            decreases 81 - i,
        {
            if self.0[i].is_none() {
                return false;
            }
            i = i + 1;
        }
        true
    }

    /// The number of undetermined cells: lower is closer to solved.
    pub fn score(&self) -> (r: usize)
        ensures
            r == num_none(self@, 81),
            r == 0 <==> is_solved(self@),
    {
        let mut r: usize = 0;
        let mut i: usize = 0;
        while i < 81
            invariant
                i <= 81,
                r == num_none(self@, i as int),
                r <= i,
            decreases 81 - i,
        {
            if self.0[i].is_none() {
                r = r + 1;
            }
            i = i + 1;
        }
        proof {
            lemma_num_none_zero(self@, 81);
        }
        r
    }
}

} // verus!
