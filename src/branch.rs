use vstd::prelude::*;
use crate::space::{Space, lemma_space_idx, space_at, space_idx};
use crate::choices::SudokuChoices;
use crate::board::{Board, PossibilitySpaceBoard, SudokuBoard, extends, is_solved, lemma_num_none_extends, num_none};
use crate::reduce::{compatible, propagated, reduce_spec};
use crate::validate::is_valid_solution;

verus! {

/// The boards that place, at cell `i` of `b`, each value among the first `k` that
/// `p` leaves possible there, in ascending order.
pub open spec fn cell_branches(
    b: Seq<Option<Space>>,
    p: Seq<SudokuChoices>,
    i: int,
    k: int,
) -> Seq<Seq<Option<Space>>>
    decreases k,
{
    if k <= 0 {
        Seq::empty()
    } else if p[i]@[k - 1] {
        cell_branches(b, p, i, k - 1).push(b.update(i, Some(space_at(k - 1))))
    } else {
        cell_branches(b, p, i, k - 1)
    }
}

/// The branches of every undetermined cell among the first `n`, in row-major order.
pub open spec fn branches(
    b: Seq<Option<Space>>,
    p: Seq<SudokuChoices>,
    n: int,
) -> Seq<Seq<Option<Space>>>
    decreases n,
{
    if n <= 0 {
        Seq::empty()
    } else if b[n - 1] is None {
        branches(b, p, n - 1) + cell_branches(b, p, n - 1, 9)
    } else {
        branches(b, p, n - 1)
    }
}

/// The successors of a propagated board: none after a contradiction, the board itself
/// when it is solved, else one board per undetermined cell and remaining candidate.
pub open spec fn successors_spec(
    b: Seq<Option<Space>>,
    p: Seq<SudokuChoices>,
    invalid: bool,
) -> Seq<Seq<Option<Space>>> {
    if invalid {
        Seq::empty()
    } else if is_solved(b) {
        seq![b]
    } else {
        branches(b, p, 81)
    }
}

/// A board, its candidate sets and a contradiction flag that `reduce` may leave when
/// it starts from `b_in`.
pub open spec fn reduce_outcome(
    b_in: Seq<Option<Space>>,
    b: Seq<Option<Space>>,
    p: Seq<SudokuChoices>,
    invalid: bool,
) -> bool {
    &&& b.len() == 81
    &&& extends(b_in, b)
    &&& !invalid ==> propagated(b_in, b, p)
    &&& forall|s: Seq<Option<Space>>| #[trigger] is_valid_solution(s) && extends(b_in, s)
        ==> !invalid && compatible(b, p, s)
}

proof fn lemma_cell_branches_elems(b: Seq<Option<Space>>, p: Seq<SudokuChoices>, i: int, m: int)
    requires
        m <= 9,
    ensures
        forall|j: int| 0 <= j < cell_branches(b, p, i, m).len() ==> exists|k: int|
            0 <= k < 9 && #[trigger] cell_branches(b, p, i, m)[j] == b.update(i, Some(space_at(k))),
    decreases m,
{
    if m > 0 {
        lemma_cell_branches_elems(b, p, i, m - 1);
        let prev = cell_branches(b, p, i, m - 1);
        assert forall|j: int| 0 <= j < cell_branches(b, p, i, m).len() implies exists|k: int|
            0 <= k < 9 && #[trigger] cell_branches(b, p, i, m)[j] == b.update(i, Some(space_at(k))) by {
            if j < prev.len() {
                assert(cell_branches(b, p, i, m)[j] == prev[j]);
                let k = choose|k: int| 0 <= k < 9 && #[trigger] prev[j] == b.update(i, Some(space_at(k)));
                assert(cell_branches(b, p, i, m)[j] == b.update(i, Some(space_at(k))));
            } else {
                assert(cell_branches(b, p, i, m)[j] == b.update(i, Some(space_at(m - 1))));
                assert(0 <= m - 1 < 9);
            }
        }
    }
}

/// `x` is `b` with one more cell, among the first `n`, determined.
pub open spec fn one_more(b: Seq<Option<Space>>, n: int, x: Seq<Option<Space>>) -> bool {
    exists|i: int, k: int| 0 <= i < n && 0 <= k < 9 && b[i] is None && x == b.update(i, Some(space_at(k)))
}

/// Each branch determines one cell that `b` leaves undetermined.
proof fn lemma_branches_elems(b: Seq<Option<Space>>, p: Seq<SudokuChoices>, n: int)
    requires
        n <= 81,
    ensures
        forall|j: int| 0 <= j < branches(b, p, n).len() ==> one_more(b, n, #[trigger] branches(b, p, n)[j]),
    decreases n,
{
    if n > 0 {
        lemma_branches_elems(b, p, n - 1);
        let prev = branches(b, p, n - 1);
        if b[n - 1] is None {
            lemma_cell_branches_elems(b, p, n - 1, 9);
            let cb = cell_branches(b, p, n - 1, 9);
            assert forall|j: int| 0 <= j < branches(b, p, n).len() implies one_more(b, n, #[trigger] branches(b, p, n)[j]) by {
                if j < prev.len() {
                    assert(branches(b, p, n)[j] == prev[j]);
                    assert(one_more(b, n - 1, prev[j]));
                    let (i, k) = choose|i: int, k: int|
                        0 <= i < n - 1 && 0 <= k < 9 && b[i] is None && prev[j] == b.update(i, Some(space_at(k)));
                    assert(0 <= i < n && branches(b, p, n)[j] == b.update(i, Some(space_at(k))));
                } else {
                    assert(branches(b, p, n)[j] == cb[j - prev.len()]);
                    let k = choose|k: int| 0 <= k < 9 && #[trigger] cb[j - prev.len()] == b.update(n - 1, Some(space_at(k)));
                    assert(branches(b, p, n)[j] == b.update(n - 1, Some(space_at(k))));
                    assert(0 <= n - 1 < n && b[n - 1] is None);
                }
            }
        } else {
            assert forall|j: int| 0 <= j < branches(b, p, n).len() implies one_more(b, n, #[trigger] branches(b, p, n)[j]) by {
                assert(branches(b, p, n) == prev);
                assert(one_more(b, n - 1, prev[j]));
                let (i, k) = choose|i: int, k: int|
                    0 <= i < n - 1 && 0 <= k < 9 && b[i] is None && prev[j] == b.update(i, Some(space_at(k)));
                assert(0 <= i < n && branches(b, p, n)[j] == b.update(i, Some(space_at(k))));
            }
        }
    }
}

proof fn lemma_cell_branches_contain(
    b: Seq<Option<Space>>,
    p: Seq<SudokuChoices>,
    i: int,
    k: int,
    m: int,
)
    requires
        0 <= k < m <= 9,
        p[i]@[k],
    ensures
        cell_branches(b, p, i, m).contains(b.update(i, Some(space_at(k)))),
    decreases m,
{
    let x = b.update(i, Some(space_at(k)));
    if k < m - 1 {
        lemma_cell_branches_contain(b, p, i, k, m - 1);
        let prev = cell_branches(b, p, i, m - 1);
        let j = choose|j: int| 0 <= j < prev.len() && prev[j] == x;
        if p[i]@[m - 1] {
            assert(cell_branches(b, p, i, m)[j] == x);
        }
    } else {
        let prev = cell_branches(b, p, i, m - 1);
        assert(cell_branches(b, p, i, m)[prev.len() as int] == x);
    }
}

proof fn lemma_branches_contain(
    b: Seq<Option<Space>>,
    p: Seq<SudokuChoices>,
    i: int,
    k: int,
    n: int,
)
    requires
        0 <= i < n,
        0 <= k < 9,
        b[i] is None,
        p[i]@[k],
    ensures
        branches(b, p, n).contains(b.update(i, Some(space_at(k)))),
    decreases n,
{
    let x = b.update(i, Some(space_at(k)));
    let prev = branches(b, p, n - 1);
    if i < n - 1 {
        lemma_branches_contain(b, p, i, k, n - 1);
        let j = choose|j: int| 0 <= j < prev.len() && prev[j] == x;
        assert(branches(b, p, n)[j] == x);
    } else {
        lemma_cell_branches_contain(b, p, i, k, 9);
        let cb = cell_branches(b, p, i, 9);
        let j = choose|j: int| 0 <= j < cb.len() && cb[j] == x;
        assert(branches(b, p, n)[prev.len() + j] == x);
    }
}

/// Branching loses no solution: every valid solution that extends a board extends
/// one of the successors that propagating and branching it may give.
pub proof fn lemma_successors_keep_solutions(
    b_in: Seq<Option<Space>>,
    b: Seq<Option<Space>>,
    p: Seq<SudokuChoices>,
    invalid: bool,
    s: Seq<Option<Space>>,
)
    requires
        b.len() == 81,
        reduce_outcome(b_in, b, p, invalid),
        is_valid_solution(s),
        extends(b_in, s),
    ensures
        exists|k: int| 0 <= k < successors_spec(b, p, invalid).len()
            && extends(#[trigger] successors_spec(b, p, invalid)[k], s),
{
    assert(compatible(b, p, s));
    let succ = successors_spec(b, p, invalid);
    if is_solved(b) {
        assert(succ[0] == b);
    } else {
        let i = choose|i: int| 0 <= i < 81 && !(b[i] is Some);
        let v = s[i]->Some_0;
        lemma_space_idx(v);
        assert(p[i].has(v));
        lemma_branches_contain(b, p, i, space_idx(v), 81);
        let x = b.update(i, Some(space_at(space_idx(v))));
        let j = choose|j: int| 0 <= j < succ.len() && succ[j] == x;
        assert(space_at(space_idx(v)) == v);
        assert(s[i] == Some(v));
        assert(extends(succ[j], s));
    }
}

/// The views of a list of boards.
pub open spec fn views(v: Seq<SudokuBoard>) -> Seq<Seq<Option<Space>>> {
    v.map_values(|x: SudokuBoard| x@)
}

/// The successor boards of a board that `reduce` has propagated, with the candidate
/// sets and the contradiction flag it returned.
pub fn successors(
    reduced_board: &SudokuBoard,
    possibilities_board: &PossibilitySpaceBoard,
    invalid: bool,
) -> (r: Vec<SudokuBoard>)
    ensures
        views(r@) == successors_spec(reduced_board@, possibilities_board@, invalid),
{
    let mut r: Vec<SudokuBoard> = Vec::new();
    if invalid {
        assert(views(r@) =~= successors_spec(reduced_board@, possibilities_board@, invalid));
        return r;
    }
    if reduced_board.is_solution() {
        r.push(*reduced_board);
        assert(views(r@) =~= successors_spec(reduced_board@, possibilities_board@, invalid));
        return r;
    }
    let ghost b = reduced_board@;
    let ghost p = possibilities_board@;
    let mut i: usize = 0;
    while i < 81
        invariant
            i <= 81,
            b == reduced_board@,
            p == possibilities_board@,
            views(r@) == branches(b, p, i as int),
        decreases 81 - i,
    {
        if reduced_board.0[i].is_none() {
            let ghost before = views(r@);
            let choices = possibilities_board.0[i];
            let mut k: usize = 0;
            while k < 9
                invariant
                    i < 81,
                    k <= 9,
                    b == reduced_board@,
                    p == possibilities_board@,
                    choices == p[i as int],
                    views(r@) == before + cell_branches(b, p, i as int, k as int),
                decreases 9 - k,
            {
                if choices.0[k] {
                    let mut new_board = *reduced_board;
                    new_board.set_cell(i, Some(Space::at(k)));
                    let ghost prev = r@;
                    r.push(new_board);
                    assert(views(r@) =~= views(prev).push(new_board@));
                    assert(views(r@) =~= before + cell_branches(b, p, i as int, k + 1));
                }
                k = k + 1;
            }
        }
        i = i + 1;
    }
    r
}

impl Board<Option<Space>> {
    /// The states a search explores after this one: the board is propagated with
    /// `reduce`, then its successors are those of `successors`. Each extends this
    /// board, with one more determined cell where it is not solved, and no valid
    /// solution of this board is lost.
    pub fn next_states(&self) -> (r: Vec<SudokuBoard>)
        ensures
            views(r@) == successors_spec(reduce_spec(self@).0, reduce_spec(self@).1, reduce_spec(self@).2),
            forall|k: int| 0 <= k < r@.len() ==> extends(self@, (#[trigger] r@[k])@),
            forall|k: int| 0 <= k < r@.len() && !is_solved(self@)
                ==> num_none((#[trigger] r@[k])@, 81) < num_none(self@, 81),
            forall|s: Seq<Option<Space>>| #[trigger] is_valid_solution(s) && extends(self@, s)
                ==> exists|k: int| 0 <= k < r@.len() && extends((#[trigger] r@[k])@, s),
    {
        let mut reduced_board = *self;
        let (possibilities_board, invalid) = reduced_board.reduce();
        let r = successors(&reduced_board, &possibilities_board, invalid);
        proof {
            let b = reduced_board@;
            let p = possibilities_board@;
            assert(reduce_outcome(self@, b, p, invalid));
            let succ = successors_spec(b, p, invalid);
            assert forall|k: int| 0 <= k < r@.len() implies extends(self@, (#[trigger] r@[k])@)
                && (!is_solved(self@) ==> num_none(r@[k]@, 81) < num_none(self@, 81)) by {
                assert(r@[k]@ == views(r@)[k]);
                if !invalid && is_solved(b) {
                    assert(r@[k]@ == b);
                    if !is_solved(self@) {
                        let i = choose|i: int| 0 <= i < 81 && !(self@[i] is Some);
                        lemma_num_none_extends(self@, b, 81);
                    }
                } else {
                    lemma_branches_elems(b, p, 81);
                    assert(one_more(b, 81, branches(b, p, 81)[k]));
                    let (i, kk) = choose|i: int, kk: int|
                        0 <= i < 81 && 0 <= kk < 9 && b[i] is None && branches(b, p, 81)[k] == b.update(i, Some(space_at(kk)));
                    let x = b.update(i, Some(space_at(kk)));
                    assert(self@[i] is None);
                    assert(extends(self@, x));
                    lemma_num_none_extends(self@, x, 81);
                }
            }
            assert forall|s: Seq<Option<Space>>| #[trigger] is_valid_solution(s) && extends(self@, s)
                implies exists|k: int| 0 <= k < r@.len() && extends((#[trigger] r@[k])@, s) by {
                lemma_successors_keep_solutions(self@, b, p, invalid, s);
                let k = choose|k: int| 0 <= k < succ.len() && extends(#[trigger] succ[k], s);
                assert(r@[k]@ == views(r@)[k]);
            }
        }
        r
    }
}

} // verus!
