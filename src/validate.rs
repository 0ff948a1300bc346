use vstd::prelude::*;
use crate::space::{Space, space_at, space_idx, lemma_space_at, lemma_space_idx};
use crate::board::{
    Board, RegionKind, SudokuBoard, lemma_cell_region, lemma_region_cell, peers, region_cell,
    region_cell_index, region_of, same_region, slot_of, is_solved,
};
use vstd::set_lib::{lemma_int_range, lemma_subset_equality, set_int_range};

verus! {

/// A region that holds one value twice: its kind, its index (0 to 8) and the value.
#[derive(Clone, Copy, Debug, Hash, PartialEq, Eq, Structural)]
pub struct ValidationError {
    pub kind: RegionKind,
    pub index: usize,
    pub value: Space,
}

/// The nine cells of region `r` of kind `kind`, in order.
pub open spec fn region_cells(b: Seq<Option<Space>>, kind: RegionKind, r: int) -> Seq<Option<Space>> {
    Seq::new(9, |k: int| b[region_cell(kind, r, k)])
}

/// The value at place `j` of `s` is determined and occurred before.
pub open spec fn dup_at(s: Seq<Option<Space>>, j: int) -> bool {
    &&& s[j] is Some
    &&& exists|i: int| 0 <= i < j && s[i] == s[j]
}

/// Some value occurs twice in `s`.
pub open spec fn has_dup(s: Seq<Option<Space>>) -> bool {
    exists|j: int| 0 <= j < s.len() && dup_at(s, j)
}

/// Place `j` is the first where a value of `s` repeats.
pub open spec fn first_dup(s: Seq<Option<Space>>, j: int) -> bool {
    &&& 0 <= j < s.len()
    &&& dup_at(s, j)
    &&& forall|i: int| 0 <= i < j ==> !dup_at(s, i)
}

/// Scan order of region kinds: rows, then columns, then squares.
pub open spec fn kind_rank(kind: RegionKind) -> int {
    match kind {
        RegionKind::Row => 0,
        RegionKind::Column => 1,
        RegionKind::Square => 2,
    }
}

/// No row, column or square holds a value twice.
pub open spec fn board_valid(b: Seq<Option<Space>>) -> bool {
    forall|kind: RegionKind, r: int| 0 <= r < 9 ==> !has_dup(#[trigger] region_cells(b, kind, r))
}

/// No two peers hold the same value.
pub open spec fn no_peer_clash(b: Seq<Option<Space>>) -> bool {
    forall|i: int, q: int|
        0 <= i < 81 && 0 <= q < 81 && peers(i, q) && (#[trigger] b[i]) is Some && (#[trigger] b[q]) is Some
            ==> b[i] != b[q]
}

/// A board is valid exactly when no two peers hold the same value.
pub proof fn lemma_valid_no_clash(b: Seq<Option<Space>>)
    requires
        b.len() == 81,
    ensures
        board_valid(b) <==> no_peer_clash(b),
{
    if no_peer_clash(b) {
        assert forall|kind: RegionKind, r: int| 0 <= r < 9 implies !has_dup(#[trigger] region_cells(b, kind, r)) by {
            let s = region_cells(b, kind, r);
            if has_dup(s) {
                let j = choose|j: int| 0 <= j < s.len() && dup_at(s, j);
                let i = choose|i: int| 0 <= i < j && s[i] == s[j];
                lemma_region_cell(kind, r, i);
                lemma_region_cell(kind, r, j);
                let ci = region_cell(kind, r, i);
                let cj = region_cell(kind, r, j);
                assert(same_region(kind, ci, cj));
                assert(peers(ci, cj));
                assert(b[ci] is Some && b[cj] is Some);
            }
        }
    }
    if board_valid(b) {
        assert forall|i: int, q: int|
            0 <= i < 81 && 0 <= q < 81 && peers(i, q) && (#[trigger] b[i]) is Some && (#[trigger] b[q]) is Some
                implies b[i] != b[q] by {
            let kind = if same_region(RegionKind::Row, i, q) {
                RegionKind::Row
            } else if same_region(RegionKind::Column, i, q) {
                RegionKind::Column
            } else {
                RegionKind::Square
            };
            lemma_cell_region(kind, i);
            lemma_cell_region(kind, q);
            let r = region_of(kind, i);
            let s = region_cells(b, kind, r);
            assert(!has_dup(s));
            let si = slot_of(kind, i);
            let sq = slot_of(kind, q);
            if b[i] == b[q] {
                if si < sq {
                    assert(s[si] == s[sq]);
                    assert(dup_at(s, sq));
                } else {
                    assert(si != sq);
                    assert(s[si] == s[sq]);
                    assert(dup_at(s, si));
                }
            }
        }
    }
}

/// A complete board in which no two peers hold the same value.
pub open spec fn is_valid_solution(s: Seq<Option<Space>>) -> bool {
    &&& s.len() == 81
    &&& is_solved(s)
    &&& no_peer_clash(s)
}

/// In a valid solution every region holds every value.
pub proof fn lemma_region_holds_all(s: Seq<Option<Space>>, kind: RegionKind, r: int, v: Space)
    requires
        is_valid_solution(s),
        0 <= r < 9,
    ensures
        exists|k: int| 0 <= k < 9 && s[#[trigger] region_cell(kind, r, k)] == Some(v),
{
    broadcast use vstd::seq_lib::seq_to_set_is_finite;
    let t = Seq::new(9, |k: int| space_idx(s[region_cell(kind, r, k)]->Some_0));
    assert forall|i: int, j: int| 0 <= i < t.len() && 0 <= j < t.len() && i != j implies t[i] != t[j] by {
        lemma_region_cell(kind, r, i);
        lemma_region_cell(kind, r, j);
        let ci = region_cell(kind, r, i);
        let cj = region_cell(kind, r, j);
        assert(same_region(kind, ci, cj));
        assert(peers(ci, cj));
        lemma_space_idx(s[ci]->Some_0);
        lemma_space_idx(s[cj]->Some_0);
    }
    assert(t.no_duplicates());
    t.unique_seq_to_set();
    lemma_int_range(0, 9);
    assert forall|x: int| t.to_set().contains(x) implies set_int_range(0, 9).contains(x) by {
        let k = choose|k: int| 0 <= k < t.len() && t[k] == x;
        lemma_space_idx(s[region_cell(kind, r, k)]->Some_0);
    }
    lemma_subset_equality(t.to_set(), set_int_range(0, 9));
    lemma_space_idx(v);
    assert(set_int_range(0, 9).contains(space_idx(v)));
    assert(t.to_set().contains(space_idx(v)));
    let k = choose|k: int| 0 <= k < t.len() && t[k] == space_idx(v);
    lemma_region_cell(kind, r, k);
    lemma_space_idx(s[region_cell(kind, r, k)]->Some_0);
}

/// The first value that repeats in region `r` of kind `kind`, if any.
fn verify_set(board: &SudokuBoard, kind: RegionKind, r: usize) -> (res: Option<Space>)
    requires
        r < 9,
    ensures
        match res {
            Some(v) => exists|j: int| first_dup(region_cells(board@, kind, r as int), j)
                && region_cells(board@, kind, r as int)[j] == Some(v),
            None => !has_dup(region_cells(board@, kind, r as int)),
        },
{
    let ghost s = region_cells(board@, kind, r as int);
    let mut seen = [false; 9];
    let mut k: usize = 0;
    while k < 9
        invariant
            k <= 9,
            r < 9,
            s == region_cells(board@, kind, r as int),
            forall|v: int| 0 <= v < 9 ==> seen@[v] == exists|i: int| 0 <= i < k && #[trigger] s[i] == Some(space_at(v)),
            forall|j: int| 0 <= j < k ==> !dup_at(s, j),
        decreases 9 - k,
    {
        let c = region_cell_index(kind, r, k);
        if let Some(space) = board.0[c] {
            let v = space.idx();
            proof {
                lemma_space_idx(space);
            }
            if seen[v] {
                proof {
                    let i = choose|i: int| 0 <= i < k && #[trigger] s[i] == Some(space_at(v as int));
                    assert(s[k as int] == Some(space));
                    assert(dup_at(s, k as int));
                    assert(first_dup(s, k as int));
                }
                return Some(space);
            }
            seen[v] = true;
            proof {
                assert forall|w: int| 0 <= w < 9 implies seen@[w] == exists|i: int| 0 <= i < k + 1 && #[trigger] s[i] == Some(space_at(w)) by {
                    lemma_space_at(w);
                    if w == v {
                        assert(s[k as int] == Some(space_at(w)));
                    } else {
                        assert(s[k as int] != Some(space_at(w)));
                        if exists|i: int| 0 <= i < k + 1 && #[trigger] s[i] == Some(space_at(w)) {
                            let i = choose|i: int| 0 <= i < k + 1 && #[trigger] s[i] == Some(space_at(w));
                            assert(i < k);
                        }
                    }
                }
                assert(!dup_at(s, k as int)) by {
                    if exists|i: int| 0 <= i < k && s[i] == s[k as int] {
                        let i = choose|i: int| 0 <= i < k && s[i] == s[k as int];
                        assert(s[i] == Some(space_at(v as int)));
                    }
                }
            }
        } else {
            proof {
                assert forall|w: int| 0 <= w < 9 implies seen@[w] == exists|i: int| 0 <= i < k + 1 && #[trigger] s[i] == Some(space_at(w)) by {
                    if exists|i: int| 0 <= i < k + 1 && #[trigger] s[i] == Some(space_at(w)) {
                        let i = choose|i: int| 0 <= i < k + 1 && #[trigger] s[i] == Some(space_at(w));
                        assert(i < k);
                    }
                }
            }
        }
        k = k + 1;
    }
    None
}

/// The first region of kind `kind` that holds a value twice, if any, with that value.
fn scan_kind(board: &SudokuBoard, kind: RegionKind) -> (res: Option<ValidationError>)
    ensures
        match res {
            Some(e) => e.kind == kind && e.index < 9
                && (exists|j: int| first_dup(region_cells(board@, kind, e.index as int), j)
                    && region_cells(board@, kind, e.index as int)[j] == Some(e.value))
                && forall|r: int| 0 <= r < e.index ==> !has_dup(#[trigger] region_cells(board@, kind, r)),
            None => forall|r: int| 0 <= r < 9 ==> !has_dup(#[trigger] region_cells(board@, kind, r)),
        },
{
    let mut r: usize = 0;
    while r < 9
        invariant
            r <= 9,
            forall|i: int| 0 <= i < r ==> !has_dup(#[trigger] region_cells(board@, kind, i)),
        decreases 9 - r,
    {
        if let Some(value) = verify_set(board, kind, r) {
            let e = ValidationError { kind, index: r, value };
            proof {
                let j = choose|j: int| first_dup(region_cells(board@, kind, r as int), j)
                    && region_cells(board@, kind, r as int)[j] == Some(value);
                assert(first_dup(region_cells(board@, kind, e.index as int), j)
                    && region_cells(board@, kind, e.index as int)[j] == Some(e.value));
            }
            return Some(e);
        }
        r = r + 1;
    }
    None
}

impl Board<Option<Space>> {
    /// Checks that no row, column or square holds a value twice. On failure names the
    /// first such region (rows 0 to 8, then columns, then squares) and the first value
    /// that repeats in it, in the order of its cells.
    pub fn validate(&self) -> (res: Result<(), ValidationError>)
        ensures
            res is Ok <==> board_valid(self@),
            res matches Err(e) ==> {
                &&& e.index < 9
                &&& exists|j: int| first_dup(region_cells(self@, e.kind, e.index as int), j)
                    && region_cells(self@, e.kind, e.index as int)[j] == Some(e.value)
                &&& forall|kind: RegionKind, r: int| 0 <= r < 9 && (kind_rank(kind) < kind_rank(e.kind)
                    || (kind == e.kind && r < e.index)) ==> !has_dup(#[trigger] region_cells(self@, kind, r))
            },
    {
        if let Some(e) = scan_kind(self, RegionKind::Row) {
            return Err(e);
        }
        if let Some(e) = scan_kind(self, RegionKind::Column) {
            return Err(e);
        }
        if let Some(e) = scan_kind(self, RegionKind::Square) {
            return Err(e);
        }
        proof {
            assert forall|kind: RegionKind, r: int| 0 <= r < 9 implies !has_dup(#[trigger] region_cells(self@, kind, r)) by {
                match kind {
                    RegionKind::Row => {},
                    RegionKind::Column => {},
                    RegionKind::Square => {},
                }
            }
        }
        Ok(())
    }
}

} // verus!
