use vstd::prelude::*;
use crate::space::{Space, space_at, space_idx, lemma_space_at, lemma_space_idx};
use crate::choices::{
    SudokuChoices, choices_of, first_of, lemma_choices_of, lemma_ntrue_one, lemma_ntrue_only, lemma_ntrue_sub,
    lemma_ntrue_zero, ntrue,
};
use crate::validate::is_valid_solution;
use crate::board::{
    Board, PossibilitySpaceBoard, RegionKind, SudokuBoard, extends, is_solved, lemma_cell_region,
    lemma_num_none_extends, num_none, peers, region_cell, region_of, region_positions, same_region, slot_of,
};

verus! {

/// The candidate set of cell `i` agrees with its value: exactly `{v}` where `v` is
/// determined, at least two values where nothing is.
pub open spec fn cell_ok(b: Seq<Option<Space>>, p: Seq<SudokuChoices>, i: int) -> bool {
    match b[i] {
        Some(s) => p[i].is_only(s),
        None => p[i].size() >= 2,
    }
}

/// Every cell's candidate set agrees with its value.
pub open spec fn consistent(b: Seq<Option<Space>>, p: Seq<SudokuChoices>) -> bool {
    forall|i: int| 0 <= i < 81 ==> #[trigger] cell_ok(b, p, i)
}

/// Every cell but `pos` agrees with its value.
pub open spec fn consistent_except(b: Seq<Option<Space>>, p: Seq<SudokuChoices>, pos: int) -> bool {
    forall|i: int| 0 <= i < 81 && i != pos ==> #[trigger] cell_ok(b, p, i)
}

/// No candidate set of `p1` holds a value that the same cell of `p0` lacks.
pub open spec fn shrinks(p0: Seq<SudokuChoices>, p1: Seq<SudokuChoices>) -> bool {
    forall|i: int| 0 <= i < 81 ==> (#[trigger] p1[i]).within(p0[i])
}

/// Where cell `i` is determined, no peer of it keeps its value as a candidate.
pub open spec fn clean(b: Seq<Option<Space>>, p: Seq<SudokuChoices>, i: int) -> bool {
    b[i] is Some ==> forall|q: int|
        0 <= q < 81 && peers(i, q) ==> !(#[trigger] p[q]).has(b[i]->Some_0)
}

/// Every cell determined in `b1` but not in `b0` is clean.
pub open spec fn new_clean(b0: Seq<Option<Space>>, b1: Seq<Option<Space>>, p1: Seq<SudokuChoices>) -> bool {
    forall|i: int| 0 <= i < 81 && b0[i] is None && b1[i] is Some ==> #[trigger] clean(b1, p1, i)
}

/// Where cell `q` is undetermined, its candidate set holds no value determined at a peer.
pub open spec fn cleared(b: Seq<Option<Space>>, p: Seq<SudokuChoices>, q: int) -> bool {
    b[q] is None ==> forall|r: int|
        0 <= r < 81 && peers(q, r) && (#[trigger] b[r]) is Some ==> !p[q].has(b[r]->Some_0)
}

/// Some peer of `q` holds the value at position `k`.
pub open spec fn peer_holds(b: Seq<Option<Space>>, q: int, k: int) -> bool {
    exists|r: int| 0 <= r < 81 && peers(q, r) && #[trigger] b[r] == Some(space_at(k))
}

/// Where cell `q` is undetermined, its candidates hold every value that no peer holds.
pub open spec fn tight_at(b: Seq<Option<Space>>, p: Seq<SudokuChoices>, q: int) -> bool {
    b[q] is None ==> forall|k: int| 0 <= k < 9 && !peer_holds(b, q, k) ==> #[trigger] p[q]@[k]
}

/// Every undetermined cell keeps every value that no peer holds.
pub open spec fn tight(b: Seq<Option<Space>>, p: Seq<SudokuChoices>) -> bool {
    forall|q: int| 0 <= q < 81 ==> #[trigger] tight_at(b, p, q)
}

/// Determining cells keeps a cell tight.
pub proof fn lemma_tight_extends(b1: Seq<Option<Space>>, b2: Seq<Option<Space>>, p: Seq<SudokuChoices>, q: int)
    requires
        0 <= q < 81,
        tight_at(b1, p, q),
        extends(b1, b2),
    ensures
        tight_at(b2, p, q),
{
    if b2[q] is None {
        assert forall|k: int| 0 <= k < 9 && !peer_holds(b2, q, k) implies #[trigger] p[q]@[k] by {
            if peer_holds(b1, q, k) {
                let r = choose|r: int| 0 <= r < 81 && peers(q, r) && #[trigger] b1[r] == Some(space_at(k));
                assert(b2[r] == Some(space_at(k)));
            }
        }
    }
}

pub proof fn lemma_new_clean_trans(
    b0: Seq<Option<Space>>,
    b1: Seq<Option<Space>>,
    p1: Seq<SudokuChoices>,
    b2: Seq<Option<Space>>,
    p2: Seq<SudokuChoices>,
)
    requires
        new_clean(b0, b1, p1),
        new_clean(b1, b2, p2),
        extends(b1, b2),
        shrinks(p1, p2),
    ensures
        new_clean(b0, b2, p2),
{
    assert forall|i: int| 0 <= i < 81 && b0[i] is None && b2[i] is Some implies #[trigger] clean(b2, p2, i) by {
        if b1[i] is Some {
            assert(clean(b1, p1, i));
            assert forall|q: int| 0 <= q < 81 && peers(i, q) implies !(#[trigger] p2[q]).has(b2[i]->Some_0) by {
                assert(p2[q].within(p1[q]));
                assert(!p1[q].has(b1[i]->Some_0));
                lemma_space_idx(b1[i]->Some_0);
            }
        }
    }
}

pub proof fn lemma_cleared_mono(
    b1: Seq<Option<Space>>,
    p1: Seq<SudokuChoices>,
    b2: Seq<Option<Space>>,
    p2: Seq<SudokuChoices>,
    q: int,
)
    requires
        0 <= q < 81,
        cleared(b1, p1, q),
        new_clean(b1, b2, p2),
        extends(b1, b2),
        shrinks(p1, p2),
    ensures
        cleared(b2, p2, q),
{
    if b2[q] is None {
        assert forall|r: int| 0 <= r < 81 && peers(q, r) && (#[trigger] b2[r]) is Some implies !p2[q].has(b2[r]->Some_0) by {
            if b1[r] is Some {
                assert(p2[q].within(p1[q]));
                lemma_space_idx(b1[r]->Some_0);
            } else {
                assert(clean(b2, p2, r));
                assert(peers(r, q));
            }
        }
    }
}

pub proof fn lemma_clean_mono(
    b1: Seq<Option<Space>>,
    p1: Seq<SudokuChoices>,
    b2: Seq<Option<Space>>,
    p2: Seq<SudokuChoices>,
    j: int,
)
    requires
        0 <= j < 81,
        b1[j] is Some,
        clean(b1, p1, j),
        extends(b1, b2),
        shrinks(p1, p2),
    ensures
        clean(b2, p2, j),
{
    lemma_space_idx(b1[j]->Some_0);
    assert forall|q: int| 0 <= q < 81 && peers(j, q) implies !(#[trigger] p2[q]).has(b2[j]->Some_0) by {
        assert(p2[q].within(p1[q]));
    }
}

/// `space` is gone from the candidates of every cell other than `pos` at the first
/// `i` places of the row, the column and the square of `pos`.
pub open spec fn removed_upto(p: Seq<SudokuChoices>, pos: int, space: Space, i: int) -> bool {
    forall|kind: RegionKind, k: int|
        0 <= k < i && region_cell(kind, region_of(kind, pos), k) != pos
            ==> !(#[trigger] p[region_cell(kind, region_of(kind, pos), k)]).has(space)
}

/// What one call of `attend_to_pos` in the loop of `set` keeps.
proof fn lemma_set_step(
    b0: Seq<Option<Space>>,
    b1: Seq<Option<Space>>,
    p1: Seq<SudokuChoices>,
    b2: Seq<Option<Space>>,
    p2: Seq<SudokuChoices>,
    pos: int,
    space: Space,
    i: int,
)
    requires
        0 <= pos < 81,
        0 <= i < 9,
        forall|j: int| 0 <= j < 81 && j != pos && b0[j] is None && b1[j] is Some
            ==> #[trigger] clean(b1, p1, j),
        new_clean(b1, b2, p2),
        extends(b1, b2),
        shrinks(p1, p2),
        removed_upto(p1, pos, space, i),
    ensures
        forall|j: int| 0 <= j < 81 && j != pos && b0[j] is None && b2[j] is Some
            ==> #[trigger] clean(b2, p2, j),
        removed_upto(p2, pos, space, i),
        forall|q: int| 0 <= q < 81 && !p1[q].has(space) ==> !(#[trigger] p2[q]).has(space),
{
    lemma_space_idx(space);
    assert forall|j: int| 0 <= j < 81 && j != pos && b0[j] is None && b2[j] is Some
        implies #[trigger] clean(b2, p2, j) by {
        if b1[j] is Some {
            lemma_clean_mono(b1, p1, b2, p2, j);
        }
    }
    assert forall|q: int| 0 <= q < 81 && !p1[q].has(space) implies !(#[trigger] p2[q]).has(space) by {
        assert(p2[q].within(p1[q]));
    }
    assert forall|kind: RegionKind, k: int|
        0 <= k < i && region_cell(kind, region_of(kind, pos), k) != pos
            implies !(#[trigger] p2[region_cell(kind, region_of(kind, pos), k)]).has(space) by {
        lemma_cell_region(kind, pos);
        crate::board::lemma_region_cell(kind, region_of(kind, pos), k);
        let c = region_cell(kind, region_of(kind, pos), k);
        assert(p2[c].within(p1[c]));
    }
}

pub proof fn lemma_extends_trans(b0: Seq<Option<Space>>, b1: Seq<Option<Space>>, b2: Seq<Option<Space>>)
    requires
        extends(b0, b1),
        extends(b1, b2),
    ensures
        extends(b0, b2),
{
}

/// Some cell other than `pos` among the first `m` of its region of kind `kind` holds
/// the value at position `k`.
pub open spec fn taken_upto(b: Seq<Option<Space>>, kind: RegionKind, pos: int, k: int, m: int) -> bool
    decreases m,
{
    if m <= 0 {
        false
    } else {
        taken_upto(b, kind, pos, k, m - 1) || {
            let c = region_cell(kind, region_of(kind, pos), m - 1);
            c != pos && b[c] == Some(space_at(k))
        }
    }
}

/// Some cell other than `pos` among the first `m` of its region of kind `kind` keeps
/// the value at position `k` as a candidate.
pub open spec fn claimed_upto(p: Seq<SudokuChoices>, kind: RegionKind, pos: int, k: int, m: int) -> bool
    decreases m,
{
    if m <= 0 {
        false
    } else {
        claimed_upto(p, kind, pos, k, m - 1) || {
            let c = region_cell(kind, region_of(kind, pos), m - 1);
            c != pos && p[c]@[k]
        }
    }
}

/// The values of `c` that no other cell of the region of kind `kind` around `pos`
/// keeps as a candidate.
pub open spec fn hidden_seq(p: Seq<SudokuChoices>, c: Seq<bool>, kind: RegionKind, pos: int) -> Seq<bool> {
    Seq::new(9, |k: int| c[k] && !claimed_upto(p, kind, pos, k, 9))
}

/// The values of `c` that no other cell of the region of kind `kind` around `pos` holds.
pub open spec fn removed_seq(b: Seq<Option<Space>>, c: Seq<bool>, kind: RegionKind, pos: int) -> Seq<bool> {
    Seq::new(9, |k: int| c[k] && !taken_upto(b, kind, pos, k, 9))
}

/// `c` holds no value that a peer of `q` holds.
pub open spec fn excludes_peers(b: Seq<Option<Space>>, c: SudokuChoices, q: int) -> bool {
    forall|r: int| 0 <= r < 81 && peers(q, r) && (#[trigger] b[r]) is Some ==> !c.has(b[r]->Some_0)
}

pub proof fn lemma_taken_upto(b: Seq<Option<Space>>, kind: RegionKind, pos: int, k: int, m: int)
    requires
        0 <= m <= 9,
    ensures
        taken_upto(b, kind, pos, k, m) <==> exists|j: int| 0 <= j < m && {
            let c = #[trigger] region_cell(kind, region_of(kind, pos), j);
            c != pos && b[c] == Some(space_at(k))
        },
    decreases m,
{
    if m > 0 {
        lemma_taken_upto(b, kind, pos, k, m - 1);
        if taken_upto(b, kind, pos, k, m - 1) {
            let j = choose|j: int| 0 <= j < m - 1 && {
                let c = #[trigger] region_cell(kind, region_of(kind, pos), j);
                c != pos && b[c] == Some(space_at(k))
            };
            assert(0 <= j < m);
        }
    }
}

pub proof fn lemma_claimed_upto(p: Seq<SudokuChoices>, kind: RegionKind, pos: int, k: int, m: int)
    requires
        0 <= m <= 9,
    ensures
        claimed_upto(p, kind, pos, k, m) <==> exists|j: int| 0 <= j < m && {
            let c = #[trigger] region_cell(kind, region_of(kind, pos), j);
            c != pos && p[c]@[k]
        },
    decreases m,
{
    if m > 0 {
        lemma_claimed_upto(p, kind, pos, k, m - 1);
        if claimed_upto(p, kind, pos, k, m - 1) {
            let j = choose|j: int| 0 <= j < m - 1 && {
                let c = #[trigger] region_cell(kind, region_of(kind, pos), j);
                c != pos && p[c]@[k]
            };
            assert(0 <= j < m);
        }
    }
}

/// Checks the region of kind `kind` around the undetermined cell `pos`: takes the
/// values held in it out of `new_possibilities` and, where exactly one value of
/// `new_possibilities` is a candidate nowhere else in the region, narrows
/// `new_possibilities` to that value and returns `true`.
pub fn check_region(
    board: &SudokuBoard,
    possibilities_board: &PossibilitySpaceBoard,
    new_possibilities: &mut SudokuChoices,
    kind: RegionKind,
    pos: usize,
) -> (found: bool)
    requires
        pos < 81,
    ensures
        found ==> final(new_possibilities)@ == hidden_seq(possibilities_board@, old(new_possibilities)@, kind, pos as int),
        found ==> ntrue(hidden_seq(possibilities_board@, old(new_possibilities)@, kind, pos as int), 9) == 1,
        !found ==> ntrue(hidden_seq(possibilities_board@, old(new_possibilities)@, kind, pos as int), 9) != 1,
        !found ==> final(new_possibilities)@ == removed_seq(board@, old(new_possibilities)@, kind, pos as int),
{
    let ghost c0 = new_possibilities@;
    let ghost b = board@;
    let ghost p = possibilities_board@;
    let positions = region_positions(kind, pos);
    let mut solo_candidates = *new_possibilities;
    let mut m: usize = 0;
    while m < 9
        invariant
            m <= 9,
            pos < 81,
            c0 == old(new_possibilities)@,
            b == board@,
            p == possibilities_board@,
            forall|k: int| 0 <= k < 9 ==> positions@[k] == region_cell(kind, region_of(kind, pos as int), k),
            new_possibilities@ == Seq::new(9, |k: int| c0[k] && !taken_upto(b, kind, pos as int, k, m as int)),
            solo_candidates@ == Seq::new(9, |k: int| c0[k] && !claimed_upto(p, kind, pos as int, k, m as int)),
        decreases 9 - m,
    {
        let q = positions[m];
        proof {
            lemma_cell_region(kind, pos as int);
            crate::board::lemma_region_cell(kind, region_of(kind, pos as int), m as int);
        }
        if q != pos {
            if let Some(s) = board.0[q] {
                new_possibilities.remove(s);
                proof {
                    lemma_space_idx(s);
                    assert forall|k: int| 0 <= k < 9 implies (space_at(k) == s <==> k == space_idx(s)) by {
                        lemma_space_at(k);
                    }
                }
            }
            let cq = possibilities_board.0[q];
            let mut k2: usize = 0;
            while k2 < 9
                invariant
                    k2 <= 9,
                    m < 9,
                    q == region_cell(kind, region_of(kind, pos as int), m as int),
                    q != pos,
                    q < 81,
                    cq == p[q as int],
                    p == possibilities_board@,
                    solo_candidates@ == Seq::new(9, |k: int| c0[k] && !claimed_upto(p, kind, pos as int, k, m as int)
                        && !(k < k2 && cq@[k])),
                decreases 9 - k2,
            {
                if cq.0[k2] {
                    solo_candidates.0[k2] = false;
                }
                k2 = k2 + 1;
            }
        }
        proof {
            assert(new_possibilities@ =~= Seq::new(9, |k: int| c0[k] && !taken_upto(b, kind, pos as int, k, m + 1)));
            assert(solo_candidates@ =~= Seq::new(9, |k: int| c0[k] && !claimed_upto(p, kind, pos as int, k, m + 1)));
        }
        m = m + 1;
    }
    proof {
        assert(solo_candidates@ =~= hidden_seq(p, c0, kind, pos as int));
        assert(new_possibilities@ =~= removed_seq(b, c0, kind, pos as int));
    }
    let n = solo_candidates.count();
    if n == 1 {
        let value = solo_candidates.first();
        *new_possibilities = SudokuChoices::singleton(value);
        proof {
            lemma_space_idx(value);
            lemma_ntrue_one(solo_candidates@, 9, space_idx(value));
            assert(new_possibilities@ =~= solo_candidates@);
        }
        return true;
    }
    false
}

pub proof fn lemma_removed_seq(b: Seq<Option<Space>>, c: Seq<bool>, kind: RegionKind, pos: int)
    requires
        0 <= pos < 81,
        c.len() == 9,
    ensures
        removed_seq(b, c, kind, pos).len() == 9,
        forall|k: int| 0 <= k < 9 && #[trigger] removed_seq(b, c, kind, pos)[k] ==> c[k],
        forall|r: int| 0 <= r < 81 && r != pos && same_region(kind, pos, r) && (#[trigger] b[r]) is Some
            ==> !removed_seq(b, c, kind, pos)[space_idx(b[r]->Some_0)],
        (forall|r: int| 0 <= r < 81 && r != pos && same_region(kind, pos, r) && (#[trigger] b[r]) is Some
            ==> !c[space_idx(b[r]->Some_0)]) ==> removed_seq(b, c, kind, pos) == c,
        forall|k: int| 0 <= k < 9 && c[k] && !peer_holds(b, pos, k) ==> #[trigger] removed_seq(b, c, kind, pos)[k],
{
    let rs = removed_seq(b, c, kind, pos);
    lemma_cell_region(kind, pos);
    assert forall|k: int| 0 <= k < 9 && c[k] && !peer_holds(b, pos, k) implies #[trigger] rs[k] by {
        lemma_taken_upto(b, kind, pos, k, 9);
        if taken_upto(b, kind, pos, k, 9) {
            let j = choose|j: int| 0 <= j < 9 && {
                let cj = #[trigger] region_cell(kind, region_of(kind, pos), j);
                cj != pos && b[cj] == Some(space_at(k))
            };
            let cj = region_cell(kind, region_of(kind, pos), j);
            crate::board::lemma_region_cell(kind, region_of(kind, pos), j);
            assert(same_region(kind, pos, cj));
            assert(peers(pos, cj));
        }
    }
    assert forall|r: int| 0 <= r < 81 && r != pos && same_region(kind, pos, r) && (#[trigger] b[r]) is Some
        implies !rs[space_idx(b[r]->Some_0)] by {
        let s = b[r]->Some_0;
        lemma_space_idx(s);
        lemma_cell_region(kind, r);
        lemma_taken_upto(b, kind, pos, space_idx(s), 9);
        assert(region_cell(kind, region_of(kind, pos), slot_of(kind, r)) == r);
    }
    if forall|r: int| 0 <= r < 81 && r != pos && same_region(kind, pos, r) && (#[trigger] b[r]) is Some
        ==> !c[space_idx(b[r]->Some_0)] {
        assert forall|k: int| 0 <= k < 9 implies rs[k] == c[k] by {
            lemma_taken_upto(b, kind, pos, k, 9);
            if c[k] && taken_upto(b, kind, pos, k, 9) {
                let j = choose|j: int| 0 <= j < 9 && {
                    let cj = #[trigger] region_cell(kind, region_of(kind, pos), j);
                    cj != pos && b[cj] == Some(space_at(k))
                };
                let cj = region_cell(kind, region_of(kind, pos), j);
                crate::board::lemma_region_cell(kind, region_of(kind, pos), j);
                lemma_space_at(k);
                assert(b[cj] is Some);
            }
        }
        assert(rs =~= c);
    }
}

/// `s` is a valid solution that holds every value of `b` and, at every cell, one of
/// the candidates of `p`.
pub open spec fn compatible(b: Seq<Option<Space>>, p: Seq<SudokuChoices>, s: Seq<Option<Space>>) -> bool {
    &&& is_valid_solution(s)
    &&& extends(b, s)
    &&& forall|i: int| 0 <= i < 81 ==> (#[trigger] p[i]).has(s[i]->Some_0)
}

/// The check of one region keeps the value that a compatible solution has at `pos`.
proof fn lemma_check_keeps(
    b: Seq<Option<Space>>,
    p: Seq<SudokuChoices>,
    s: Seq<Option<Space>>,
    c: Seq<bool>,
    kind: RegionKind,
    pos: int,
)
    requires
        compatible(b, p, s),
        0 <= pos < 81,
        b[pos] is None,
        c.len() == 9,
        c[space_idx(s[pos]->Some_0)],
    ensures
        removed_seq(b, c, kind, pos)[space_idx(s[pos]->Some_0)],
        ntrue(hidden_seq(p, c, kind, pos), 9) == 1 ==> hidden_seq(p, c, kind, pos)[space_idx(s[pos]->Some_0)],
{
    let v = s[pos]->Some_0;
    let u = space_idx(v);
    lemma_space_idx(v);
    lemma_cell_region(kind, pos);
    let g = region_of(kind, pos);
    lemma_taken_upto(b, kind, pos, u, 9);
    if taken_upto(b, kind, pos, u, 9) {
        let j = choose|j: int| 0 <= j < 9 && {
            let cj = #[trigger] region_cell(kind, region_of(kind, pos), j);
            cj != pos && b[cj] == Some(space_at(u))
        };
        let cj = region_cell(kind, g, j);
        crate::board::lemma_region_cell(kind, g, j);
        assert(same_region(kind, pos, cj));
        assert(peers(pos, cj));
        assert(s[cj] == Some(v));
        assert(s[pos] is Some && s[cj] is Some);
    }
    let h = hidden_seq(p, c, kind, pos);
    if ntrue(h, 9) == 1 {
        lemma_ntrue_zero(h, 9);
        let w = choose|w: int| 0 <= w < 9 && h[w];
        lemma_space_at(w);
        crate::validate::lemma_region_holds_all(s, kind, g, space_at(w));
        let k = choose|k: int| 0 <= k < 9 && s[#[trigger] region_cell(kind, g, k)] == Some(space_at(w));
        let ck = region_cell(kind, g, k);
        crate::board::lemma_region_cell(kind, g, k);
        if ck != pos {
            assert(p[ck].has(space_at(w)));
            lemma_claimed_upto(p, kind, pos, w, 9);
            assert(claimed_upto(p, kind, pos, w, 9));
        }
    }
}

/// Where cell `q` is undetermined, nothing that the sweep checks at `q` would change
/// its candidates: they exclude every value held by a peer, and no region around
/// `q` has exactly one value that only `q` can take.
pub open spec fn settled_cell(b: Seq<Option<Space>>, p: Seq<SudokuChoices>, q: int) -> bool {
    b[q] is None ==> {
        &&& excludes_peers(b, p[q], q)
        &&& ntrue(hidden_seq(p, p[q]@, RegionKind::Row, q), 9) != 1
        &&& ntrue(hidden_seq(p, p[q]@, RegionKind::Column, q), 9) != 1
        &&& ntrue(hidden_seq(p, p[q]@, RegionKind::Square, q), 9) != 1
    }
}

/// A fixpoint of propagation: every cell agrees with its value and is settled.
pub open spec fn settled(b: Seq<Option<Space>>, p: Seq<SudokuChoices>) -> bool {
    &&& consistent(b, p)
    &&& forall|q: int| 0 <= q < 81 ==> #[trigger] settled_cell(b, p, q)
}

/// The candidates that the checks of one sweep leave at cell `pos`: the row is
/// checked, then the column, then the square; the first region with exactly one
/// value that only `pos` can take decides, and each region checked before it takes
/// out the values it holds.
pub open spec fn deduce_spec(b: Seq<Option<Space>>, p: Seq<SudokuChoices>, pos: int) -> Seq<bool> {
    let c0 = p[pos]@;
    let h1 = hidden_seq(p, c0, RegionKind::Row, pos);
    if ntrue(h1, 9) == 1 {
        h1
    } else {
        let n1 = removed_seq(b, c0, RegionKind::Row, pos);
        let h2 = hidden_seq(p, n1, RegionKind::Column, pos);
        if ntrue(h2, 9) == 1 {
            h2
        } else {
            let n2 = removed_seq(b, n1, RegionKind::Column, pos);
            let h3 = hidden_seq(p, n2, RegionKind::Square, pos);
            if ntrue(h3, 9) == 1 {
                h3
            } else {
                removed_seq(b, n2, RegionKind::Square, pos)
            }
        }
    }
}

/// The candidates of cell `pos` after the checks of one sweep: the values held in
/// its row, column and square are taken out, and a value that only `pos` can take
/// in its row, else its column, else its square, becomes its only candidate.
fn deduce_cell(board: &SudokuBoard, possibilities_board: &PossibilitySpaceBoard, pos: usize) -> (r: SudokuChoices)
    requires
        pos < 81,
    ensures
        r.within(possibilities_board@[pos as int]),
        r.size() == 1 || excludes_peers(board@, r, pos as int),
        board@[pos as int] is None && settled_cell(board@, possibilities_board@, pos as int)
            ==> r@ == possibilities_board@[pos as int]@,
        r@ == possibilities_board@[pos as int]@ && possibilities_board@[pos as int].size() >= 2
            ==> (board@[pos as int] is None ==> settled_cell(board@, possibilities_board@, pos as int)),
        forall|s: Seq<Option<Space>>| #[trigger] compatible(board@, possibilities_board@, s)
            && board@[pos as int] is None ==> r.has(s[pos as int]->Some_0),
        r@ == deduce_spec(board@, possibilities_board@, pos as int),
        r.size() != 1 ==> forall|k: int| 0 <= k < 9 && possibilities_board@[pos as int]@[k]
            && !peer_holds(board@, pos as int, k) ==> #[trigger] r@[k],
{
    let ghost b = board@;
    let ghost p = possibilities_board@;
    let ghost q = pos as int;
    let ghost c0 = p[q]@;
    let mut new_possibilities = *possibilities_board.cell(pos);
    proof {
        lemma_removed_seq(b, c0, RegionKind::Row, q);
    }
    if check_region(board, possibilities_board, &mut new_possibilities, RegionKind::Row, pos) {
        proof {
            assert forall|s: Seq<Option<Space>>| #[trigger] compatible(b, p, s) && b[q] is None
                implies new_possibilities.has(s[q]->Some_0) by {
                lemma_check_keeps(b, p, s, c0, RegionKind::Row, q);
            }
        }
        return new_possibilities;
    }
    let ghost n1 = new_possibilities@;
    proof {
        lemma_removed_seq(b, n1, RegionKind::Column, q);
    }
    if check_region(board, possibilities_board, &mut new_possibilities, RegionKind::Column, pos) {
        proof {
            if b[q] is None && settled_cell(b, p, q) {
                assert(n1 == c0);
            }
            assert forall|s: Seq<Option<Space>>| #[trigger] compatible(b, p, s) && b[q] is None
                implies new_possibilities.has(s[q]->Some_0) by {
                lemma_check_keeps(b, p, s, c0, RegionKind::Row, q);
                lemma_check_keeps(b, p, s, n1, RegionKind::Column, q);
            }
        }
        return new_possibilities;
    }
    let ghost n2 = new_possibilities@;
    proof {
        lemma_removed_seq(b, n2, RegionKind::Square, q);
    }
    let found = check_region(board, possibilities_board, &mut new_possibilities, RegionKind::Square, pos);
    proof {
        assert forall|s: Seq<Option<Space>>| #[trigger] compatible(b, p, s) && b[q] is None
            implies new_possibilities.has(s[q]->Some_0) by {
            lemma_check_keeps(b, p, s, c0, RegionKind::Row, q);
            lemma_check_keeps(b, p, s, n1, RegionKind::Column, q);
            lemma_check_keeps(b, p, s, n2, RegionKind::Square, q);
        }
        if b[q] is None && settled_cell(b, p, q) {
            assert(n1 == c0);
            assert(n2 == c0);
        }
        if !found {
            assert forall|r: int| 0 <= r < 81 && peers(q, r) && (#[trigger] b[r]) is Some
                implies !new_possibilities.has(b[r]->Some_0) by {
                lemma_space_idx(b[r]->Some_0);
            }
            if new_possibilities@ == c0 {
                assert(n2 =~= c0);
                assert(n1 =~= c0);
            }
        }
    }
    new_possibilities
}

/// What `attend_to_pos` does at cell `q` with value `v`: the board, candidate sets
/// and contradiction flag it leaves. `limit` bounds the undetermined cells of the
/// cascade that called it.
pub open spec fn attend_spec(
    b: Seq<Option<Space>>,
    p: Seq<SudokuChoices>,
    q: int,
    v: Space,
    limit: int,
) -> (Seq<Option<Space>>, Seq<SudokuChoices>, bool)
    decreases limit, 0int, 0int,
{
    let c = p[q]@.update(space_idx(v), false);
    let p1 = p.update(q, choices_of(c));
    if ntrue(c, 9) == 0 {
        (b, p1, true)
    } else if ntrue(c, 9) == 1 && b[q] is None {
        if num_none(b, 81) < limit {
            set_spec(b, p1, q, space_at(first_of(c, 0)))
        } else {
            (b, p1, true)
        }
    } else {
        (b, p1, false)
    }
}

/// What `set` leaves when it fixes cell `pos` to `v`.
pub open spec fn set_spec(
    b: Seq<Option<Space>>,
    p: Seq<SudokuChoices>,
    pos: int,
    v: Space,
) -> (Seq<Option<Space>>, Seq<SudokuChoices>, bool)
    decreases num_none(b, 81) as int, 2int, 0int,
{
    set_loop(
        b.update(pos, Some(v)),
        p.update(pos, choices_of(Seq::new(9, |j: int| j == space_idx(v)))),
        pos,
        v,
        0,
        num_none(b, 81) as int,
    )
}

/// The peers of `pos` at places `i` to 8 of its row, column and square, visited in
/// that order at each place, each losing `v`; stops at the first contradiction.
pub open spec fn set_loop(
    b: Seq<Option<Space>>,
    p: Seq<SudokuChoices>,
    pos: int,
    v: Space,
    i: int,
    limit: int,
) -> (Seq<Option<Space>>, Seq<SudokuChoices>, bool)
    decreases limit, 1int, 9 - i,
{
    if i < 0 || i >= 9 {
        (b, p, false)
    } else {
        let q1 = region_cell(RegionKind::Row, region_of(RegionKind::Row, pos), i);
        let r1 = if q1 != pos { attend_spec(b, p, q1, v, limit) } else { (b, p, false) };
        if r1.2 {
            r1
        } else {
            let q2 = region_cell(RegionKind::Column, region_of(RegionKind::Column, pos), i);
            let r2 = if q2 != pos { attend_spec(r1.0, r1.1, q2, v, limit) } else { r1 };
            if r2.2 {
                r2
            } else {
                let q3 = region_cell(RegionKind::Square, region_of(RegionKind::Square, pos), i);
                let r3 = if q3 != pos { attend_spec(r2.0, r2.1, q3, v, limit) } else { r2 };
                if r3.2 {
                    r3
                } else {
                    set_loop(r3.0, r3.1, pos, v, i + 1, limit)
                }
            }
        }
    }
}

proof fn lemma_attend_limit(
    b: Seq<Option<Space>>,
    p: Seq<SudokuChoices>,
    q: int,
    v: Space,
    l1: int,
    l2: int,
)
    requires
        num_none(b, 81) < l1,
        num_none(b, 81) < l2,
    ensures
        attend_spec(b, p, q, v, l1) == attend_spec(b, p, q, v, l2),
{
}

/// Takes `space` out of the candidates of cell `q` and confirms `q` if one candidate
/// is left; `true` when the cell has none left or the cascade met a contradiction.
fn attend_to_pos(
    board: &mut SudokuBoard,
    possibilities_board: &mut PossibilitySpaceBoard,
    q: usize,
    space: Space,
) -> (invalid: bool)
    requires
        q < 81,
        consistent(old(board)@, old(possibilities_board)@),
        tight(old(board)@, old(possibilities_board)@),
        peer_holds(old(board)@, q as int, space_idx(space)),
    ensures
        !invalid ==> tight(final(board)@, final(possibilities_board)@),
        extends(old(board)@, final(board)@),
        shrinks(old(possibilities_board)@, final(possibilities_board)@),
        !final(possibilities_board)@[q as int].has(space),
        !invalid ==> consistent(final(board)@, final(possibilities_board)@),
        !invalid ==> new_clean(old(board)@, final(board)@, final(possibilities_board)@),
        forall|s: Seq<Option<Space>>| #[trigger] compatible(old(board)@, old(possibilities_board)@, s)
            && s[q as int] != Some(space) ==> !invalid && compatible(final(board)@, final(possibilities_board)@, s),
        (final(board)@, final(possibilities_board)@, invalid)
            == attend_spec(old(board)@, old(possibilities_board)@, q as int, space, num_none(old(board)@, 81) as int + 1),
    decreases num_none(old(board)@, 81), 1nat,
{
    let ghost b0 = board@;
    let ghost p0 = possibilities_board@;
    let mut c = *possibilities_board.cell(q);
    c.remove(space);
    possibilities_board.set_cell(q, c);
    proof {
        lemma_choices_of(c);
        lemma_space_idx(space);
        assert(cell_ok(b0, p0, q as int));
        assert forall|i: int| 0 <= i < 81 implies (#[trigger] possibilities_board@[i]).within(p0[i]) by {}
        assert forall|r: int| 0 <= r < 81 implies #[trigger] tight_at(board@, possibilities_board@, r) by {
            assert(tight_at(b0, p0, r));
        }
        assert forall|s: Seq<Option<Space>>| #[trigger] compatible(b0, p0, s) && s[q as int] != Some(space)
            implies compatible(board@, possibilities_board@, s) && c.has(s[q as int]->Some_0) by {
            lemma_space_idx(s[q as int]->Some_0);
            assert(p0[q as int].has(s[q as int]->Some_0));
        }
    }
    let n = c.count();
    if n == 0 {
        proof {
            assert forall|s: Seq<Option<Space>>| #[trigger] compatible(b0, p0, s) && s[q as int] != Some(space)
                implies false by {
                assert(c.has(s[q as int]->Some_0));
                lemma_space_idx(s[q as int]->Some_0);
                lemma_ntrue_zero(c@, 9);
            }
        }
        return true;
    }
    if n == 1 && board.cell(q).is_none() {
        let only = c.first();
        proof {
            assert forall|i: int| 0 <= i < 81 && i != q implies #[trigger] cell_ok(board@, possibilities_board@, i) by {
                assert(cell_ok(b0, p0, i));
            }
            assert forall|s: Seq<Option<Space>>| #[trigger] compatible(b0, p0, s) && s[q as int] != Some(space)
                implies s[q as int] == Some(only) by {
                assert(c.has(s[q as int]->Some_0));
                lemma_space_idx(s[q as int]->Some_0);
                lemma_space_idx(only);
                lemma_ntrue_one(c@, 9, space_idx(only));
            }
            lemma_space_idx(only);
        }
        let ghost b1 = board@;
        let ghost p1 = possibilities_board@;
        let invalid = set(board, possibilities_board, q, only);
        proof {
            assert forall|s: Seq<Option<Space>>| #[trigger] compatible(b0, p0, s) && s[q as int] != Some(space)
                implies !invalid && compatible(board@, possibilities_board@, s) by {
                assert(compatible(b1, p1, s));
            }
        }
        return invalid;
    }
    proof {
        match b0[q as int] {
            Some(s) => {
                lemma_space_idx(s);
                if space == s {
                    lemma_ntrue_zero(c@, 9);
                }
            },
            None => {},
        }
        assert forall|i: int| 0 <= i < 81 implies #[trigger] cell_ok(board@, possibilities_board@, i) by {
            assert(cell_ok(b0, p0, i));
        }
        assert(board@ == b0);
    }
    false
}

/// Fixes the value of the undetermined cell `pos` to `space`, takes `space` out of
/// the candidates of every peer and confirms each peer that is left with one
/// candidate, transitively; `true` when the cascade meets a contradiction.
pub fn set(
    board: &mut SudokuBoard,
    possibilities_board: &mut PossibilitySpaceBoard,
    pos: usize,
    space: Space,
) -> (invalid: bool)
    requires
        pos < 81,
        old(board)@[pos as int] is None,
        old(possibilities_board)@[pos as int].has(space),
        consistent_except(old(board)@, old(possibilities_board)@, pos as int),
        forall|r: int| 0 <= r < 81 && r != pos ==> #[trigger] tight_at(old(board)@, old(possibilities_board)@, r),
    ensures
        !invalid ==> tight(final(board)@, final(possibilities_board)@),
        final(board)@[pos as int] == Some(space),
        extends(old(board)@, final(board)@),
        shrinks(old(possibilities_board)@, final(possibilities_board)@),
        !invalid ==> final(possibilities_board)@[pos as int].is_only(space),
        !invalid ==> consistent(final(board)@, final(possibilities_board)@),
        !invalid ==> new_clean(old(board)@, final(board)@, final(possibilities_board)@),
        forall|s: Seq<Option<Space>>| #[trigger] compatible(old(board)@, old(possibilities_board)@, s)
            && s[pos as int] == Some(space) ==> !invalid && compatible(final(board)@, final(possibilities_board)@, s),
        (final(board)@, final(possibilities_board)@, invalid) == set_spec(old(board)@, old(possibilities_board)@, pos as int, space),
    decreases num_none(old(board)@, 81), 0nat,
{
    let ghost b0 = board@;
    let ghost p0 = possibilities_board@;
    board.set_cell(pos, Some(space));
    let single = SudokuChoices::singleton(space);
    possibilities_board.set_cell(pos, single);
    let ghost limit = num_none(b0, 81) as int;
    proof {
        lemma_choices_of(single);
        assert(single@ =~= Seq::new(9, |j: int| j == space_idx(space)));
        assert(set_spec(b0, p0, pos as int, space) == set_loop(board@, possibilities_board@, pos as int, space, 0, limit));
        assert forall|r: int| 0 <= r < 81 implies #[trigger] tight_at(board@, possibilities_board@, r) by {
            if r != pos {
                lemma_tight_extends(b0, board@, p0, r);
            }
        }
        lemma_space_idx(space);
        assert(extends(b0, board@));
        assert(shrinks(p0, possibilities_board@));
        assert forall|i: int| 0 <= i < 81 implies #[trigger] cell_ok(board@, possibilities_board@, i) by {
            if i != pos {
                assert(cell_ok(b0, p0, i));
            }
        }
        lemma_num_none_extends(b0, board@, 81);
        assert forall|s: Seq<Option<Space>>| #[trigger] compatible(b0, p0, s) && s[pos as int] == Some(space)
            implies compatible(board@, possibilities_board@, s) by {
            assert forall|i: int| 0 <= i < 81 implies (#[trigger] possibilities_board@[i]).has(s[i]->Some_0) by {
                if i != pos {
                    assert(p0[i].has(s[i]->Some_0));
                }
            }
        }
    }
    let rows = region_positions(RegionKind::Row, pos);
    let cols = region_positions(RegionKind::Column, pos);
    let squares = region_positions(RegionKind::Square, pos);
    let mut i: usize = 0;
    while i < 9
        invariant
            pos < 81,
            i <= 9,
            b0 == old(board)@,
            p0 == old(possibilities_board)@,
            forall|k: int| 0 <= k < 9 ==> rows@[k] == region_cell(RegionKind::Row, region_of(RegionKind::Row, pos as int), k),
            forall|k: int| 0 <= k < 9 ==> cols@[k] == region_cell(RegionKind::Column, region_of(RegionKind::Column, pos as int), k),
            forall|k: int| 0 <= k < 9 ==> squares@[k] == region_cell(RegionKind::Square, region_of(RegionKind::Square, pos as int), k),
            board@[pos as int] == Some(space),
            b0[pos as int] is None,
            extends(b0, board@),
            shrinks(p0, possibilities_board@),
            p0[pos as int].has(space),
            consistent(board@, possibilities_board@),
            possibilities_board@[pos as int].is_only(space),
            forall|j: int| 0 <= j < 81 && j != pos && b0[j] is None && board@[j] is Some
                ==> #[trigger] clean(board@, possibilities_board@, j),
            num_none(board@, 81) < num_none(b0, 81),
            removed_upto(possibilities_board@, pos as int, space, i as int),
            forall|s: Seq<Option<Space>>| #[trigger] compatible(b0, p0, s) && s[pos as int] == Some(space)
                ==> compatible(board@, possibilities_board@, s),
            limit == num_none(b0, 81),
            tight(board@, possibilities_board@),
            set_spec(b0, p0, pos as int, space) == set_loop(board@, possibilities_board@, pos as int, space, i as int, limit),
        decreases 9 - i,
    {
        let ghost b1 = board@;
        let ghost p1 = possibilities_board@;
        proof {
            lemma_cell_region(RegionKind::Row, pos as int);
            lemma_cell_region(RegionKind::Column, pos as int);
            lemma_cell_region(RegionKind::Square, pos as int);
            crate::board::lemma_region_cell(RegionKind::Row, region_of(RegionKind::Row, pos as int), i as int);
            crate::board::lemma_region_cell(RegionKind::Column, region_of(RegionKind::Column, pos as int), i as int);
            crate::board::lemma_region_cell(RegionKind::Square, region_of(RegionKind::Square, pos as int), i as int);
        }
        let q = rows[i];
        if q != pos {
            proof {
                assert forall|s: Seq<Option<Space>>| #[trigger] compatible(b0, p0, s) && s[pos as int] == Some(space)
                    implies s[q as int] != Some(space) by {
                    assert(same_region(RegionKind::Row, pos as int, q as int));
                    assert(peers(pos as int, q as int));
                    assert(s[pos as int] is Some && s[q as int] is Some);
                }
                assert(same_region(RegionKind::Row, pos as int, q as int));
                assert(peers(q as int, pos as int));
                assert(board@[pos as int] == Some(space_at(space_idx(space))));
                assert(peer_holds(board@, q as int, space_idx(space)));
            }
            proof {
                lemma_num_none_extends(b1, b1, 81);
            }
            let invalid = attend_to_pos(board, possibilities_board, q, space);
            proof {
                lemma_attend_limit(b1, p1, q as int, space, num_none(b1, 81) as int + 1, limit);
                assert forall|s: Seq<Option<Space>>| #[trigger] compatible(b0, p0, s) && s[pos as int] == Some(space)
                    implies !invalid && compatible(board@, possibilities_board@, s) by {
                    assert(compatible(b1, p1, s));
                }
            }
            if invalid {
                proof {
                    lemma_extends_trans(b0, b1, board@);
                    assert(set_loop(b1, p1, pos as int, space, i as int, limit) == (board@, possibilities_board@, true));
                }
                return true;
            }
            proof {
                lemma_set_step(b0, b1, p1, board@, possibilities_board@, pos as int, space, i as int);
                lemma_num_none_extends(b1, board@, 81);
            }
        }
        let ghost b2 = board@;
        let ghost p2 = possibilities_board@;
        let q = cols[i];
        if q != pos {
            proof {
                assert forall|s: Seq<Option<Space>>| #[trigger] compatible(b0, p0, s) && s[pos as int] == Some(space)
                    implies s[q as int] != Some(space) by {
                    assert(same_region(RegionKind::Column, pos as int, q as int));
                    assert(peers(pos as int, q as int));
                    assert(s[pos as int] is Some && s[q as int] is Some);
                }
                assert(same_region(RegionKind::Column, pos as int, q as int));
                assert(peers(q as int, pos as int));
                assert(board@[pos as int] == Some(space_at(space_idx(space))));
                assert(peer_holds(board@, q as int, space_idx(space)));
            }
            proof {
                lemma_num_none_extends(b1, b2, 81);
            }
            let invalid = attend_to_pos(board, possibilities_board, q, space);
            proof {
                lemma_attend_limit(b2, p2, q as int, space, num_none(b2, 81) as int + 1, limit);
                assert forall|s: Seq<Option<Space>>| #[trigger] compatible(b0, p0, s) && s[pos as int] == Some(space)
                    implies !invalid && compatible(board@, possibilities_board@, s) by {
                    assert(compatible(b2, p2, s));
                }
            }
            if invalid {
                proof {
                    lemma_extends_trans(b0, b2, board@);
                    assert(set_loop(b1, p1, pos as int, space, i as int, limit) == (board@, possibilities_board@, true));
                }
                return true;
            }
            proof {
                lemma_set_step(b0, b2, p2, board@, possibilities_board@, pos as int, space, i as int);
                lemma_num_none_extends(b2, board@, 81);
            }
        }
        let ghost b3 = board@;
        let ghost p3 = possibilities_board@;
        let q = squares[i];
        if q != pos {
            proof {
                assert forall|s: Seq<Option<Space>>| #[trigger] compatible(b0, p0, s) && s[pos as int] == Some(space)
                    implies s[q as int] != Some(space) by {
                    assert(same_region(RegionKind::Square, pos as int, q as int));
                    assert(peers(pos as int, q as int));
                    assert(s[pos as int] is Some && s[q as int] is Some);
                }
                assert(same_region(RegionKind::Square, pos as int, q as int));
                assert(peers(q as int, pos as int));
                assert(board@[pos as int] == Some(space_at(space_idx(space))));
                assert(peer_holds(board@, q as int, space_idx(space)));
            }
            proof {
                lemma_num_none_extends(b1, b3, 81);
            }
            let invalid = attend_to_pos(board, possibilities_board, q, space);
            proof {
                lemma_attend_limit(b3, p3, q as int, space, num_none(b3, 81) as int + 1, limit);
                assert forall|s: Seq<Option<Space>>| #[trigger] compatible(b0, p0, s) && s[pos as int] == Some(space)
                    implies !invalid && compatible(board@, possibilities_board@, s) by {
                    assert(compatible(b3, p3, s));
                }
            }
            if invalid {
                proof {
                    lemma_extends_trans(b0, b3, board@);
                    assert(set_loop(b1, p1, pos as int, space, i as int, limit) == (board@, possibilities_board@, true));
                }
                return true;
            }
            proof {
                lemma_set_step(b0, b3, p3, board@, possibilities_board@, pos as int, space, i as int);
                lemma_num_none_extends(b3, board@, 81);
            }
        }
        proof {
            assert(set_loop(b1, p1, pos as int, space, i as int, limit)
                == set_loop(board@, possibilities_board@, pos as int, space, i + 1, limit));
            assert(cell_ok(board@, possibilities_board@, pos as int));
            assert(!possibilities_board@[rows@[i as int] as int].has(space) || rows@[i as int] == pos);
            assert(!possibilities_board@[cols@[i as int] as int].has(space) || cols@[i as int] == pos);
            assert forall|kind: RegionKind, k: int|
                0 <= k < i + 1 && region_cell(kind, region_of(kind, pos as int), k) != pos
                    implies !(#[trigger] possibilities_board@[region_cell(kind, region_of(kind, pos as int), k)]).has(space) by {
                if k == i {
                    match kind {
                        RegionKind::Row => {},
                        RegionKind::Column => {},
                        RegionKind::Square => {},
                    }
                }
            }
        }
        i = i + 1;
    }
    proof {
        assert forall|q: int| 0 <= q < 81 && peers(pos as int, q) implies !(#[trigger] possibilities_board@[q]).has(space) by {
            let kind = if same_region(RegionKind::Row, pos as int, q) {
                RegionKind::Row
            } else if same_region(RegionKind::Column, pos as int, q) {
                RegionKind::Column
            } else {
                RegionKind::Square
            };
            lemma_cell_region(kind, q);
            assert(possibilities_board@[region_cell(kind, region_of(kind, pos as int), slot_of(kind, q))] == possibilities_board@[q]);
        }
        assert(clean(board@, possibilities_board@, pos as int));
    }
    false
}

/// Sum of the sizes of the candidate sets of the first `n` cells.
pub open spec fn total(p: Seq<SudokuChoices>, n: int) -> nat
    decreases n,
{
    if n <= 0 {
        0
    } else {
        total(p, n - 1) + p[n - 1].size()
    }
}

pub proof fn lemma_total_shrinks(p0: Seq<SudokuChoices>, p1: Seq<SudokuChoices>, n: int)
    requires
        0 <= n <= 81,
        p0.len() == 81,
        p1.len() == 81,
        forall|i: int| 0 <= i < 81 ==> p0[i]@.len() == 9 && p1[i]@.len() == 9,
        shrinks(p0, p1),
    ensures
        total(p1, n) <= total(p0, n),
        (exists|i: int, k: int| 0 <= i < n && 0 <= k < 9 && p0[i]@[k] && !p1[i]@[k]) ==> total(p1, n) < total(p0, n),
    decreases n,
{
    if n > 0 {
        lemma_total_shrinks(p0, p1, n - 1);
        assert(p1[n - 1].within(p0[n - 1]));
        lemma_ntrue_sub(p1[n - 1]@, p0[n - 1]@, 9);
        if exists|i: int, k: int| 0 <= i < n && 0 <= k < 9 && p0[i]@[k] && !p1[i]@[k] {
            let (i, k) = choose|i: int, k: int| 0 <= i < n && 0 <= k < 9 && p0[i]@[k] && !p1[i]@[k];
            if i < n - 1 {
                assert(exists|i: int, k: int| 0 <= i < n - 1 && 0 <= k < 9 && p0[i]@[k] && !p1[i]@[k]);
            } else {
                let a = p1[n - 1]@;
                let c = p0[n - 1]@;
                assert(c[k] && !a[k]);
                assert(exists|j: int| 0 <= j < 9 && #[trigger] c[j] && !a[j]);
            }
        }
    }
}

pub proof fn lemma_ntrue_full(s: Seq<bool>, n: int)
    requires
        0 <= n <= s.len(),
        forall|j: int| 0 <= j < n ==> s[j],
    ensures
        ntrue(s, n) == n,
    decreases n,
{
    if n > 0 {
        lemma_ntrue_full(s, n - 1);
    }
}

/// What a sweep leaves from cell `i` on: the board, the candidate sets, whether some
/// candidate set changed (`adjusted` for the cells before `i`), and whether a
/// contradiction was met.
pub open spec fn sweep_spec(
    b: Seq<Option<Space>>,
    p: Seq<SudokuChoices>,
    i: int,
    adjusted: bool,
) -> (Seq<Option<Space>>, Seq<SudokuChoices>, bool, bool)
    decreases 81 - i,
{
    if i < 0 || i >= 81 {
        (b, p, adjusted, false)
    } else if b[i] is Some {
        sweep_spec(b, p, i + 1, adjusted)
    } else {
        let nc = deduce_spec(b, p, i);
        let adj = adjusted || nc != p[i]@;
        let p2 = p.update(i, choices_of(nc));
        if ntrue(nc, 9) == 0 {
            (b, p2, adj, true)
        } else if ntrue(nc, 9) == 1 {
            let r = set_spec(b, p2, i, space_at(first_of(nc, 0)));
            if r.2 {
                (r.0, r.1, adj, true)
            } else {
                sweep_spec(r.0, r.1, i + 1, adj)
            }
        } else {
            sweep_spec(b, p2, i + 1, adj)
        }
    }
}

/// One sweep over the 81 cells in row-major order. At each undetermined cell the
/// candidates are narrowed by `deduce_cell`; a cell left with no candidate ends the
/// sweep as a contradiction, a cell left with one is confirmed with `set`.
/// Returns whether some candidate set changed, and whether a contradiction was met.
pub fn sweep(board: &mut SudokuBoard, possibilities_board: &mut PossibilitySpaceBoard) -> (r: (bool, bool))
    requires
        consistent(old(board)@, old(possibilities_board)@),
        tight(old(board)@, old(possibilities_board)@),
    ensures
        !r.1 ==> tight(final(board)@, final(possibilities_board)@),
        extends(old(board)@, final(board)@),
        shrinks(old(possibilities_board)@, final(possibilities_board)@),
        !r.1 ==> consistent(final(board)@, final(possibilities_board)@),
        !r.1 ==> new_clean(old(board)@, final(board)@, final(possibilities_board)@),
        !r.1 ==> forall|q: int| 0 <= q < 81 ==> #[trigger] cleared(final(board)@, final(possibilities_board)@, q),
        r.0 ==> total(final(possibilities_board)@, 81) < total(old(possibilities_board)@, 81),
        !r.0 && !r.1 ==> final(board)@ == old(board)@ && final(possibilities_board)@ == old(possibilities_board)@,
        !r.0 && !r.1 ==> settled(final(board)@, final(possibilities_board)@),
        settled(old(board)@, old(possibilities_board)@) ==> !r.0 && !r.1,
        forall|s: Seq<Option<Space>>| #[trigger] compatible(old(board)@, old(possibilities_board)@, s)
            ==> !r.1 && compatible(final(board)@, final(possibilities_board)@, s),
        (final(board)@, final(possibilities_board)@, r.0, r.1) == sweep_spec(old(board)@, old(possibilities_board)@, 0, false),
{
    let ghost b0 = board@;
    let ghost p0 = possibilities_board@;
    let mut adjusted = false;
    let mut i: usize = 0;
    while i < 81
        invariant
            i <= 81,
            b0 == old(board)@,
            p0 == old(possibilities_board)@,
            consistent(b0, p0),
            extends(b0, board@),
            shrinks(p0, possibilities_board@),
            consistent(board@, possibilities_board@),
            new_clean(b0, board@, possibilities_board@),
            forall|q: int| 0 <= q < i ==> #[trigger] cleared(board@, possibilities_board@, q),
            adjusted ==> total(possibilities_board@, 81) < total(p0, 81),
            !adjusted ==> board@ == b0 && possibilities_board@ == p0,
            !adjusted ==> forall|q: int| 0 <= q < i ==> #[trigger] settled_cell(board@, possibilities_board@, q),
            settled(b0, p0) ==> !adjusted,
            forall|s: Seq<Option<Space>>| #[trigger] compatible(b0, p0, s) ==> compatible(board@, possibilities_board@, s),
            sweep_spec(b0, p0, 0, false) == sweep_spec(board@, possibilities_board@, i as int, adjusted),
            tight(board@, possibilities_board@),
        decreases 81 - i,
    {
        let ghost b1 = board@;
        let ghost p1 = possibilities_board@;
        let ghost adj0 = adjusted;
        if board.cell(i).is_none() {
            let new_possibilities = deduce_cell(board, possibilities_board, i);
            proof {
                lemma_choices_of(new_possibilities);
            }
            let changed = !new_possibilities.equals(possibilities_board.cell(i));
            proof {
                assert(cell_ok(b1, p1, i as int));
                if settled(b0, p0) {
                    assert(settled_cell(b0, p0, i as int));
                }
            }
            if changed {
                adjusted = true;
            }
            possibilities_board.set_cell(i, new_possibilities);
            let ghost p2 = possibilities_board@;
            proof {
                assert(shrinks(p1, p2));
                assert(shrinks(p0, p2));
                if changed {
                    assert(exists|k: int| 0 <= k < 9 && p1[i as int]@[k] && !p2[i as int]@[k]) by {
                        if forall|k: int| 0 <= k < 9 ==> !(p1[i as int]@[k] && !p2[i as int]@[k]) {
                            assert(p2[i as int]@ =~= p1[i as int]@);
                        }
                    }
                    lemma_total_shrinks(p1, p2, 81);
                    lemma_total_shrinks(p0, p1, 81);
                } else {
                    broadcast use vstd::array::axiom_array_ext_equal;
                    assert(new_possibilities.0 =~= p1[i as int].0);
                    assert(p2 =~= p1);
                }
                lemma_new_clean_trans(b0, b1, p1, b1, p2);
                assert forall|q: int| 0 <= q < i implies #[trigger] cleared(b1, p2, q) by {
                    lemma_cleared_mono(b1, p1, b1, p2, q);
                }
                assert forall|q: int| 0 <= q < 81 && q != i implies #[trigger] cell_ok(b1, p2, q) by {
                    assert(cell_ok(b1, p1, q));
                }
                assert forall|q: int| 0 <= q < 81 && q != i implies #[trigger] tight_at(b1, p2, q) by {
                    assert(tight_at(b1, p1, q));
                }
                assert(tight_at(b1, p1, i as int));
                assert forall|s: Seq<Option<Space>>| #[trigger] compatible(b0, p0, s)
                    implies compatible(b1, p2, s) && new_possibilities.has(s[i as int]->Some_0) by {
                    assert(compatible(b1, p1, s));
                    assert forall|j: int| 0 <= j < 81 implies (#[trigger] p2[j]).has(s[j]->Some_0) by {
                        assert(p1[j].has(s[j]->Some_0));
                    }
                }
            }
            let n = new_possibilities.count();
            if n == 0 {
                proof {
                    assert forall|s: Seq<Option<Space>>| #[trigger] compatible(b0, p0, s) implies false by {
                        assert(new_possibilities.has(s[i as int]->Some_0));
                        lemma_space_idx(s[i as int]->Some_0);
                        lemma_ntrue_zero(new_possibilities@, 9);
                    }
                }
                proof {
                    assert(sweep_spec(b1, p1, i as int, adj0) == (board@, possibilities_board@, adjusted, true));
                }
                return (adjusted, true);
            }
            if n == 1 {
                let value = new_possibilities.first();
                proof {
                    lemma_space_idx(value);
                    assert forall|s: Seq<Option<Space>>| #[trigger] compatible(b0, p0, s)
                        implies s[i as int] == Some(value) by {
                        assert(new_possibilities.has(s[i as int]->Some_0));
                        lemma_space_idx(s[i as int]->Some_0);
                        lemma_ntrue_one(new_possibilities@, 9, space_idx(value));
                    }
                }
                let invalid = set(board, possibilities_board, i, value);
                proof {
                    assert(space_at(first_of(new_possibilities@, 0)) == value);
                    if invalid {
                        assert(sweep_spec(b1, p1, i as int, adj0) == (board@, possibilities_board@, adjusted, true));
                    } else {
                        assert(sweep_spec(b1, p1, i as int, adj0) == sweep_spec(board@, possibilities_board@, i + 1, adjusted));
                    }
                }
                proof {
                    assert forall|s: Seq<Option<Space>>| #[trigger] compatible(b0, p0, s)
                        implies !invalid && compatible(board@, possibilities_board@, s) by {
                        assert(compatible(b1, p2, s));
                    }
                }
                if invalid {
                    proof {
                        lemma_extends_trans(b0, b1, board@);
                        assert forall|j: int| 0 <= j < 81 implies (#[trigger] possibilities_board@[j]).within(p0[j]) by {
                            assert(possibilities_board@[j].within(p2[j]));
                            assert(p2[j].within(p0[j]));
                        }
                        lemma_total_shrinks(p2, possibilities_board@, 81);
                    }
                    return (adjusted, true);
                }
                proof {
                    lemma_extends_trans(b0, b1, board@);
                    assert forall|j: int| 0 <= j < 81 implies (#[trigger] possibilities_board@[j]).within(p0[j]) by {
                        assert(possibilities_board@[j].within(p2[j]));
                        assert(p2[j].within(p0[j]));
                    }
                    lemma_total_shrinks(p2, possibilities_board@, 81);
                    lemma_new_clean_trans(b0, b1, p2, board@, possibilities_board@);
                    assert forall|q: int| 0 <= q < i + 1 implies #[trigger] cleared(board@, possibilities_board@, q) by {
                        if q < i {
                            lemma_cleared_mono(b1, p2, board@, possibilities_board@, q);
                        }
                    }
                }
            } else {
                proof {
                    assert(cell_ok(b1, p2, i as int));
                    assert(tight_at(b1, p2, i as int));
                    assert(cleared(b1, p2, i as int));
                    if !adjusted {
                        assert(new_possibilities@ == p1[i as int]@);
                        assert(settled_cell(b1, p2, i as int));
                    }
                }
            }
        }
        i = i + 1;
    }
    (adjusted, false)
}

/// The candidate sets that propagation starts from: `{v}` where `v` is determined,
/// all nine values elsewhere.
pub open spec fn init_spec(b: Seq<Option<Space>>) -> Seq<SudokuChoices> {
    Seq::new(81, |i: int| choices_of(match b[i] {
        Some(v) => Seq::new(9, |j: int| j == space_idx(v)),
        None => Seq::new(9, |j: int| true),
    }))
}

/// Sweeps from `(b, p)` until a sweep changes nothing, the board is solved or a
/// contradiction is met: the board, candidate sets and contradiction flag left.
pub open spec fn reduce_loop(b: Seq<Option<Space>>, p: Seq<SudokuChoices>) -> (Seq<Option<Space>>, Seq<SudokuChoices>, bool)
    decreases total(p, 81),
{
    let r = sweep_spec(b, p, 0, false);
    if r.3 {
        (r.0, r.1, true)
    } else if !r.2 || is_solved(r.0) {
        (r.0, r.1, false)
    } else if total(r.1, 81) < total(p, 81) {
        reduce_loop(r.0, r.1)
    } else {
        (r.0, r.1, false)
    }
}

/// The board, candidate sets and contradiction flag that propagating `b` gives.
pub open spec fn reduce_spec(b: Seq<Option<Space>>) -> (Seq<Option<Space>>, Seq<SudokuChoices>, bool) {
    reduce_loop(b, init_spec(b))
}

/// A sweep over a settled state changes nothing and reports neither a change nor a
/// contradiction.
pub proof fn lemma_sweep_settled(b: Seq<Option<Space>>, p: Seq<SudokuChoices>, i: int, adj: bool)
    requires
        b.len() == 81,
        p.len() == 81,
        settled(b, p),
        0 <= i <= 81,
    ensures
        sweep_spec(b, p, i, adj) == (b, p, adj, false),
    decreases 81 - i,
{
    if i < 81 {
        if b[i] is Some {
            lemma_sweep_settled(b, p, i + 1, adj);
        } else {
            assert(settled_cell(b, p, i));
            assert(cell_ok(b, p, i));
            let c = p[i]@;
            assert forall|r: int| 0 <= r < 81 && r != i && peers(i, r) && (#[trigger] b[r]) is Some
                implies !c[space_idx(b[r]->Some_0)] by {}
            lemma_removed_seq(b, c, RegionKind::Row, i);
            lemma_removed_seq(b, c, RegionKind::Column, i);
            lemma_removed_seq(b, c, RegionKind::Square, i);
            assert(deduce_spec(b, p, i) == c);
            lemma_choices_of(p[i]);
            assert(p.update(i, choices_of(c)) =~= p);
            lemma_sweep_settled(b, p, i + 1, adj);
        }
    }
}

/// Where every candidate set of `p1` is within the one of `pc`, and `s` is a solution
/// compatible with `p1`, a region check at `i` under `pc` finds a single hidden value
/// only where the same check under `p1` does.
proof fn lemma_fresh_hidden(
    b: Seq<Option<Space>>,
    p1: Seq<SudokuChoices>,
    pc: Seq<SudokuChoices>,
    c: Seq<bool>,
    kind: RegionKind,
    i: int,
    s: Seq<Option<Space>>,
)
    requires
        0 <= i < 81,
        c.len() == 9,
        pc.len() == 81,
        compatible(b, p1, s),
        forall|r: int| 0 <= r < 81 ==> (#[trigger] p1[r]).within(pc[r]),
        ntrue(hidden_seq(p1, p1[i]@, kind, i), 9) != 1,
    ensures
        ntrue(hidden_seq(pc, c, kind, i), 9) != 1,
{
    let u = space_idx(s[i]->Some_0);
    lemma_space_idx(s[i]->Some_0);
    let g = region_of(kind, i);
    lemma_cell_region(kind, i);
    let hc = hidden_seq(pc, c, kind, i);
    let h1 = hidden_seq(p1, p1[i]@, kind, i);
    // a value hidden at `i` under either set of candidates is the one that `s` puts there
    assert forall|k: int| 0 <= k < 9 && (hc[k] || h1[k]) implies k == u by {
        lemma_space_at(k);
        crate::validate::lemma_region_holds_all(s, kind, g, space_at(k));
        let j = choose|j: int| 0 <= j < 9 && s[#[trigger] region_cell(kind, g, j)] == Some(space_at(k));
        let cj = region_cell(kind, g, j);
        crate::board::lemma_region_cell(kind, g, j);
        if cj != i {
            assert(p1[cj].has(space_at(k)));
            assert(p1[cj].within(pc[cj]));
            lemma_claimed_upto(pc, kind, i, k, 9);
            lemma_claimed_upto(p1, kind, i, k, 9);
        }
    }
    if ntrue(hc, 9) == 1 {
        lemma_ntrue_zero(hc, 9);
        assert(hc[u]);
        lemma_claimed_upto(pc, kind, i, u, 9);
        lemma_claimed_upto(p1, kind, i, u, 9);
        if claimed_upto(p1, kind, i, u, 9) {
            let j = choose|j: int| 0 <= j < 9 && {
                let cj = #[trigger] region_cell(kind, region_of(kind, i), j);
                cj != i && p1[cj]@[u]
            };
            let cj = region_cell(kind, g, j);
            crate::board::lemma_region_cell(kind, g, j);
            assert(p1[cj].within(pc[cj]));
        }
        assert(p1[i].has(s[i]->Some_0));
        assert(h1[u]);
        lemma_ntrue_only(h1, 9, u);
    }
}

/// The candidates every value at all, a candidate set that holds.
pub open spec fn full_seq() -> Seq<bool> {
    Seq::new(9, |j: int| true)
}

/// At an undetermined cell `i` of a fresh sweep over a tight settled state, the
/// checks give the candidates of `p1`.
proof fn lemma_fresh_cell(
    b: Seq<Option<Space>>,
    p1: Seq<SudokuChoices>,
    pc: Seq<SudokuChoices>,
    i: int,
    s: Seq<Option<Space>>,
)
    requires
        b.len() == 81,
        p1.len() == 81,
        pc.len() == 81,
        0 <= i < 81,
        b[i] is None,
        settled(b, p1),
        tight(b, p1),
        compatible(b, p1, s),
        forall|r: int| 0 <= r < 81 && (r < i || b[r] is Some) ==> #[trigger] pc[r] == p1[r],
        forall|r: int| 0 <= r < 81 && r >= i && b[r] is None ==> (#[trigger] pc[r])@ == full_seq(),
    ensures
        deduce_spec(b, pc, i) == p1[i]@,
{
    assert forall|r: int| 0 <= r < 81 implies (#[trigger] p1[r]).within(pc[r]) by {
        if r >= i && b[r] is None {
            assert(pc[r]@ == full_seq());
        }
    }
    assert(settled_cell(b, p1, i));
    assert(tight_at(b, p1, i));
    assert(cell_ok(b, p1, i));
    let c0 = pc[i]@;
    let n1 = removed_seq(b, c0, RegionKind::Row, i);
    let n2 = removed_seq(b, n1, RegionKind::Column, i);
    let n3 = removed_seq(b, n2, RegionKind::Square, i);
    lemma_fresh_hidden(b, p1, pc, c0, RegionKind::Row, i, s);
    lemma_fresh_hidden(b, p1, pc, n1, RegionKind::Column, i, s);
    lemma_fresh_hidden(b, p1, pc, n2, RegionKind::Square, i, s);
    lemma_removed_seq(b, c0, RegionKind::Row, i);
    lemma_removed_seq(b, n1, RegionKind::Column, i);
    lemma_removed_seq(b, n2, RegionKind::Square, i);
    assert(deduce_spec(b, pc, i) == n3);
    assert forall|k: int| 0 <= k < 9 implies n3[k] == p1[i]@[k] by {
        if p1[i]@[k] {
            if peer_holds(b, i, k) {
                let r = choose|r: int| 0 <= r < 81 && peers(i, r) && #[trigger] b[r] == Some(space_at(k));
                lemma_space_at(k);
                assert(!p1[i].has(b[r]->Some_0));
            }
        } else {
            assert(peer_holds(b, i, k));
            let r = choose|r: int| 0 <= r < 81 && peers(i, r) && #[trigger] b[r] == Some(space_at(k));
            lemma_space_at(k);
            assert(space_idx(b[r]->Some_0) == k);
        }
    }
    assert(n3 =~= p1[i]@);
}

/// Part of a fresh sweep over a tight settled state: cells before `i`, and the
/// determined ones, already hold the candidates of `p1`, the others all nine values.
/// The sweep ends in `(b, p1)` with no contradiction, and reports a change only where
/// some undetermined cell lacks a value.
proof fn lemma_sweep_fresh(
    b: Seq<Option<Space>>,
    p1: Seq<SudokuChoices>,
    pc: Seq<SudokuChoices>,
    i: int,
    adj: bool,
    s: Seq<Option<Space>>,
)
    requires
        b.len() == 81,
        p1.len() == 81,
        pc.len() == 81,
        0 <= i <= 81,
        settled(b, p1),
        tight(b, p1),
        compatible(b, p1, s),
        forall|r: int| 0 <= r < 81 && (r < i || b[r] is Some) ==> #[trigger] pc[r] == p1[r],
        forall|r: int| 0 <= r < 81 && r >= i && b[r] is None ==> (#[trigger] pc[r])@ == full_seq(),
        adj ==> exists|r: int, k: int| 0 <= r < 81 && 0 <= k < 9 && b[r] is None && !(#[trigger] p1[r]@[k]),
    ensures
        sweep_spec(b, pc, i, adj).0 == b,
        sweep_spec(b, pc, i, adj).1 == p1,
        !sweep_spec(b, pc, i, adj).3,
        sweep_spec(b, pc, i, adj).2 ==> exists|r: int, k: int|
            0 <= r < 81 && 0 <= k < 9 && b[r] is None && !(#[trigger] p1[r]@[k]),
    decreases 81 - i,
{
    if i == 81 {
        assert(pc =~= p1);
    } else if b[i] is Some {
        lemma_sweep_fresh(b, p1, pc, i + 1, adj, s);
    } else {
        lemma_fresh_cell(b, p1, pc, i, s);
        let n3 = deduce_spec(b, pc, i);
        assert(cell_ok(b, p1, i));
        assert(n3 =~= p1[i]@);
        lemma_choices_of(p1[i]);
        let pn = pc.update(i, p1[i]);
        let adj2 = adj || n3 != pc[i]@;
        if n3 != pc[i]@ && !adj {
            assert(!(p1[i]@ =~= full_seq()));
            let k = choose|k: int| 0 <= k < 9 && p1[i]@[k] != full_seq()[k];
            assert(!p1[i]@[k]);
        }
        lemma_sweep_fresh(b, p1, pn, i + 1, adj2, s);
    }
}

/// Propagating again a board that propagation left settled and tight, and that has
/// a valid solution, gives back the same board and candidate sets, with no
/// contradiction.
proof fn lemma_propagated_again(
    b1: Seq<Option<Space>>,
    p1: Seq<SudokuChoices>,
    s: Seq<Option<Space>>,
    all: SudokuChoices,
)
    requires
        b1.len() == 81,
        p1.len() == 81,
        settled(b1, p1),
        tight(b1, p1),
        compatible(b1, p1, s),
        all.is_full(),
    ensures
        reduce_spec(b1) == (b1, p1, false),
{
    let init = init_spec(b1);
    lemma_choices_of(all);
    assert(all@ =~= full_seq());
    assert(Seq::new(9, |j: int| true) =~= full_seq());
    assert forall|r: int| 0 <= r < 81 && b1[r] is Some implies #[trigger] init[r] == p1[r] by {
        assert(cell_ok(b1, p1, r));
        let v = b1[r]->Some_0;
        assert(p1[r]@ =~= Seq::new(9, |j: int| j == space_idx(v)));
        lemma_choices_of(p1[r]);
    }
    assert forall|r: int| 0 <= r < 81 && r >= 0 && b1[r] is None implies (#[trigger] init[r])@ == full_seq() by {}
    lemma_sweep_fresh(b1, p1, init, 0, false, s);
    lemma_sweep_settled(b1, p1, 0, false);
    let r = sweep_spec(b1, init, 0, false);
    if r.2 && !is_solved(b1) {
        let (q, k) = choose|q: int, k: int| 0 <= q < 81 && 0 <= k < 9 && b1[q] is None && !(#[trigger] p1[q]@[k]);
        assert forall|j: int| 0 <= j < 81 implies (#[trigger] p1[j]).within(init[j]) by {
            if b1[j] is None {
                assert(init[j]@ == full_seq());
            }
        }
        assert(init[q]@[k]);
        lemma_total_shrinks(init, p1, 81);
        assert(reduce_loop(b1, p1) == (b1, p1, false));
    }
}

impl Board<Option<Space>> {
    /// Propagates constraints in place until a sweep changes nothing, the board is
    /// solved, or a contradiction is met. Returns the final candidate sets and
    /// whether a contradiction was met: exactly the outcome `reduce_spec` describes.
    /// No valid solution of the board is lost, and where the board has one,
    /// propagating the result again changes nothing.
    pub fn reduce(&mut self) -> (r: (PossibilitySpaceBoard, bool))
        ensures
            extends(old(self)@, final(self)@),
            !r.1 ==> propagated(old(self)@, final(self)@, r.0@),
            forall|s: Seq<Option<Space>>| #[trigger] is_valid_solution(s) && extends(old(self)@, s)
                ==> !r.1 && compatible(final(self)@, r.0@, s),
            (final(self)@, r.0@, r.1) == reduce_spec(old(self)@),
            !r.1 && (exists|s: Seq<Option<Space>>| #[trigger] is_valid_solution(s) && extends(old(self)@, s))
                ==> reduce_spec(final(self)@) == (final(self)@, r.0@, false),
    {
        let ghost b_in = self@;
        let mut possibilities_board = PossibilitySpaceBoard::new(self);
        proof {
            assert forall|i: int| 0 <= i < 81 implies #[trigger] cell_ok(self@, possibilities_board@, i) by {
                if self@[i] is None {
                    lemma_ntrue_full(possibilities_board@[i]@, 9);
                }
            }
            assert forall|i: int| 0 <= i < 81 implies #[trigger] init_spec(b_in)[i] == possibilities_board@[i] by {
                lemma_choices_of(possibilities_board@[i]);
                match b_in[i] {
                    Some(v) => assert(possibilities_board@[i]@ =~= Seq::new(9, |j: int| j == space_idx(v))),
                    None => assert(possibilities_board@[i]@ =~= Seq::new(9, |j: int| true)),
                }
            }
            assert(init_spec(b_in) =~= possibilities_board@);
            assert forall|q: int| 0 <= q < 81 implies #[trigger] tight_at(self@, possibilities_board@, q) by {}
            assert forall|s: Seq<Option<Space>>| #[trigger] is_valid_solution(s) && extends(b_in, s)
                implies compatible(b_in, possibilities_board@, s) by {
                assert forall|i: int| 0 <= i < 81 implies (#[trigger] possibilities_board@[i]).has(s[i]->Some_0) by {
                    lemma_space_idx(s[i]->Some_0);
                }
            }
        }
        loop
            invariant
                b_in == old(self)@,
                consistent(self@, possibilities_board@),
                extends(b_in, self@),
                new_clean(b_in, self@, possibilities_board@),
                forall|s: Seq<Option<Space>>| #[trigger] is_valid_solution(s) && extends(b_in, s)
                    ==> compatible(self@, possibilities_board@, s),
                reduce_spec(b_in) == reduce_loop(self@, possibilities_board@),
                tight(self@, possibilities_board@),
            decreases total(possibilities_board@, 81),
        {
            let ghost b1 = self@;
            let ghost p1 = possibilities_board@;
            let (adjusted, invalid) = sweep(self, &mut possibilities_board);
            proof {
                lemma_extends_trans(b_in, b1, self@);
                assert forall|s: Seq<Option<Space>>| #[trigger] is_valid_solution(s) && extends(b_in, s)
                    implies !invalid && compatible(self@, possibilities_board@, s) by {
                    assert(compatible(b1, p1, s));
                }
            }
            if invalid {
                return (possibilities_board, true);
            }
            proof {
                lemma_new_clean_trans(b_in, b1, p1, self@, possibilities_board@);
            }
            if !adjusted || self.is_solution() {
                let all = SudokuChoices::all();
                proof {
                    assert forall|q: int| 0 <= q < 81 implies #[trigger] settled_cell(self@, possibilities_board@, q) by {
                        assert(cleared(self@, possibilities_board@, q));
                    }
                    if exists|s: Seq<Option<Space>>| #[trigger] is_valid_solution(s) && extends(b_in, s) {
                        let s = choose|s: Seq<Option<Space>>| #[trigger] is_valid_solution(s) && extends(b_in, s);
                        lemma_propagated_again(self@, possibilities_board@, s, all);
                    }
                }
                return (possibilities_board, false);
            }
        }
    }
}

/// What `reduce` leaves when it meets no contradiction: the board extends the one it
/// started from, propagation is at a fixpoint, and every cell that it determined
/// has its value gone from the candidates of all its peers.
pub open spec fn propagated(b_in: Seq<Option<Space>>, b: Seq<Option<Space>>, p: Seq<SudokuChoices>) -> bool {
    &&& extends(b_in, b)
    &&& settled(b, p)
    &&& new_clean(b_in, b, p)
}

} // verus!
