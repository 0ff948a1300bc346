use vstd::prelude::*;
use crate::space::lemma_space_idx;
use crate::board::{PossibilitySpaceBoard, SudokuBoard, peers};
use crate::reduce::{cell_ok, clean, propagated, settled_cell};
use crate::validate::{board_valid, lemma_valid_no_clash, no_peer_clash};

verus! {

/// After propagation without contradiction from a valid board, no two peers hold the
/// same value.
proof fn lemma_propagated_no_clash(b_in: SudokuBoard, b: SudokuBoard, p: PossibilitySpaceBoard)
    requires
        board_valid(b_in@),
        propagated(b_in@, b@, p@),
    ensures
        no_peer_clash(b@),
{
    lemma_valid_no_clash(b_in@);
    assert forall|i: int, q: int|
        0 <= i < 81 && 0 <= q < 81 && peers(i, q) && (#[trigger] b@[i]) is Some && (#[trigger] b@[q]) is Some
            implies b@[i] != b@[q] by {
        if b@[i] == b@[q] {
            let v = b@[i]->Some_0;
            lemma_space_idx(v);
            assert(cell_ok(b@, p@, q));
            assert(cell_ok(b@, p@, i));
            if b_in@[i] is None {
                assert(clean(b@, p@, i));
                assert(p@[q].has(v));
            } else if b_in@[q] is None {
                assert(clean(b@, p@, q));
                assert(peers(q, i));
                assert(p@[i].has(v));
            } else {
                assert(b_in@[i] == b@[i] && b_in@[q] == b@[q]);
            }
        }
    }
}

/// Propagation keeps a valid board valid: when `reduce` meets no contradiction on a
/// board whose rows, columns and squares hold no value twice, neither does the board
/// it leaves.
pub proof fn lemma_reduce_keeps_valid(b_in: SudokuBoard, b: SudokuBoard, p: PossibilitySpaceBoard)
    requires
        board_valid(b_in@),
        propagated(b_in@, b@, p@),
    ensures
        board_valid(b@),
{
    lemma_propagated_no_clash(b_in, b, p);
    lemma_valid_no_clash(b@);
}

/// After propagation without contradiction from a valid board, no cell keeps as a
/// candidate a value that a peer holds.
pub proof fn lemma_reduce_excludes_peer_values(b_in: SudokuBoard, b: SudokuBoard, p: PossibilitySpaceBoard)
    requires
        board_valid(b_in@),
        propagated(b_in@, b@, p@),
    ensures
        forall|i: int, q: int|
            0 <= i < 81 && 0 <= q < 81 && peers(i, q) && (#[trigger] b@[i]) is Some
                ==> !(#[trigger] p@[q]).has(b@[i]->Some_0),
{
    lemma_propagated_no_clash(b_in, b, p);
    assert forall|i: int, q: int|
        0 <= i < 81 && 0 <= q < 81 && peers(i, q) && (#[trigger] b@[i]) is Some
            implies !(#[trigger] p@[q]).has(b@[i]->Some_0) by {
        lemma_space_idx(b@[i]->Some_0);
        assert(cell_ok(b@, p@, q));
        if b@[q] is None {
            assert(settled_cell(b@, p@, q));
            assert(peers(q, i));
        } else {
            assert(b@[i] != b@[q]);
            lemma_space_idx(b@[q]->Some_0);
        }
    }
}

} // verus!
