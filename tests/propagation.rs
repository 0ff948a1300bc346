use sudoku::board::RegionKind;
use sudoku::choices::SudokuChoices;
use sudoku::{PossibilitySpaceBoard, Space, SudokuBoard, ValidationError};

const CLASSIC: &str = "53  7    \n6  195   \n 98    6 \n8   6   3\n4  8 3  1\n7   2   6\n 6    28 \n   419  5\n    8  79";

const CLASSIC_SOLUTION: &str = "534678912\n672195348\n198342567\n859761423\n426853791\n713924856\n961537284\n287419635\n345286179";

#[test]
fn test_reduction() {
    let board_str = CLASSIC;
    let mut board: SudokuBoard = board_str.parse().unwrap();
    println!("initial board:");
    println!("{}", board.render());
    board.reduce();
    println!("after reduction:");
    println!("{}", board.render());
}

#[test]
fn test_solo_candidate_deduction() {
    let board_str = "         \n3        \n6        \n2        \n1        \n     4   \n8        \n5        \n       4 ";
    println!("{}", board_str.len());
    let mut board: SudokuBoard = board_str.parse().unwrap();
    println!("initial board:");
    println!("{}", board.render());
    board.reduce();
    println!("solution:");
    println!("{}", board.render());
    assert_eq!(board.validate(), Ok(()));
    assert_eq!(*board.get(0, 0), Some(Space::Four));
}

#[test]
fn classic_puzzle_resolves_by_propagation_alone() {
    let mut board: SudokuBoard = CLASSIC.parse().unwrap();
    let (possibilities, invalid) = board.reduce();
    assert!(!invalid);
    assert!(board.is_solution());
    assert_eq!(board.score(), 0);
    assert_eq!(board.validate(), Ok(()));
    assert_eq!(board.render(), CLASSIC_SOLUTION);
    for i in 0..81 {
        assert_eq!(possibilities.cell(i).count(), 1);
    }
}

#[test]
fn propagated_board_is_valid_and_excludes_peer_values() {
    let board_str = "         \n3        \n6        \n2        \n1        \n     4   \n8        \n5        \n       4 ";
    let mut board: SudokuBoard = board_str.parse().unwrap();
    let (possibilities, invalid) = board.reduce();
    assert!(!invalid);
    assert_eq!(board.validate(), Ok(()));
    for pos in 0..81 {
        if let Some(v) = *board.cell(pos) {
            for kind in [RegionKind::Row, RegionKind::Column, RegionKind::Square] {
                for q in sudoku::region_positions(kind, pos) {
                    if q != pos {
                        assert!(!possibilities.cell(q).contains(v));
                    }
                }
            }
        }
    }
}

#[test]
fn a_second_sweep_after_reduce_changes_nothing() {
    let mut board: SudokuBoard = "2  5 74 6\n    31   \n      23 \n    2    \n86 31    \n 45      \n  9   7  \n  695   2\n  1  6  8"
        .parse()
        .unwrap();
    let (mut possibilities, invalid) = board.reduce();
    assert!(!invalid);
    let before_board = board;
    let before_possibilities = possibilities;
    let (adjusted, invalid) = sudoku::reduce::sweep(&mut board, &mut possibilities);
    assert!(!adjusted);
    assert!(!invalid);
    assert_eq!(board, before_board);
    assert_eq!(possibilities, before_possibilities);
}

#[test]
fn set_fixes_the_cell_and_its_candidates() {
    let mut board: SudokuBoard = "         \n         \n         \n         \n         \n         \n         \n         \n         ".parse().unwrap();
    let mut possibilities = PossibilitySpaceBoard::new(&board);
    let invalid = sudoku::reduce::set(&mut board, &mut possibilities, 40, Space::Five);
    assert!(!invalid);
    assert_eq!(*board.cell(40), Some(Space::Five));
    assert_eq!(*possibilities.cell(40), SudokuChoices::singleton(Space::Five));
    assert!(!possibilities.cell(36).contains(Space::Five));
    assert!(!possibilities.cell(4).contains(Space::Five));
    assert!(!possibilities.cell(30).contains(Space::Five));
    assert!(possibilities.cell(0).contains(Space::Five));
    assert_eq!(possibilities.cell(0).count(), 9);
}

#[test]
fn set_cascades_to_a_cell_left_with_one_candidate() {
    let mut board: SudokuBoard = "1234567  \n         \n         \n         \n         \n         \n         \n         \n         ".parse().unwrap();
    let mut possibilities = PossibilitySpaceBoard::new(&board);
    let mut eight_or_nine = SudokuChoices::singleton(Space::Eight);
    eight_or_nine.0[8] = true;
    possibilities.set_cell(7, eight_or_nine);
    possibilities.set_cell(8, eight_or_nine);
    let invalid = sudoku::reduce::set(&mut board, &mut possibilities, 7, Space::Eight);
    assert!(!invalid);
    assert_eq!(*board.cell(7), Some(Space::Eight));
    assert_eq!(*board.cell(8), Some(Space::Nine));
    assert_eq!(*possibilities.cell(8), SudokuChoices::singleton(Space::Nine));
    assert!(!possibilities.cell(17).contains(Space::Nine));
    assert!(!possibilities.cell(16).contains(Space::Eight));
}

#[test]
fn contradiction_is_reported() {
    // the last cell of the first row can hold neither 9 (in its column) nor anything else
    let mut board: SudokuBoard = "12345678 \n         \n         \n         \n         \n         \n         \n         \n        9".parse().unwrap();
    let start = board;
    let (_, invalid) = board.reduce();
    assert!(invalid);
    assert!(start.next_states().is_empty());
}

#[test]
fn duplicate_in_a_row_is_rejected() {
    let board: SudokuBoard = "         \n         \n  7   7  \n         \n         \n         \n         \n         \n         ".parse().unwrap();
    assert_eq!(
        board.validate(),
        Err(ValidationError { kind: RegionKind::Row, index: 2, value: Space::Seven })
    );
}

#[test]
fn duplicate_in_a_column_and_a_square() {
    let column: SudokuBoard = "         \n    3    \n         \n         \n         \n         \n         \n    3    \n         ".parse().unwrap();
    assert_eq!(
        column.validate(),
        Err(ValidationError { kind: RegionKind::Column, index: 4, value: Space::Three })
    );
    let square: SudokuBoard = "         \n         \n         \n         \n         \n         \n      1  \n        1\n         ".parse().unwrap();
    assert_eq!(
        square.validate(),
        Err(ValidationError { kind: RegionKind::Square, index: 8, value: Space::One })
    );
}

#[test]
fn first_repeating_value_is_named() {
    let board: SudokuBoard = "5 3 3 5  \n         \n         \n         \n         \n         \n         \n         \n         ".parse().unwrap();
    assert_eq!(
        board.validate(),
        Err(ValidationError { kind: RegionKind::Row, index: 0, value: Space::Three })
    );
}

#[test]
fn render_inverts_parse() {
    for s in [CLASSIC, CLASSIC_SOLUTION, "2  5 74 6\n    31   \n      23 \n    2    \n86 31    \n 45      \n  9   7  \n  695   2\n  1  6  8"] {
        let board = sudoku::parse(s).unwrap();
        assert_eq!(board.render(), s);
    }
}

#[test]
fn parse_reads_cells_row_by_row() {
    let board = sudoku::parse(CLASSIC).unwrap();
    assert_eq!(*board.get(0, 0), Some(Space::Five));
    assert_eq!(*board.get(1, 0), Some(Space::Three));
    assert_eq!(*board.get(2, 0), None);
    assert_eq!(*board.get(0, 1), Some(Space::Six));
    assert_eq!(*board.get(8, 8), Some(Space::Nine));
    assert_eq!(board.score(), 51);
}

#[test]
fn parse_rejects_a_bad_character() {
    let s = "53  7    \n6  195   \n 98    6 \n8   6   3\n4  8x3  1\n7   2   6\n 6    28 \n   419  5\n    8  79";
    assert_eq!(sudoku::parse(s), Err(sudoku::ParseError::InvalidCharacter('x')));
    assert_eq!(sudoku::parse("0"), Err(sudoku::ParseError::InvalidCharacter('0')));
}

#[test]
fn parse_rejects_a_wrong_cell_count() {
    let s = "53  7    \n6  195   \n 98    6 \n8   6   3\n4  8 3  1\n7   2   6\n 6    28 \n   419  5\n    8  7";
    assert_eq!(sudoku::parse(s), Err(sudoku::ParseError::WrongCellCount(80)));
    assert_eq!(sudoku::parse(""), Err(sudoku::ParseError::WrongCellCount(0)));
}

#[test]
fn candidate_set_operations() {
    let all = SudokuChoices::all();
    assert_eq!(all.count(), 9);
    assert_eq!(all.iter().len(), 9);
    let mut c = SudokuChoices::new(None);
    assert_eq!(c, all);
    c.remove(Space::Three);
    c.remove(Space::Seven);
    assert!(!c.contains(Space::Three));
    assert!(c.contains(Space::Four));
    assert_eq!(c.count(), 7);
    assert_eq!(c.first(), Space::One);
    assert_eq!(
        c.iter(),
        vec![Space::One, Space::Two, Space::Four, Space::Five, Space::Six, Space::Eight, Space::Nine]
    );
    let s = SudokuChoices::new(Some(Space::Six));
    assert_eq!(s, SudokuChoices::singleton(Space::Six));
    assert_eq!(s.iter(), vec![Space::Six]);
    assert_eq!(s.first(), Space::Six);
    assert!(s.equals(&SudokuChoices::singleton(Space::Six)));
    assert!(!s.equals(&all));
}

#[test]
fn space_numbering() {
    assert_eq!(Space::One.idx(), 0);
    assert_eq!(Space::Nine.idx(), 8);
    assert_eq!(usize::from(Space::Seven), 7);
    assert_eq!(Space::Eight.succ(), Some(Space::Nine));
    assert_eq!(Space::Nine.succ(), None);
    assert_eq!(Space::from_number(4), Some(Space::Four));
    assert_eq!(Space::from_number(0), None);
    assert_eq!(Space::from_number(10), None);
    assert_eq!(Space::at(2), Space::Three);
}

#[test]
fn region_positions_of_a_cell() {
    assert_eq!(sudoku::region_positions(RegionKind::Row, 40), [36, 37, 38, 39, 40, 41, 42, 43, 44]);
    assert_eq!(sudoku::region_positions(RegionKind::Column, 40), [4, 13, 22, 31, 40, 49, 58, 67, 76]);
    assert_eq!(sudoku::region_positions(RegionKind::Square, 40), [30, 31, 32, 39, 40, 41, 48, 49, 50]);
    assert_eq!(sudoku::region_positions(RegionKind::Square, 80), [60, 61, 62, 69, 70, 71, 78, 79, 80]);
}

#[test]
fn possibility_board_from_values() {
    let board = sudoku::parse(CLASSIC).unwrap();
    let possibilities = PossibilitySpaceBoard::new(&board);
    assert_eq!(*possibilities.cell(0), SudokuChoices::singleton(Space::Five));
    assert_eq!(*possibilities.cell(2), SudokuChoices::all());
    assert_eq!(possibilities.iter().len(), 81);
}

#[test]
fn next_states_of_a_solved_board_is_itself() {
    let solved = sudoku::parse(CLASSIC_SOLUTION).unwrap();
    assert_eq!(solved.next_states(), vec![solved]);
    let mut one_gap = solved;
    one_gap.set_cell(10, None);
    assert!(!one_gap.is_solution());
    assert_eq!(one_gap.next_states(), vec![solved]);
}

#[test]
fn next_states_of_an_empty_board_branches_everywhere() {
    let empty: SudokuBoard = "         \n         \n         \n         \n         \n         \n         \n         \n         ".parse().unwrap();
    let next = empty.next_states();
    assert_eq!(next.len(), 729);
    assert_eq!(*next[0].cell(0), Some(Space::One));
    assert_eq!(next[0].score(), 80);
    assert_eq!(*next[8].cell(0), Some(Space::Nine));
    assert_eq!(*next[9].cell(1), Some(Space::One));
    assert_eq!(*next[9].cell(0), None);
    assert_eq!(*next[728].cell(80), Some(Space::Nine));
}

#[test]
fn successors_follow_candidates() {
    let board = sudoku::parse(CLASSIC_SOLUTION).unwrap();
    let mut gap = board;
    gap.set_cell(3, None);
    let mut possibilities = PossibilitySpaceBoard::new(&gap);
    let mut c = SudokuChoices::singleton(Space::Two);
    c.0[5] = true;
    possibilities.set_cell(3, c);
    let next = sudoku::successors(&gap, &possibilities, false);
    assert_eq!(next.len(), 2);
    assert_eq!(*next[0].cell(3), Some(Space::Two));
    assert_eq!(*next[1].cell(3), Some(Space::Six));
    assert!(sudoku::successors(&gap, &possibilities, true).is_empty());
}

#[test]
fn candidate_text() {
    let mut c = SudokuChoices::singleton(Space::One);
    c.0[2] = true;
    assert_eq!(c.render(), "[1 3      ]");
    assert_eq!(SudokuChoices::all().render(), "[123456789]");
    let board = sudoku::parse(CLASSIC).unwrap();
    let text = PossibilitySpaceBoard::new(&board).render();
    let first_line = text.lines().next().unwrap();
    assert_eq!(
        first_line,
        "[    5    ] [  3      ] [123456789] [123456789] [      7  ] [123456789] [123456789] [123456789] [123456789]"
    );
    assert_eq!(text.lines().count(), 9);
}

#[test]
fn repeated_givens_are_left_to_the_validator() {
    // propagation checks new values against the board, not the givens against each other
    let mut board: SudokuBoard = "55       \n         \n         \n         \n         \n         \n         \n         \n         ".parse().unwrap();
    let (_, invalid) = board.reduce();
    assert!(!invalid);
    assert_eq!(
        board.validate(),
        Err(ValidationError { kind: RegionKind::Row, index: 0, value: Space::Five })
    );
}

#[test]
fn propagating_twice_changes_nothing() {
    let puzzle: SudokuBoard = "2  5 74 6\n    31   \n      23 \n    2    \n86 31    \n 45      \n  9   7  \n  695   2\n  1  6  8"
        .parse()
        .unwrap();
    let mut once = puzzle;
    let (first, invalid) = once.reduce();
    assert!(!invalid);
    let mut twice = once;
    let (second, invalid_again) = twice.reduce();
    assert!(!invalid_again);
    assert_eq!(twice, once);
    assert_eq!(second, first);
}

#[test]
fn next_states_is_deterministic_and_progresses() {
    let puzzle: SudokuBoard = "2  5 74 6\n    31   \n      23 \n    2    \n86 31    \n 45      \n  9   7  \n  695   2\n  1  6  8"
        .parse()
        .unwrap();
    let copy = puzzle;
    let first = puzzle.next_states();
    let second = copy.next_states();
    assert_eq!(first, second);
    assert!(!first.is_empty());
    let mut reduced = puzzle;
    let (possibilities, _) = reduced.reduce();
    assert_eq!(first, sudoku::successors(&reduced, &possibilities, false));
    for next in &first {
        assert!(next.score() < puzzle.score());
        assert_eq!(next.score() + 1, reduced.score());
        for i in 0..81 {
            if puzzle.cell(i).is_some() {
                assert_eq!(next.cell(i), puzzle.cell(i));
            }
        }
    }
}
