use space_search::search::guided;
use space_search::{Scoreable, Searchable, Searcher, SolutionIdentifiable};
use sudoku::SudokuBoard;

#[derive(Clone, Hash, PartialEq, Eq, Debug)]
struct State(SudokuBoard);

impl Searchable for State {
    fn next_states(&self) -> impl Iterator<Item = Self> {
        self.0.next_states().into_iter().map(State)
    }
}

impl SolutionIdentifiable for State {
    fn is_solution(&self) -> bool {
        self.0.is_solution()
    }
}

impl Scoreable for State {
    type Score = usize;

    fn score(&self) -> usize {
        self.0.score()
    }
}

fn solve(board: SudokuBoard) -> Option<SudokuBoard> {
    let mut searcher: Searcher<guided::no_route::hashable::Manager<State>> = Searcher::new(State(board));
    searcher.next().map(|s| s.0)
}

fn check_solution(puzzle: &SudokuBoard, solution: &SudokuBoard) {
    assert!(solution.is_solution());
    assert_eq!(solution.validate(), Ok(()));
    for i in 0..81 {
        if puzzle.cell(i).is_some() {
            assert_eq!(solution.cell(i), puzzle.cell(i));
        }
    }
}

#[test]
fn test_solve_hard() {
    let board_str = "2  5 74 6\n    31   \n      23 \n    2    \n86 31    \n 45      \n  9   7  \n  695   2\n  1  6  8";
    let board: SudokuBoard = board_str.parse().unwrap();
    println!("initial board:");
    println!("{}", board.render());
    let solution = solve(board).expect("Sudoku board has a solution");
    println!("solution:");
    println!("{}", solution.render());
    check_solution(&board, &solution);
}

#[test]
fn test_solve_hard_2() {
    let board_str = "  65     \n7 5  23  \n 3     8 \n 5  96 7 \n1 4     8\n   82    \n 2     9 \n  72  4  \n     75  ";
    let board: SudokuBoard = board_str.parse().unwrap();
    println!("initial board:");
    println!("{}", board.render());
    let solution = solve(board).expect("Sudoku board has a solution");
    println!("solution:");
    println!("{}", solution.render());
    check_solution(&board, &solution);
}

#[test]
fn test_solve_hard_3() {
    let board_str = " 293 8456\n5782 61 9\n   1 5 7 \n3 5 2 6  \n     9 4 \n 91 67   \n 3  5    \n     29 3\n9 7    24";
    let board: SudokuBoard = board_str.parse().unwrap();
    println!("initial board:");
    println!("{}", board.render());
    let solution = solve(board).expect("Sudoku board has a solution");
    println!("solution:");
    println!("{}", solution.render());
    check_solution(&board, &solution);
}

#[test]
fn test_solve_hard_4() {
    let board_str = "5 8427   \n 4  1 7  \n19   3  2\n    6   5\n7     2  \n6 513 9  \n9    15  \n    4  2 \n 7      8";
    let board: SudokuBoard = board_str.parse().unwrap();
    println!("initial board:");
    println!("{}", board.render());
    let solution = solve(board).expect("Sudoku board has a solution");
    println!("solution:");
    println!("{}", solution.render());
    check_solution(&board, &solution);
}

#[test]
fn branching_puzzle_reaches_one_valid_solution() {
    let board: SudokuBoard = "2  5 74 6\n    31   \n      23 \n    2    \n86 31    \n 45      \n  9   7  \n  695   2\n  1  6  8"
        .parse()
        .unwrap();
    let mut reduced = board;
    let (_, invalid) = reduced.reduce();
    assert!(!invalid);
    assert!(reduced.score() > 1);
    // best-first by ascending score, stopping at the first solved state
    let mut fringe: Vec<SudokuBoard> = vec![board];
    let mut seen: std::collections::HashSet<SudokuBoard> = std::collections::HashSet::new();
    let mut solution: Option<SudokuBoard> = None;
    while let Some(best) = fringe.iter().enumerate().min_by_key(|(_, b)| b.score()).map(|(i, _)| i) {
        let state = fringe.swap_remove(best);
        if !seen.insert(state) {
            continue;
        }
        if state.is_solution() {
            solution = Some(state);
            break;
        }
        fringe.extend(state.next_states());
    }
    let solution = solution.expect("the puzzle has a solution");
    check_solution(&board, &solution);
    assert_eq!(solve(board), Some(solution));
}
