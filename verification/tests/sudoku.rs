use rand::SeedableRng;
use sudoku_rs::board::Board;
use sudoku_rs::generate::{generate_board, generate_board_seeded, generate_solved_boards,
    solve_all, solve_board, solved_batch};
use sudoku_rs::position::Position;
use sudoku_rs::search::Tree;

fn pos(row: i8, column: i8) -> Position {
    Position { row, column }
}

fn filled_count(b: &Board) -> usize {
    let mut n = 0;
    for p in Position::get_all_positions() {
        if b.get(&p).is_some() {
            n += 1;
        }
    }
    n
}

fn is_solved(b: &Board) -> bool {
    for p in Position::get_all_positions() {
        match b.get(&p) {
            None => return false,
            Some(v) => {
                if !b.valid_placement(&p, v) {
                    return false;
                }
            }
        }
    }
    true
}

fn solved_fixture(seed: u64) -> Board {
    let mut tree = Tree::new_seeded(Board::init(), seed);
    let b = tree.next_board().expect("the empty grid has completions");
    assert!(is_solved(&b));
    b
}

#[test]
fn empty_board_solves_to_valid_grid() {
    let solved = solve_board(Board::init()).expect("the empty grid has completions");
    assert_eq!(filled_count(&solved), 81);
    assert!(is_solved(&solved));
}

#[test]
fn solve_keeps_the_given_clue() {
    let board = Board::init().new(&pos(0, 0), Some(5));
    let solved = solve_board(board).expect("a single clue leaves completions");
    assert!(is_solved(&solved));
    assert_eq!(solved.get(&pos(0, 0)), Some(5));
}

#[test]
fn two_sevens_in_one_row_are_invalid() {
    let board = Board::init().new(&pos(2, 1), Some(7)).new(&pos(2, 6), Some(7));
    assert!(!board.valid_placement(&pos(2, 1), 7));
    assert!(!board.valid_placement(&pos(2, 6), 7));
    assert!(!board.valid_row(&pos(2, 1), 7));
    // The columns and boxes of the two cells are untouched.
    assert!(board.valid_column(&pos(2, 1), 7));
    assert!(board.valid_box(&pos(2, 1), 7));
}

#[test]
fn placement_twice_equals_placement_once() {
    let once = Board::init().new(&pos(4, 7), Some(3));
    let twice = once.new(&pos(4, 7), Some(3));
    assert_eq!(once, twice);
}

#[test]
fn cells_round_trip() {
    let solved = solved_fixture(11);
    let cells = solved.to_cells();
    let back = Board::from_cells(&cells).expect("written rows read back");
    assert_eq!(back, solved);
}

#[test]
fn json_round_trip() {
    let solved = solved_fixture(17);
    let cells = solved.to_cells();
    let text = serde_json::to_string(&cells).expect("rows serialize");
    let parsed: Vec<Vec<Option<i8>>> = serde_json::from_str(&text).expect("rows parse");
    let back = Board::from_cells(&parsed).expect("parsed rows read back");
    assert_eq!(back, solved);
}

#[test]
fn from_cells_rejects_bad_shapes_and_digits() {
    let mut cells = Board::init().to_cells();
    cells[3][4] = Some(10);
    assert!(Board::from_cells(&cells).is_none());
    let mut cells = Board::init().to_cells();
    cells[8].pop();
    assert!(Board::from_cells(&cells).is_none());
    let mut cells = Board::init().to_cells();
    cells.pop();
    assert!(Board::from_cells(&cells).is_none());
}

#[test]
fn batches_are_distinct_and_valid() {
    for (seed, n) in [(21u64, 1usize), (22, 5), (23, 50)] {
        let mut tree = Tree::new_seeded(Board::init(), seed);
        let boards = solved_batch(&mut tree, n);
        assert_eq!(boards.len(), n);
        for b in &boards {
            assert!(is_solved(b));
        }
        for i in 0..boards.len() {
            for j in 0..i {
                assert_ne!(boards[i], boards[j]);
            }
        }
    }
}

#[test]
fn generate_solved_boards_returns_valid_grids() {
    let boards = generate_solved_boards(3);
    assert_eq!(boards.len(), 3);
    for b in &boards {
        assert!(is_solved(b));
    }
}

#[test]
fn carve_keeps_exactly_one_completion() {
    let solved = solved_fixture(31);
    let carved = generate_board_seeded(solved.clone(), 99);
    assert!(filled_count(&carved) < 81);
    // Every kept cell agrees with the solved grid.
    for p in Position::get_all_positions() {
        match carved.get(&p) {
            None => (),
            Some(v) => assert_eq!(Some(v), solved.get(&p)),
        }
    }
    // Re-solving finds the original grid, and nothing else.
    let mut tree = Tree::new_seeded(carved.clone(), 7);
    let first = tree.next_board().expect("the carved grid is solvable");
    assert_eq!(first, solved);
    assert!(tree.next_board().is_none());
}

#[test]
fn carve_with_a_fixed_seed_is_reproducible() {
    let solved = solved_fixture(41);
    let a = generate_board_seeded(solved.clone(), 5);
    let b = generate_board_seeded(solved, 5);
    assert_eq!(a, b);
}

#[test]
fn carve_from_entropy_keeps_kept_cells() {
    let solved = solved_fixture(43);
    let carved = generate_board(solved.clone());
    for p in Position::get_all_positions() {
        match carved.get(&p) {
            None => (),
            Some(v) => assert_eq!(Some(v), solved.get(&p)),
        }
    }
}

#[test]
fn unsolvable_board_reports_none() {
    assert!(solve_board(unsolvable_fixture()).is_none());
}

fn unsolvable_fixture() -> Board {
    // Row 0 holds 1..=8 beside an empty corner, and 9 sits in the corner's
    // box: the corner cell has no candidate, yet no placed digit clashes.
    let mut board = Board::init();
    for c in 1i8..9i8 {
        board = board.new(&pos(0, c), Some(c));
    }
    board.new(&pos(1, 1), Some(9))
}

#[test]
fn batch_reports_shortfall_on_an_unsolvable_root() {
    let mut tree = Tree::new_seeded(unsolvable_fixture(), 61);
    let boards = solved_batch(&mut tree, 4);
    assert!(boards.is_empty());
}

#[test]
fn solve_all_keeps_unsolvable_boards_unchanged() {
    let stuck = unsolvable_fixture();
    let boards = vec![Board::init(), stuck.clone()];
    let solved = solve_all(&boards);
    assert_eq!(solved.len(), 2);
    assert!(is_solved(&solved[0]));
    assert_eq!(solved[1], stuck);
}

#[test]
fn candidates_of_an_empty_cell_are_the_free_digits() {
    let mut rng = rand::rngs::StdRng::seed_from_u64(3);
    let empty = Board::init();
    let mut digits = empty.get_valid(&pos(0, 0), &mut rng);
    digits.sort();
    assert_eq!(digits, vec![1, 2, 3, 4, 5, 6, 7, 8, 9]);

    let with_clues = empty.new(&pos(0, 3), Some(7)).new(&pos(5, 0), Some(2));
    let mut digits = with_clues.get_valid(&pos(0, 0), &mut rng);
    digits.sort();
    assert_eq!(digits, vec![1, 3, 4, 5, 6, 8, 9]);
}

#[test]
fn candidates_of_a_filled_cell_are_its_value() {
    let mut rng = rand::rngs::StdRng::seed_from_u64(4);
    let board = Board::init().new(&pos(6, 2), Some(5));
    let digits = board.get_valid(&pos(6, 2), &mut rng);
    assert_eq!(digits, vec![5]);
}

#[test]
fn positions_walk_the_grid_row_major() {
    let all = Position::get_all_positions();
    assert_eq!(all.len(), 81);
    for (i, p) in all.iter().enumerate() {
        assert_eq!(p.row as usize, i / 9);
        assert_eq!(p.column as usize, i % 9);
    }
    assert_eq!(pos(0, 0).next(), Some(pos(0, 1)));
    assert_eq!(pos(0, 8).next(), Some(pos(1, 0)));
    assert_eq!(pos(8, 8).next(), None);
}

#[test]
fn render_shows_boxes_and_blanks() {
    let board = Board::init().new(&pos(0, 0), Some(5)).new(&pos(3, 8), Some(9));
    let blank_row = format!("{}| {}| {}\n", "      ", "      ", "      ");
    let row0 = format!("{}| {}| {}\n", "5     ", "      ", "      ");
    let row3 = format!("{}| {}| {}\n", "      ", "      ", "    9 ");
    let sep = "- - - + - - - + - - -\n";
    let mut expected = String::new();
    expected.push_str(&row0);
    expected.push_str(&blank_row);
    expected.push_str(&blank_row);
    expected.push_str(sep);
    expected.push_str(&row3);
    expected.push_str(&blank_row);
    expected.push_str(&blank_row);
    expected.push_str(sep);
    expected.push_str(&blank_row);
    expected.push_str(&blank_row);
    expected.push_str(&blank_row);
    assert_eq!(board.print(), expected);
}

#[test]
fn solving_a_solved_board_returns_it() {
    let solved = solved_fixture(53);
    let again = solve_board(solved.clone()).expect("a solved grid completes to itself");
    assert_eq!(again, solved);
}
