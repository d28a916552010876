use nonet::board::Board;
use nonet::rng::Rng;
use nonet::solver::{count_solutions, next_cell, solve, solve_random, solve_trace, Step};

const SOLVED: &str =
    "534678912672195348198342567859761423426853791713924856961537284287419635345286179";
const HARD: &str =
    "8..........36......7..9.2...5...7.......457.....1...3...1....68..85...1..9....4..";

fn solved() -> Board {
    Board::parse(SOLVED).unwrap()
}

fn keeps_givens(puzzle: &Board, done: &Board) -> bool {
    (0..81).all(|i| puzzle.cells[i] == 0 || puzzle.cells[i] == done.cells[i])
}

#[test]
fn next_cell_on_a_full_grid_is_none() {
    assert_eq!(next_cell(&solved()), None);
}

#[test]
fn next_cell_takes_the_first_single_candidate() {
    let mut single = solved();
    single.cells[40] = 0;
    assert_eq!(next_cell(&single), Some((40, 1 << 5)));
    // Two open cells in one row: each has a single candidate, the first is taken.
    let mut two = solved();
    two.cells[30] = 0;
    two.cells[31] = 0;
    assert_eq!(next_cell(&two), Some((30, 1 << 7)));
}

#[test]
fn next_cell_prefers_fewest_candidates() {
    // An empty board: every cell has 9 candidates, so the first cell is taken.
    assert_eq!(next_cell(&Board::empty()), Some((0, 0x3FE)));
    // One given narrows its row, column and box: cell 1 (same row) has 8 candidates,
    // as the first such cell.
    let mut b = Board::empty();
    b.cells[0] = 1;
    assert_eq!(next_cell(&b), Some((1, 0x3FC)));
}

#[test]
fn next_cell_reports_a_stuck_cell() {
    let mut b = Board::empty();
    // cell 0 sees 1..8 in its row and 9 in its column: no candidate left.
    for c in 1..9 {
        b.cells[c] = c as u8;
    }
    b.cells[9 * 4] = 9;
    assert_eq!(next_cell(&b), Some((0, 0)));
}

#[test]
fn solve_fills_a_valid_puzzle() {
    let puzzle = Board::parse(HARD).unwrap();
    let mut b = puzzle;
    assert!(solve(&mut b));
    assert!(b.is_valid());
    assert_eq!(b.clue_count(), 81);
    assert!(keeps_givens(&puzzle, &b));
}

#[test]
fn solve_leaves_an_unsolvable_board_alone() {
    let mut b = Board::empty();
    for c in 1..9 {
        b.cells[c] = c as u8;
    }
    b.cells[9 * 4] = 9;
    let before = b;
    assert!(!solve(&mut b));
    assert_eq!(b.cells, before.cells);
}

#[test]
fn solve_accepts_a_full_grid() {
    let mut b = solved();
    assert!(solve(&mut b));
    assert_eq!(b.cells, solved().cells);
}

#[test]
fn count_is_exact_below_the_limit() {
    assert_eq!(count_solutions(&mut solved(), 2), 1);
    // Emptying a swappable rectangle (two rows, two columns, same two boxes' digits)
    // leaves two solutions.
    // Rows 3 and 4 (one band) hold 1 and 3 crosswise in columns 5 and 8:
    // emptying the four cells leaves two ways to fill them.
    let mut b = solved();
    for (r, c) in [(3, 5), (3, 8), (4, 5), (4, 8)] {
        b.cells[r * 9 + c] = 0;
    }
    let before = b;
    assert_eq!(count_solutions(&mut b, 10), 2);
    assert_eq!(b.cells, before.cells);
    assert_eq!(count_solutions(&mut b, 2), 2);
    assert_eq!(count_solutions(&mut b, 1), 1);
    assert_eq!(count_solutions(&mut b, 0), 0);
    assert_eq!(b.cells, before.cells);
}

#[test]
fn count_of_an_unsolvable_board_is_zero() {
    let mut b = Board::empty();
    for c in 1..9 {
        b.cells[c] = c as u8;
    }
    b.cells[9 * 4] = 9;
    assert_eq!(count_solutions(&mut b, 2), 0);
}

#[test]
fn count_reaches_the_limit_on_open_boards() {
    let mut b = Board::empty();
    assert_eq!(count_solutions(&mut b, 5), 5);
    assert_eq!(count_solutions(&mut b, 3), 3);
    assert_eq!(count_solutions(&mut solved(), 0), 0);
    assert_eq!(count_solutions(&mut solved(), usize::MAX), 1);
    assert_eq!(b.cells, Board::empty().cells);
}

#[test]
fn solve_random_fills_the_empty_board_differently() {
    let mut a = Board::empty();
    let mut b = Board::empty();
    assert!(solve_random(&mut a, &mut Rng::new(1)));
    assert!(solve_random(&mut b, &mut Rng::new(2)));
    assert!(a.is_valid() && a.clue_count() == 81);
    assert!(b.is_valid() && b.clue_count() == 81);
    assert_ne!(a.cells, b.cells);
}

#[test]
fn solve_random_keeps_givens() {
    let puzzle = Board::parse(HARD).unwrap();
    let mut b = puzzle;
    assert!(solve_random(&mut b, &mut Rng::new(7)));
    assert!(b.is_valid());
    assert!(keeps_givens(&puzzle, &b));
}

#[test]
fn trace_replays_to_the_solution() {
    let puzzle = Board::parse(HARD).unwrap();
    let mut b = puzzle;
    let mut steps = vec![Step::Erase(3)];
    assert!(solve_trace(&mut b, &mut steps));
    assert_eq!(steps[0], Step::Erase(3));
    let mut replayed = puzzle;
    for s in &steps[1..] {
        match *s {
            Step::Place(i, v) => replayed.cells[i] = v,
            Step::Erase(i) => replayed.cells[i] = 0,
        }
    }
    assert_eq!(replayed.cells, b.cells);
    let mut plain = puzzle;
    assert!(solve(&mut plain));
    assert_eq!(plain.cells, b.cells);
    assert!(steps[1..].iter().any(|s| matches!(s, Step::Erase(_))));
}

#[test]
fn trace_of_a_full_grid_is_empty() {
    let mut b = solved();
    let mut steps = Vec::new();
    assert!(solve_trace(&mut b, &mut steps));
    assert!(steps.is_empty());
}

#[test]
fn next_cell_takes_a_stuck_cell_over_a_single_candidate() {
    let text = format!(".12345678{}9{}12345678.", ".".repeat(35), ".".repeat(27));
    let b = Board::parse(&text).unwrap();
    assert_eq!(next_cell(&b), Some((80, 0)));
    let mut c = b;
    assert!(!solve(&mut c));
    assert_eq!(c.cells, b.cells);
}

#[test]
fn givens_above_nine_are_kept() {
    let mut b = solved();
    b.cells[0] = 12;
    let before = b;
    assert!(solve(&mut b));
    assert_eq!(b.cells, before.cells);
    b.cells[1] = 0;
    assert!(solve(&mut b));
    assert_eq!(b.cells[1], 3);
    assert_eq!(b.cells[0], 12);
}

#[test]
fn solve_random_depends_only_on_the_seed() {
    let mut a = Board::empty();
    let mut b = Board::empty();
    let mut ra = Rng::new(31);
    let mut rb = Rng::new(31);
    solve_random(&mut a, &mut ra);
    solve_random(&mut b, &mut rb);
    assert_eq!(a.cells, b.cells);
    assert_eq!(ra.next_u64(), rb.next_u64());
}
