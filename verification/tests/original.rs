use nonet::board::Board;
use nonet::generator::generate;
use nonet::rng::Rng;
use nonet::solver::{count_solutions, solve};

#[test]
fn generated_are_unique_and_match_solution() {
    for seed in 1..6u64 {
        let mut r = Rng::new(seed);
        let p = generate(&mut r, 30);
        let mut t = p.board;
        assert_eq!(count_solutions(&mut t, 2), 1);
        let mut s = p.board;
        assert!(solve(&mut s));
        assert_eq!(s.cells, p.solution.cells);
    }
}

#[test]
fn solves_a_hard_one() {
    let mut b = Board::parse(
        "8..........36......7..9.2...5...7.......457.....1...3...1....68..85...1..9....4..",
    )
    .unwrap();
    assert!(solve(&mut b));
    assert!(b.is_valid());
    assert!(b.cells.iter().all(|&c| c != 0));
}

#[test]
fn empty_grid_is_not_unique() {
    let mut b = Board::empty();
    assert_eq!(count_solutions(&mut b, 2), 2);
}
