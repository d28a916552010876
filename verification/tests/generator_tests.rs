use nonet::generator::{clues_for, generate};
use nonet::rng::Rng;
use nonet::solver::{count_solutions, solve};

#[test]
fn clues_for_each_difficulty() {
    assert_eq!(clues_for("easy"), 40);
    assert_eq!(clues_for("medium"), 32);
    assert_eq!(clues_for("hard"), 27);
    assert_eq!(clues_for("expert"), 23);
    assert_eq!(clues_for("anything"), 32);
    assert_eq!(clues_for("Easy"), 32);
}

#[test]
fn generate_keeps_at_least_the_target() {
    for seed in [3u64, 11, 42] {
        let p = generate(&mut Rng::new(seed), 40);
        assert!(p.board.clue_count() >= 40);
        assert!(p.solution.is_valid());
        assert_eq!(p.solution.clue_count(), 81);
        for i in 0..81 {
            assert!(p.board.cells[i] == 0 || p.board.cells[i] == p.solution.cells[i]);
        }
        let mut t = p.board;
        assert_eq!(count_solutions(&mut t, 2), 1);
    }
}

#[test]
fn generate_with_full_target_keeps_every_cell() {
    let p = generate(&mut Rng::new(9), 81);
    assert_eq!(p.board.cells, p.solution.cells);
    let q = generate(&mut Rng::new(9), 200);
    assert_eq!(q.board.cells, q.solution.cells);
}

#[test]
fn generated_puzzle_solves_to_its_solution() {
    let p = generate(&mut Rng::new(77), 26);
    let mut s = p.board;
    assert!(solve(&mut s));
    assert_eq!(s.cells, p.solution.cells);
}

#[test]
fn generate_depends_on_the_seed() {
    let a = generate(&mut Rng::new(1), 32);
    let b = generate(&mut Rng::new(1), 32);
    let c = generate(&mut Rng::new(2), 32);
    assert_eq!(a.board.cells, b.board.cells);
    assert_ne!(a.solution.cells, c.solution.cells);
}

#[test]
fn generated_puzzle_is_at_target_or_minimal() {
    for (seed, target) in [(21u64, 17usize), (22, 20), (23, 30)] {
        let p = generate(&mut Rng::new(seed), target);
        let n = p.board.clue_count();
        if n != target {
            for i in 0..81 {
                if p.board.cells[i] != 0 {
                    let mut t = p.board;
                    t.cells[i] = 0;
                    assert_eq!(count_solutions(&mut t, 2), 2);
                }
            }
        }
        assert!(n >= target);
    }
}

#[test]
fn web_gen_is_the_generated_puzzle() {
    let p = generate(&mut Rng::new(55), clues_for("expert"));
    assert_eq!(nonet::web::gen("expert", 55), p.board.to_line());
}
