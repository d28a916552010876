use vstd::prelude::*;
use crate::board::Board;
use crate::model::{
    complete, empty_grid, extends, is_solution, lemma_empty_grid_solvable,
    lemma_solutions_finite, lemma_solutions_of_valid_board, lemma_valid_fits, lemma_zeros_bound,
    lemma_zeros_update, solutions, valid, well_formed, zeros,
};
use crate::rng::{shuffle_from, state_after, Rng};
use crate::solver::{count_solutions, random_search, solve_random};
use crate::text::str_eq;

verus! {

/// A puzzle and the single grid that solves it.
pub struct Puzzle {
    pub board: Board,
    pub solution: Board,
}

/// How many givens a puzzle of the named difficulty keeps.
pub open spec fn clues_for_spec(difficulty: Seq<char>) -> usize {
    if difficulty == "easy"@ {
        40
    } else if difficulty == "hard"@ {
        27
    } else if difficulty == "expert"@ {
        23
    } else {
        32
    }
}

/// The number of givens for `easy`, `hard` and `expert`; anything else counts as medium.
pub fn clues_for(difficulty: &str) -> (n: usize)
    ensures
        n == clues_for_spec(difficulty@),
{
    if str_eq(difficulty, "easy") {
        40
    } else if str_eq(difficulty, "hard") {
        27
    } else if str_eq(difficulty, "expert") {
        23
    } else {
        32
    }
}

/// The board keeps only digits of `g`.
pub open spec fn digits_of(b: Seq<u8>, g: Seq<u8>) -> bool {
    forall|i: int| 0 <= i < 81 ==> #[trigger] b[i] == 0 || b[i] == g[i]
}

/// Every given of `b` is needed: emptying any one leaves at least two solutions.
pub open spec fn minimal(b: Seq<u8>) -> bool {
    forall|i: int| 0 <= i < 81 && b[i] != 0 ==> #[trigger] solutions(b.update(i, 0)).len() >= 2
}

/// A board that keeps only digits of a filled grid without clashes has no clash
/// either, and that grid is one of its solutions.
pub proof fn lemma_sub_board(b: Seq<u8>, g: Seq<u8>)
    requires
        b.len() == 81,
        complete(g),
        valid(g),
        digits_of(b, g),
    ensures
        well_formed(b),
        valid(b),
        is_solution(b, g),
        solutions(b).contains(g),
{
    assert forall|i: int| 0 <= i < 81 implies #[trigger] b[i] <= 9 by {
        assert(b[i] == 0 || b[i] == g[i]);
    }
    assert forall|t: int, u: int, k1: int, k2: int|
        0 <= t < 3 && 0 <= u < 9 && 0 <= k1 < 9 && 0 <= k2 < 9 && k1 != k2
            && b[crate::model::unit_cell(t, u, k1)] != 0 implies #[trigger] b[crate::model::unit_cell(t, u, k1)]
        != #[trigger] b[crate::model::unit_cell(t, u, k2)] by {
        crate::model::lemma_unit_cell(t, u, k1);
        crate::model::lemma_unit_cell(t, u, k2);
        assert(g[crate::model::unit_cell(t, u, k1)] != g[crate::model::unit_cell(t, u, k2)]);
    }
    assert forall|i: int| 0 <= i < 81 && b[i] == 0 implies #[trigger] crate::model::fits_at(g, i) by {
        lemma_valid_fits(g, i);
    }
}

/// Taking givens away from a board that keeps only digits of a grid without clashes
/// keeps every solution.
pub proof fn lemma_fewer_givens(b1: Seq<u8>, b2: Seq<u8>, g: Seq<u8>)
    requires
        b1.len() == 81,
        b2.len() == 81,
        complete(g),
        valid(g),
        digits_of(b1, g),
        forall|i: int| 0 <= i < 81 ==> #[trigger] b2[i] == 0 || b2[i] == b1[i],
    ensures
        solutions(b1).subset_of(solutions(b2)),
        solutions(b1).len() <= solutions(b2).len(),
{
    assert(digits_of(b2, g)) by {
        assert forall|i: int| 0 <= i < 81 implies #[trigger] b2[i] == 0 || b2[i] == g[i] by {
            assert(b2[i] == 0 || b2[i] == b1[i]);
            assert(b1[i] == 0 || b1[i] == g[i]);
        }
    }
    lemma_sub_board(b1, g);
    lemma_sub_board(b2, g);
    assert forall|h: Seq<u8>| solutions(b1).contains(h) implies solutions(b2).contains(h) by {
        lemma_solutions_of_valid_board(b1, h);
        lemma_solutions_of_valid_board(b2, h);
        assert forall|i: int| 0 <= i < 81 && b2[i] != 0 implies #[trigger] h[i] == b2[i] by {
            assert(b1[i] == b2[i]);
        }
    }
    lemma_solutions_finite(b2);
    vstd::set_lib::lemma_len_subset(solutions(b1), solutions(b2));
}

/// Emptying the cells `order[k..]` in turn from `puzzle`, keeping each removal that
/// leaves exactly one solution, until `clues` is down to `target`.
pub open spec fn dig(puzzle: Seq<u8>, order: Seq<usize>, k: int, clues: int, target: int) -> Seq<u8>
    decreases 81 - k,
{
    if k < 0 || k >= 81 || k >= order.len() || clues <= target {
        puzzle
    } else {
        let test = puzzle.update(order[k] as int, 0);
        if solutions(test).len() == 1 {
            dig(test, order, k + 1, clues - 1, target)
        } else {
            dig(puzzle, order, k + 1, clues, target)
        }
    }
}

/// What [`generate`] builds from generator state `st`: the puzzle, its solution and
/// the generator state afterwards. The solution is the randomised search's fill of the
/// empty board; the cells are then tried in an order shuffled by the generator.
pub open spec fn generated(st: u64, target: int) -> (Seq<u8>, Seq<u8>, u64) {
    let filled = random_search(empty_grid(), st);
    let order = shuffle_from(Seq::new(81, |i: int| i as usize), filled.2, 80);
    (dig(filled.1, order, 0, 81, target), filled.1, state_after(filled.2, 80))
}

/// Builds a random filled grid, then empties its cells one by one in a random order,
/// keeping a removal only while the puzzle still has exactly one solution, and stops
/// once the puzzle is down to `target_clues` givens. Below 81, the puzzle either has
/// exactly `target_clues` givens or none of its givens can go.
pub fn generate(rng: &mut Rng, target_clues: usize) -> (p: Puzzle)
    ensures
        complete(p.solution.cells@),
        valid(p.solution.cells@),
        p.board.wf(),
        digits_of(p.board.cells@, p.solution.cells@),
        solutions(p.board.cells@) == set![p.solution.cells@],
        crate::model::clues(p.board.cells@) >= if target_clues <= 81 {
            target_clues as nat
        } else {
            81nat
        },
        target_clues >= 81 ==> p.board.cells@ == p.solution.cells@,
        target_clues < 81 ==> crate::model::clues(p.board.cells@) == target_clues || minimal(
            p.board.cells@,
        ),
        (p.board.cells@, p.solution.cells@, final(rng).state()) == generated(
            old(rng).state(),
            target_clues as int,
        ),
{
    let mut full = Board::empty();
    proof {
        lemma_empty_grid_solvable();
    }
    solve_random(&mut full, rng);
    let solution = full;
    let ghost sol = solution.cells@;
    proof {
        lemma_solutions_of_valid_board(empty_grid(), sol);
    }
    let mut puzzle = full;
    let mut order: Vec<usize> = Vec::new();
    let mut i: usize = 0;
    while i < 81
        invariant
            i <= 81,
            order@.len() == i,
            forall|k: int| 0 <= k < i ==> #[trigger] order@[k] == k,
        decreases 81 - i,
    {
        order.push(i);
        i += 1;
    }
    let ghost listed = order@;
    let ghost st1 = rng.state();
    proof {
        assert(listed =~= Seq::new(81, |i: int| i as usize));
    }
    proof {
        assert(listed.no_duplicates());
        listed.lemma_multiset_has_no_duplicates();
    }
    rng.shuffle(&mut order);
    proof {
        listed.to_multiset_ensures();
        order@.to_multiset_ensures();
        assert forall|x: usize| order@.to_multiset().contains(x) implies order@.to_multiset().count(x) == 1 by {
            assert(listed.to_multiset().contains(x));
        }
        order@.lemma_multiset_has_no_duplicates_conv();
        assert forall|k: int| 0 <= k < 81 implies #[trigger] order@[k] < 81 by {
            assert(order@.contains(order@[k]));
            assert(order@.to_multiset().count(order@[k]) > 0);
            assert(listed.contains(order@[k]));
        }
        assert forall|g: Seq<u8>| solutions(sol).contains(g) <==> g == sol by {
            crate::model::lemma_full_board(sol, g);
        }
        assert(solutions(sol) =~= set![sol]);
        assert forall|i: usize| i < 81 implies #[trigger] order@.contains(i) by {
            assert(listed[i as int] == i);
            assert(listed.contains(i));
            assert(listed.to_multiset().count(i) > 0);
            assert(order@.to_multiset().count(i) > 0);
        }
        lemma_zeros_bound(sol);
        crate::model::lemma_zeros_none(sol);
    }
    let mut clues: usize = 81;
    let mut k: usize = 0;
    while k < 81
        invariant
            order@.len() == 81,
            order@.no_duplicates(),
            forall|kk: int| 0 <= kk < 81 ==> #[trigger] order@[kk] < 81,
            solution.cells@ == sol,
            complete(sol),
            valid(sol),
            k <= 81,
            well_formed(puzzle.cells@),
            digits_of(puzzle.cells@, sol),
            forall|kk: int| k <= kk < 81 ==> #[trigger] puzzle.cells@[order@[kk] as int] == sol[order@[kk] as int],
            clues == crate::model::clues(puzzle.cells@),
            clues >= target_clues || (puzzle.cells@ == sol && clues == 81),
            solutions(puzzle.cells@) == set![sol],
            forall|i: usize| i < 81 ==> #[trigger] order@.contains(i),
            dig(puzzle.cells@, order@, k as int, clues as int, target_clues as int) == generated(
                old(rng).state(),
                target_clues as int,
            ).0,
            sol == generated(old(rng).state(), target_clues as int).1,
            rng.state() == generated(old(rng).state(), target_clues as int).2,
            forall|kk: int| 0 <= kk < k && puzzle.cells@[order@[kk] as int] != 0 ==> #[trigger] solutions(
                puzzle.cells@.update(order@[kk] as int, 0),
            ).len() >= 2,
        ensures
            k == 81 || clues <= target_clues,
        decreases 81 - k,
    {
        if clues <= target_clues {
            break;
        }
        let idx = order[k];
        let ghost before = puzzle.cells@;
        let saved = puzzle.cells[idx];
        puzzle.cells[idx] = 0;
        let mut test = puzzle;
        proof {
            assert(saved == sol[idx as int]);
            assert(saved != 0);
            lemma_zeros_update(before, idx as int, 0);
            lemma_zeros_bound(before.update(idx as int, 0));
            assert(puzzle.cells@ == before.update(idx as int, 0));
            assert(well_formed(puzzle.cells@));
        }
        let n = count_solutions(&mut test, 2);
        proof {
            let s2 = before.update(idx as int, 0);
            assert(s2 == before.update(order@[k as int] as int, 0));
            assert((solutions(s2).len() == 1) == (n == 1));
        }
        if n == 1 {
            proof {
                let s2 = puzzle.cells@;
                lemma_solutions_finite(s2);
                assert(is_solution(s2, sol)) by {
                    assert forall|i: int| 0 <= i < 81 && s2[i] == 0 implies #[trigger] crate::model::fits_at(sol, i) by {
                        lemma_valid_fits(sol, i);
                    }
                }
                assert(solutions(s2).contains(sol));
                assert(solutions(s2).len() == 1);
                assert(solutions(s2).remove(sol).len() == 0);
                assert(solutions(s2).remove(sol) =~= Set::<Seq<u8>>::empty());
                assert(solutions(s2) =~= set![sol]);
                assert forall|kk: int| k + 1 <= kk < 81 implies #[trigger] s2[order@[kk] as int] == sol[order@[kk] as int] by {
                    assert(order@[kk] != order@[k as int]);
                }
                assert forall|kk: int| 0 <= kk < k + 1 && s2[order@[kk] as int] != 0 implies #[trigger] solutions(
                    s2.update(order@[kk] as int, 0),
                ).len() >= 2 by {
                    let j = order@[kk] as int;
                    assert(kk != k);
                    assert(before[j] != 0);
                    assert(solutions(before.update(j, 0)).len() >= 2);
                    lemma_fewer_givens(before.update(j, 0), s2.update(j, 0), sol);
                }
            }
            clues -= 1;
        } else {
            puzzle.cells[idx] = saved;
            proof {
                assert(puzzle.cells@ =~= before);
                let s2 = before.update(idx as int, 0);
                lemma_sub_board(s2, sol);
                lemma_solutions_finite(s2);
                assert(solutions(s2).len() > 0) by {
                    assert(solutions(s2).contains(sol));
                }
                assert(solutions(s2).len() >= 2);
                assert(before.update(order@[k as int] as int, 0) == s2);
            }
        }
        k += 1;
    }
    proof {
        if target_clues < 81 && clues != target_clues {
            assert(k == 81);
            assert forall|i: int| 0 <= i < 81 && puzzle.cells@[i] != 0 implies #[trigger] solutions(
                puzzle.cells@.update(i, 0),
            ).len() >= 2 by {
                assert(order@.contains(i as usize));
                let kk = choose|kk: int| 0 <= kk < order@.len() && order@[kk] == i as usize;
                assert(puzzle.cells@[order@[kk] as int] != 0);
            }
        }
        if target_clues >= 81 && !(puzzle.cells@ == sol) {
            assert(clues >= 81);
            lemma_zeros_bound(puzzle.cells@);
            assert(zeros(puzzle.cells@) == 0);
            crate::model::lemma_zeros_none(puzzle.cells@);
            assert(puzzle.cells@ =~= sol);
        }
    }
    Puzzle { board: puzzle, solution }
}

} // verus!
