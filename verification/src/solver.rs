use vstd::prelude::*;
use crate::board::{units_below_16, Board};
use crate::rng::{shuffle_from, state_after, Rng};
use crate::model::{
    bit, bit_count, branch_cell, cand_count, cand_mask, full, is_cand_mask, is_candidate, is_solution,
    lemma_bit_complement, lemma_bit_count_bound, lemma_bit_test, lemma_bit_zero, lemma_cand_mask_unique,
    lemma_full_board, lemma_place_candidate, lemma_solution_digit_is_candidate, lemma_unit_cell,
    lemma_solutions_finite, lemma_zeros_bound, lemma_zeros_update, solutions, unit_cell, unit_of,
    well_formed, zeros,
};

verus! {

/// The digits 1..9 as bits 1..9.
pub const ALL: u16 = 0x3FE;

/// `u16::count_ones`: the number of ones in the binary representation of `x`.
#[verifier::external_body]
fn count_ones(x: u16) -> (r: u32)
    ensures
        r == bit_count(x),
{
    x.count_ones()
}

proof fn lemma_units_below_16(s: Seq<u8>, idx: int)
    requires
        well_formed(s),
        0 <= idx < 81,
    ensures
        units_below_16(s, idx),
{
    assert forall|t: int, k: int| 0 <= t < 3 && 0 <= k < 9 implies #[trigger] s[unit_cell(
        t,
        unit_of(t, idx),
        k,
    )] < 16 by {
        crate::model::lemma_cell_position(t, idx);
        lemma_unit_cell(t, unit_of(t, idx), k);
    }
}

/// The candidates of empty cell `idx` as a bitmask.
fn candidates(b: &Board, idx: usize) -> (m: u16)
    requires
        b.wf(),
        idx < 81,
    ensures
        is_cand_mask(b.cells@, idx as int, m),
        cand_count(b.cells@, idx as int) == bit_count(m),
{
    proof {
        lemma_units_below_16(b.cells@, idx as int);
    }
    let u = b.used_mask(idx);
    let m = !u & ALL;
    proof {
        assert forall|v: u16| v < 16 implies (#[trigger] bit(m, v) <==> crate::model::is_candidate(
            b.cells@,
            idx as int,
            v as int,
        )) by {
            lemma_bit_complement(u, v);
        }
        lemma_cand_mask_unique(b.cells@, idx as int, m);
    }
    m
}

/// Picks the empty cell to branch on: the first with the fewest candidates (the scan
/// stops at a cell with none). A zero mask means that cell is stuck; `None` means the
/// grid is full.
pub fn next_cell(b: &Board) -> (r: Option<(usize, u16)>)
    requires
        b.wf(),
    ensures
        r is None <==> full(b.cells@),
        r matches Some((idx, mask)) ==> branch_cell(b.cells@, idx as int) && is_cand_mask(
            b.cells@,
            idx as int,
            mask,
        ),
{
    let ghost s = b.cells@;
    let mut best: Option<(usize, u16)> = None;
    let mut best_n: u32 = 99;
    let mut idx: usize = 0;
    while idx < 81
        invariant
            s == b.cells@,
            b.wf(),
            idx <= 81,
            best is None <==> forall|j: int| 0 <= j < idx ==> #[trigger] s[j] != 0,
            best is None ==> best_n == 99,
            forall|j: int| 0 <= j < idx && s[j] == 0 ==> #[trigger] cand_count(s, j) >= 1,
            best matches Some((c, m)) ==> {
                &&& c < idx
                &&& s[c as int] == 0
                &&& is_cand_mask(s, c as int, m)
                &&& best_n == cand_count(s, c as int)
                &&& forall|j: int| 0 <= j < idx && s[j] == 0 ==> cand_count(s, c as int) <= #[trigger] cand_count(s, j)
                &&& forall|j: int| 0 <= j < c && s[j] == 0 ==> cand_count(s, c as int) < #[trigger] cand_count(s, j)
            },
        decreases 81 - idx,
    {
        if b.cells[idx] == 0 {
            let mask = candidates(b, idx);
            let n = count_ones(mask);
            proof {
                lemma_bit_count_bound(mask);
            }
            if n == 0 {
                proof {
                    crate::model::lemma_bit_count_zero(mask);
                }
                return Some((idx, 0));
            }
            if n < best_n {
                best = Some((idx, mask));
                best_n = n;
            }
        }
        idx += 1;
    }
    best
}


/// A board without empty cells has a solution: itself.
proof fn lemma_full_solved(s: Seq<u8>)
    requires
        well_formed(s),
        full(s),
    ensures
        is_solution(s, s),
{
    lemma_full_board(s, s);
}

/// When some solution exists, the mask of the branch cell offers its digit there.
proof fn lemma_branch(s: Seq<u8>, idx: int, mask: u16, g: Seq<u8>)
    requires
        well_formed(s),
        0 <= idx < 81,
        s[idx] == 0,
        is_cand_mask(s, idx, mask),
        is_solution(s, g),
    ensures
        1 <= g[idx] <= 9,
        bit(mask, g[idx] as u16),
        mask != 0,
{
    lemma_solution_digit_is_candidate(s, g, idx);
    assert(bit(mask, g[idx] as u16));
    if mask == 0 {
        lemma_bit_zero(g[idx] as u16);
    }
}

/// Fills the board by backtracking over the candidates of the most constrained cell.
/// Returns whether the board has a solution; if so the board now holds one (the first
/// the search reaches, see [`search`]), else it is left as it was.
pub fn solve(b: &mut Board) -> (r: bool)
    requires
        old(b).wf(),
    ensures
        r == exists|g: Seq<u8>| is_solution(old(b).cells@, g),
        r ==> is_solution(old(b).cells@, final(b).cells@),
        !r ==> final(b).cells@ == old(b).cells@,
        r == search(old(b).cells@).0,
        final(b).cells@ == search(old(b).cells@).1,
    decreases zeros(old(b).cells@),
{
    let ghost s = b.cells@;
    match next_cell(b) {
        None => {
            proof {
                lemma_full_solved(s);
            }
            true
        },
        Some((idx, mask)) => {
            if mask == 0 {
                proof {
                    if exists|g: Seq<u8>| is_solution(s, g) {
                        let g = choose|g: Seq<u8>| is_solution(s, g);
                        lemma_branch(s, idx as int, mask, g);
                    }
                    lemma_search_start(s, idx as int, mask);
                    assert forall|w: u16| 1 <= w <= 9 implies !#[trigger] bit(mask, w) by {
                        lemma_bit_zero(w);
                    }
                    lemma_search_from_none(s, idx as int, mask, 1);
                    lemma_search_trace(s);
                }
                return false;
            }
            proof {
                lemma_search_start(s, idx as int, mask);
            }
            let mut v: u8 = 1;
            while v <= 9
                invariant
                    b.cells@ == s,
                    s == old(b).cells@,
                    well_formed(s),
                    idx < 81,
                    s[idx as int] == 0,
                    is_cand_mask(s, idx as int, mask),
                    1 <= v <= 10,
                    forall|g: Seq<u8>| #[trigger] is_solution(s, g) ==> g[idx as int] >= v,
                    search(s).0 == search_from(s, idx as int, mask, v as int).0,
                    search(s).1 == search_from(s, idx as int, mask, v as int).1,
                decreases 10 - v,
            {
                proof {
                    lemma_bit_test(mask, v as u16);
                }
                if mask & (1u16 << v) != 0 {
                    b.cells[idx] = v;
                    proof {
                        assert(b.cells@ == s.update(idx as int, v));
                        lemma_zeros_update(s, idx as int, v);
                    }
                    if solve(b) {
                        proof {
                            lemma_place_candidate(s, idx as int, v, b.cells@);
                            assert(is_solution(s, b.cells@));
                        }
                        return true;
                    }
                    b.cells[idx] = 0;
                    proof {
                        assert(b.cells@ =~= s);
                        assert forall|g: Seq<u8>| #[trigger] is_solution(s, g) implies g[idx as int] >= v + 1 by {
                            lemma_place_candidate(s, idx as int, v, g);
                        }
                    }
                } else {
                    proof {
                        assert forall|g: Seq<u8>| #[trigger] is_solution(s, g) implies g[idx as int] >= v + 1 by {
                            lemma_branch(s, idx as int, mask, g);
                        }
                    }
                }
                v += 1;
            }
            proof {
                if exists|g: Seq<u8>| is_solution(s, g) {
                    let g = choose|g: Seq<u8>| is_solution(s, g);
                    lemma_branch(s, idx as int, mask, g);
                }
            }
            false
        },
    }
}


/// The solutions of `s` that hold a digit below `v` in cell `idx`.
pub open spec fn solutions_below(s: Seq<u8>, idx: int, v: int) -> Set<Seq<u8>> {
    Set::new(|g: Seq<u8>| is_solution(s, g) && g[idx] < v)
}

proof fn lemma_below_step(s: Seq<u8>, idx: int, mask: u16, v: u8)
    requires
        well_formed(s),
        0 <= idx < 81,
        s[idx] == 0,
        is_cand_mask(s, idx, mask),
        1 <= v <= 9,
    ensures
        solutions_below(s, idx, v as int).finite(),
        bit(mask, v as u16) ==> solutions_below(s, idx, v + 1).len() == solutions_below(
            s,
            idx,
            v as int,
        ).len() + solutions(s.update(idx, v)).len(),
        !bit(mask, v as u16) ==> solutions_below(s, idx, v + 1) == solutions_below(s, idx, v as int),
        solutions_below(s, idx, v + 1).len() <= solutions(s).len(),
{
    lemma_solutions_finite(s);
    let lo = solutions_below(s, idx, v as int);
    let hi = solutions_below(s, idx, v + 1);
    let here = Set::new(|g: Seq<u8>| is_solution(s, g) && g[idx] == v);
    assert(lo.subset_of(solutions(s)));
    assert(hi.subset_of(solutions(s)));
    assert(here.subset_of(solutions(s)));
    vstd::set_lib::lemma_set_subset_finite(solutions(s), lo);
    vstd::set_lib::lemma_set_subset_finite(solutions(s), hi);
    vstd::set_lib::lemma_set_subset_finite(solutions(s), here);
    vstd::set_lib::lemma_len_subset(hi, solutions(s));
    assert(hi =~= lo.union(here));
    assert(lo.disjoint(here));
    vstd::set_lib::lemma_set_disjoint_lens(lo, here);
    if bit(mask, v as u16) {
        assert forall|g: Seq<u8>| here.contains(g) <==> solutions(s.update(idx, v)).contains(g) by {
            lemma_place_candidate(s, idx, v, g);
        }
        assert(here =~= solutions(s.update(idx, v)));
    } else {
        assert forall|g: Seq<u8>| !here.contains(g) by {
            if is_solution(s, g) {
                lemma_branch(s, idx, mask, g);
            }
        }
        assert(hi =~= lo);
    }
}

/// Counts the solutions of the board up to `limit`: the result is the number of
/// solutions, or `limit` when there are at least that many. The board is left as it was.
pub fn count_solutions(b: &mut Board, limit: usize) -> (r: usize)
    requires
        old(b).wf(),
    ensures
        final(b).cells@ == old(b).cells@,
        r == if solutions(old(b).cells@).len() < limit {
            solutions(old(b).cells@).len()
        } else {
            limit as nat
        },
    decreases zeros(old(b).cells@),
{
    let ghost s = b.cells@;
    proof {
        lemma_solutions_finite(s);
    }
    match next_cell(b) {
        None => {
            proof {
                assert forall|g: Seq<u8>| solutions(s).contains(g) <==> g == s by {
                    lemma_full_board(s, g);
                }
                assert(solutions(s) =~= set![s]);
            }
            if limit < 1 {
                limit
            } else {
                1
            }
        },
        Some((idx, mask)) => {
            if mask == 0 {
                proof {
                    assert forall|g: Seq<u8>| !solutions(s).contains(g) by {
                        if is_solution(s, g) {
                            lemma_branch(s, idx as int, mask, g);
                        }
                    }
                    assert(solutions(s) =~= Set::<Seq<u8>>::empty());
                }
                return 0;
            }
            if limit == 0 {
                return 0;
            }
            let mut total: usize = 0;
            let mut v: u8 = 1;
            proof {
                assert(solutions_below(s, idx as int, 1) =~= Set::<Seq<u8>>::empty()) by {
                    assert forall|g: Seq<u8>| !solutions_below(s, idx as int, 1).contains(g) by {
                        if is_solution(s, g) {
                            lemma_branch(s, idx as int, mask, g);
                        }
                    }
                }
            }
            while v <= 9
                invariant
                    b.cells@ == s,
                    s == old(b).cells@,
                    well_formed(s),
                    idx < 81,
                    s[idx as int] == 0,
                    is_cand_mask(s, idx as int, mask),
                    1 <= v <= 10,
                    solutions(s).finite(),
                    total < limit,
                    total == solutions_below(s, idx as int, v as int).len(),
                decreases 10 - v,
            {
                proof {
                    lemma_bit_test(mask, v as u16);
                    lemma_below_step(s, idx as int, mask, v);
                }
                if mask & (1u16 << v) != 0 {
                    b.cells[idx] = v;
                    proof {
                        assert(b.cells@ == s.update(idx as int, v));
                        lemma_zeros_update(s, idx as int, v);
                    }
                    let sub = count_solutions(b, limit);
                    b.cells[idx] = 0;
                    proof {
                        assert(b.cells@ =~= s);
                    }
                    if sub >= limit - total {
                        return limit;
                    }
                    total += sub;
                }
                v += 1;
            }
            proof {
                assert(solutions_below(s, idx as int, 10) =~= solutions(s));
            }
            total
        },
    }
}

/// A board has a solution exactly when it counts at least one: `solve` succeeds exactly
/// when `count_solutions` with a positive limit returns a positive count.
pub proof fn lemma_count_positive_iff_solvable(b: Seq<u8>)
    ensures
        solutions(b).len() > 0 <==> exists|g: Seq<u8>| is_solution(b, g),
{
    lemma_solutions_finite(b);
    if exists|g: Seq<u8>| is_solution(b, g) {
        let g = choose|g: Seq<u8>| is_solution(b, g);
        assert(solutions(b).contains(g));
    } else {
        assert(solutions(b) =~= Set::<Seq<u8>>::empty());
    }
}

/// A board with exactly one solution: whatever solution a search finds is that one.
pub proof fn lemma_unique_solution(b: Seq<u8>, g: Seq<u8>, h: Seq<u8>)
    requires
        solutions(b) == set![g],
        is_solution(b, h),
    ensures
        h == g,
{
    assert(solutions(b).contains(h));
}


/// The candidates of a cell, in increasing order.
fn candidate_list(mask: u16) -> (vals: Vec<u8>)
    ensures
        vals@ == cand_list(mask, 9),
        forall|k: int| 0 <= k < vals@.len() ==> 1 <= #[trigger] vals@[k] <= 9 && bit(
            mask,
            vals@[k] as u16,
        ),
        forall|w: u8| 1 <= w <= 9 && bit(mask, w as u16) ==> #[trigger] vals@.contains(w),
{
    let mut vals: Vec<u8> = Vec::new();
    let mut v: u8 = 1;
    while v <= 9
        invariant
            1 <= v <= 10,
            forall|k: int| 0 <= k < vals@.len() ==> 1 <= #[trigger] vals@[k] <= 9 && bit(
                mask,
                vals@[k] as u16,
            ),
            forall|w: u8| 1 <= w < v && bit(mask, w as u16) ==> #[trigger] vals@.contains(w),
            vals@ == cand_list(mask, v - 1),
        decreases 10 - v,
    {
        proof {
            lemma_bit_test(mask, v as u16);
            if bit(mask, v as u16) {
                assert(cand_list(mask, v as int) =~= cand_list(mask, v - 1).push(v));
            } else {
                assert(cand_list(mask, v as int) =~= cand_list(mask, v - 1));
            }
        }
        if mask & (1u16 << v) != 0 {
            let ghost before = vals@;
            vals.push(v);
            proof {
                assert(vals@[vals@.len() - 1] == v);
                assert forall|w: u8| 1 <= w < v + 1 && bit(mask, w as u16) implies #[trigger] vals@.contains(w) by {
                    if w < v {
                        assert(before.contains(w));
                        let k = choose|k: int| 0 <= k < before.len() && before[k] == w;
                        assert(vals@[k] == w);
                    }
                }
            }
        }
        v += 1;
    }
    vals
}

/// Like [`solve`], but tries the candidates of each cell in an order drawn from `rng`,
/// so that it finds a different solution from one seed to the next.
pub fn solve_random(b: &mut Board, rng: &mut Rng) -> (r: bool)
    requires
        old(b).wf(),
    ensures
        r == exists|g: Seq<u8>| is_solution(old(b).cells@, g),
        r ==> is_solution(old(b).cells@, final(b).cells@),
        !r ==> final(b).cells@ == old(b).cells@,
        (r, final(b).cells@, final(rng).state()) == random_search(old(b).cells@, old(rng).state()),
    decreases zeros(old(b).cells@),
{
    let ghost s = b.cells@;
    let ghost st0 = rng.state();
    match next_cell(b) {
        None => {
            proof {
                lemma_full_solved(s);
            }
            true
        },
        Some((idx, mask)) => {
            if mask == 0 {
                proof {
                    if exists|g: Seq<u8>| is_solution(s, g) {
                        let g = choose|g: Seq<u8>| is_solution(s, g);
                        lemma_branch(s, idx as int, mask, g);
                    }
                    assert(branch_cell(s, branch_of(s)));
                    lemma_branch_cell_unique(s, idx as int, branch_of(s));
                    lemma_cand_mask_unique(s, idx as int, mask);
                    assert forall|w: u16| 1 <= w <= 9 implies !#[trigger] bit(mask, w) by {
                        lemma_bit_zero(w);
                    }
                    lemma_cand_list_none(mask, 9);
                }
                return false;
            }
            let mut vals = candidate_list(mask);
            let ghost listed = vals@;
            rng.shuffle(&mut vals);
            proof {
                assert(branch_cell(s, branch_of(s)));
                lemma_branch_cell_unique(s, idx as int, branch_of(s));
                lemma_cand_mask_unique(s, idx as int, mask);
                lemma_cand_list_len(mask, 9);
                listed.to_multiset_ensures();
                vals@.to_multiset_ensures();
                assert forall|k: int| 0 <= k < vals@.len() implies 1 <= #[trigger] vals@[k] <= 9 && bit(
                    mask,
                    vals@[k] as u16,
                ) by {
                    assert(vals@.contains(vals@[k]));
                    assert(vals@.to_multiset().count(vals@[k]) > 0);
                    assert(listed.to_multiset().count(vals@[k]) > 0);
                    assert(listed.contains(vals@[k]));
                    let kk = choose|kk: int| 0 <= kk < listed.len() && listed[kk] == vals@[k];
                    assert(1 <= listed[kk] <= 9);
                }
                assert forall|w: u8| 1 <= w <= 9 && bit(mask, w as u16) implies #[trigger] vals@.contains(w) by {
                    assert(listed.contains(w));
                    assert(listed.to_multiset().count(w) > 0);
                    assert(vals@.to_multiset().count(w) > 0);
                }
            }
            let n = vals.len();
            let mut k: usize = 0;
            while k < n
                invariant
                    b.cells@ == s,
                    s == old(b).cells@,
                    well_formed(s),
                    idx < 81,
                    s[idx as int] == 0,
                    is_cand_mask(s, idx as int, mask),
                    n == vals@.len(),
                    k <= n,
                    forall|kk: int| 0 <= kk < vals@.len() ==> 1 <= #[trigger] vals@[kk] <= 9 && bit(
                        mask,
                        vals@[kk] as u16,
                    ),
                    forall|w: u8| 1 <= w <= 9 && bit(mask, w as u16) ==> #[trigger] vals@.contains(w),
                    forall|g: Seq<u8>, kk: int| #[trigger] is_solution(s, g) && 0 <= kk < k ==> g[idx as int] != #[trigger] vals@[kk],
                    n <= 9,
                    random_search(s, st0) == random_search_from(s, idx as int, vals@, k as int, rng.state()),
                    st0 == old(rng).state(),
                decreases n - k,
            {
                let v = vals[k];
                b.cells[idx] = v;
                proof {
                    assert(b.cells@ == s.update(idx as int, v));
                    lemma_zeros_update(s, idx as int, v);
                }
                let ghost st_before = rng.state();
                if solve_random(b, rng) {
                    proof {
                        assert(random_search_from(s, idx as int, vals@, k as int, st_before)
                            == random_search(s.update(idx as int, v), st_before));
                        lemma_place_candidate(s, idx as int, v, b.cells@);
                        assert(is_solution(s, b.cells@));
                    }
                    return true;
                }
                b.cells[idx] = 0;
                proof {
                    assert(b.cells@ =~= s);
                    assert forall|g: Seq<u8>, kk: int| #[trigger] is_solution(s, g) && 0 <= kk < k + 1 implies g[idx as int] != #[trigger] vals@[kk] by {
                        if kk == k {
                            lemma_place_candidate(s, idx as int, v, g);
                        }
                    }
                }
                k += 1;
            }
            proof {
                if exists|g: Seq<u8>| is_solution(s, g) {
                    let g = choose|g: Seq<u8>| is_solution(s, g);
                    lemma_branch(s, idx as int, mask, g);
                    assert(vals@.contains(g[idx as int]));
                    let kk = choose|kk: int| 0 <= kk < vals@.len() && vals@[kk] == g[idx as int];
                    assert(g[idx as int] != vals@[kk]);
                }
            }
            false
        },
    }
}

/// One move of the search: a digit written into a cell, or a cell emptied again
/// when the search backs out of it.
#[derive(Clone, Copy, PartialEq, Eq, Debug)]
pub enum Step {
    Place(usize, u8),
    Erase(usize),
}

pub open spec fn apply_step(s: Seq<u8>, st: Step) -> Seq<u8> {
    match st {
        Step::Place(i, v) => s.update(i as int, v),
        Step::Erase(i) => s.update(i as int, 0),
    }
}

/// The board reached from `s` by applying `steps` in order.
pub open spec fn replay(s: Seq<u8>, steps: Seq<Step>) -> Seq<u8>
    decreases steps.len(),
{
    if steps.len() == 0 {
        s
    } else {
        apply_step(replay(s, steps.drop_last()), steps.last())
    }
}

/// Every step names a cell, and every placement a digit.
pub open spec fn steps_in_range(steps: Seq<Step>) -> bool {
    forall|k: int|
        0 <= k < steps.len() ==> match #[trigger] steps[k] {
            Step::Place(i, v) => i < 81 && 1 <= v <= 9,
            Step::Erase(i) => i < 81,
        }
}

pub proof fn lemma_replay_append(s: Seq<u8>, a: Seq<Step>, b: Seq<Step>)
    ensures
        replay(s, a + b) == replay(replay(s, a), b),
    decreases b.len(),
{
    if b.len() == 0 {
        assert(a + b =~= a);
    } else {
        assert((a + b).drop_last() =~= a + b.drop_last());
        lemma_replay_append(s, a, b.drop_last());
    }
}

proof fn lemma_replay_push(s: Seq<u8>, a: Seq<Step>, st: Step)
    ensures
        replay(s, a.push(st)) == apply_step(replay(s, a), st),
{
    assert(a.push(st).drop_last() =~= a);
}

/// [`solve`], recording each placement and each backtrack in `steps`: replaying the
/// recorded steps on the starting board gives the final board, every placement goes
/// into an empty cell and every backtrack empties a filled one.
#[verifier::rlimit(40)]
pub fn solve_trace(b: &mut Board, steps: &mut Vec<Step>) -> (r: bool)
    requires
        old(b).wf(),
    ensures
        r == exists|g: Seq<u8>| is_solution(old(b).cells@, g),
        r ==> is_solution(old(b).cells@, final(b).cells@),
        !r ==> final(b).cells@ == old(b).cells@,
        final(steps)@.len() >= old(steps)@.len(),
        final(steps)@.take(old(steps)@.len() as int) == old(steps)@,
        replay(old(b).cells@, final(steps)@.skip(old(steps)@.len() as int)) == final(b).cells@,
        steps_in_range(final(steps)@.skip(old(steps)@.len() as int)),
        (r, final(b).cells@, final(steps)@.skip(old(steps)@.len() as int)) == search(old(b).cells@),
        sound_trace(old(b).cells@, final(steps)@.skip(old(steps)@.len() as int)),
    decreases zeros(old(b).cells@),
{
    let ghost s = b.cells@;
    let ghost st0 = steps@;
    match next_cell(b) {
        None => {
            proof {
                lemma_full_solved(s);
                lemma_search_trace(s);
                assert(steps@.skip(st0.len() as int) =~= Seq::<Step>::empty());
                assert(steps@.take(st0.len() as int) =~= st0);
            }
            true
        },
        Some((idx, mask)) => {
            if mask == 0 {
                proof {
                    if exists|g: Seq<u8>| is_solution(s, g) {
                        let g = choose|g: Seq<u8>| is_solution(s, g);
                        lemma_branch(s, idx as int, mask, g);
                    }
                    assert(steps@.skip(st0.len() as int) =~= Seq::<Step>::empty());
                    assert(steps@.take(st0.len() as int) =~= st0);
                    lemma_search_start(s, idx as int, mask);
                    assert forall|w: u16| 1 <= w <= 9 implies !#[trigger] bit(mask, w) by {
                        lemma_bit_zero(w);
                    }
                    lemma_search_from_none(s, idx as int, mask, 1);
                    lemma_search_trace(s);
                }
                return false;
            }
            proof {
                lemma_search_start(s, idx as int, mask);
                assert(steps@.skip(st0.len() as int) =~= Seq::<Step>::empty());
                let t = search_from(s, idx as int, mask, 1);
                assert(Seq::<Step>::empty() + t.2 =~= t.2);
            }
            let mut v: u8 = 1;
            while v <= 9
                invariant
                    b.cells@ == s,
                    s == old(b).cells@,
                    st0 == old(steps)@,
                    well_formed(s),
                    idx < 81,
                    s[idx as int] == 0,
                    is_cand_mask(s, idx as int, mask),
                    1 <= v <= 10,
                    forall|g: Seq<u8>| #[trigger] is_solution(s, g) ==> g[idx as int] >= v,
                    steps@.len() >= st0.len(),
                    steps@.take(st0.len() as int) == st0,
                    replay(s, steps@.skip(st0.len() as int)) == s,
                    steps_in_range(steps@.skip(st0.len() as int)),
                    ({
                        let t = search_from(s, idx as int, mask, v as int);
                        search(s) == (t.0, t.1, steps@.skip(st0.len() as int) + t.2)
                    }),
                decreases 10 - v,
            {
                proof {
                    lemma_bit_test(mask, v as u16);
                }
                if mask & (1u16 << v) != 0 {
                    let ghost added = steps@.skip(st0.len() as int);
                    b.cells[idx] = v;
                    steps.push(Step::Place(idx, v));
                    let ghost s1 = b.cells@;
                    let ghost steps1 = steps@;
                    proof {
                        assert(s1 == s.update(idx as int, v));
                        lemma_zeros_update(s, idx as int, v);
                        assert(steps1.skip(st0.len() as int) =~= added.push(Step::Place(idx, v)));
                        lemma_replay_push(s, added, Step::Place(idx, v));
                    }
                    let found = solve_trace(b, steps);
                    proof {
                        let more = steps@.skip(steps1.len() as int);
                        assert(steps@.skip(st0.len() as int) =~= added.push(Step::Place(idx, v)) + more);
                        lemma_replay_append(s, added.push(Step::Place(idx, v)), more);
                        assert(steps@.take(st0.len() as int) =~= st0) by {
                            assert(steps@.take(steps1.len() as int) == steps1);
                        }
                        assert forall|k: int| 0 <= k < steps@.skip(st0.len() as int).len() implies match #[trigger] steps@.skip(st0.len() as int)[k] {
                            Step::Place(i, w) => i < 81 && 1 <= w <= 9,
                            Step::Erase(i) => i < 81,
                        } by {
                            let all = steps@.skip(st0.len() as int);
                            if k < added.len() {
                                assert(all[k] == added[k]);
                            } else if k == added.len() {
                                assert(all[k] == Step::Place(idx, v));
                            } else {
                                assert(all[k] == more[k - added.len() - 1]);
                            }
                        }
                    }
                    if found {
                        proof {
                            lemma_place_candidate(s, idx as int, v, b.cells@);
                            assert(is_solution(s, b.cells@));
                            let more = steps@.skip(steps1.len() as int);
                            assert(added + (seq![Step::Place(idx, v)] + more) =~= steps@.skip(st0.len() as int));
                            lemma_search_trace(s);
                        }
                        return true;
                    }
                    let ghost steps2 = steps@;
                    b.cells[idx] = 0;
                    steps.push(Step::Erase(idx));
                    proof {
                        assert(b.cells@ =~= s);
                        let all2 = steps2.skip(st0.len() as int);
                        assert(steps@.skip(st0.len() as int) =~= all2.push(Step::Erase(idx)));
                        lemma_replay_push(s, all2, Step::Erase(idx));
                        assert(s1.update(idx as int, 0) =~= s);
                        assert(steps@.take(st0.len() as int) =~= st0) by {
                            assert(steps2.take(st0.len() as int) == st0);
                        }
                        assert forall|k: int| 0 <= k < steps@.skip(st0.len() as int).len() implies match #[trigger] steps@.skip(st0.len() as int)[k] {
                            Step::Place(i, w) => i < 81 && 1 <= w <= 9,
                            Step::Erase(i) => i < 81,
                        } by {
                            if k < all2.len() {
                                assert(steps@.skip(st0.len() as int)[k] == all2[k]);
                            }
                        }
                        assert forall|g: Seq<u8>| #[trigger] is_solution(s, g) implies g[idx as int] >= v + 1 by {
                            lemma_place_candidate(s, idx as int, v, g);
                        }
                        let more = steps2.skip(steps1.len() as int);
                        let rest = search_from(s, idx as int, mask, v + 1);
                        assert(added + ((seq![Step::Place(idx, v)] + more).push(Step::Erase(idx)) + rest.2)
                            =~= steps@.skip(st0.len() as int) + rest.2);
                    }
                } else {
                    proof {
                        assert forall|g: Seq<u8>| #[trigger] is_solution(s, g) implies g[idx as int] >= v + 1 by {
                            lemma_branch(s, idx as int, mask, g);
                        }
                    }
                }
                v += 1;
            }
            proof {
                if exists|g: Seq<u8>| is_solution(s, g) {
                    let g = choose|g: Seq<u8>| is_solution(s, g);
                    lemma_branch(s, idx as int, mask, g);
                }
                assert(steps@.skip(st0.len() as int) + Seq::<Step>::empty() =~= steps@.skip(st0.len() as int));
                lemma_search_trace(s);
            }
            false
        },
    }
}

} // verus!

verus! {

/// At most one cell is the branch cell.
pub proof fn lemma_branch_cell_unique(s: Seq<u8>, i: int, j: int)
    requires
        branch_cell(s, i),
        branch_cell(s, j),
    ensures
        i == j,
{
    if i < j {
        assert(cand_count(s, j) < cand_count(s, i));
    } else if j < i {
        assert(cand_count(s, i) < cand_count(s, j));
    }
}

/// The cell the search branches on.
pub open spec fn branch_of(s: Seq<u8>) -> int {
    choose|i: int| branch_cell(s, i)
}

/// The search on board `s`: whether it succeeds, the board it ends with, and the
/// steps it takes. On a full board it succeeds at once; otherwise it tries the
/// candidates of the branch cell in increasing order.
pub open spec fn search(s: Seq<u8>) -> (bool, Seq<u8>, Seq<Step>)
    decreases zeros(s), 11int,
{
    if full(s) {
        (true, s, Seq::empty())
    } else {
        let idx = branch_of(s);
        search_from(s, idx, cand_mask(s, idx), 1)
    }
}

/// The search on `s` from digit `v` on, in cell `idx` whose candidates are `mask`.
pub open spec fn search_from(s: Seq<u8>, idx: int, mask: u16, v: int) -> (
    bool,
    Seq<u8>,
    Seq<Step>,
)
    decreases zeros(s), 10 - v,
{
    if v < 1 || v > 9 || !(0 <= idx < s.len() && s[idx] == 0) {
        (false, s, Seq::empty())
    } else if bit(mask, v as u16) {
        proof {
            lemma_zeros_update(s, idx, v as u8);
        }
        let inner = search(s.update(idx, v as u8));
        let tried = seq![Step::Place(idx as usize, v as u8)] + inner.2;
        if inner.0 {
            (true, inner.1, tried)
        } else {
            let rest = search_from(s, idx, mask, v + 1);
            (rest.0, rest.1, tried.push(Step::Erase(idx as usize)) + rest.2)
        }
    } else {
        search_from(s, idx, mask, v + 1)
    }
}


/// With no candidate left from `v` on, the search from `v` fails at once.
pub proof fn lemma_search_from_none(s: Seq<u8>, idx: int, mask: u16, v: int)
    requires
        forall|w: u16| v <= w <= 9 ==> !#[trigger] bit(mask, w),
    ensures
        search_from(s, idx, mask, v) == (false, s, Seq::<Step>::empty()),
    decreases 10 - v,
{
    if 1 <= v <= 9 && 0 <= idx < s.len() && s[idx] == 0 {
        assert(!bit(mask, v as u16));
        lemma_search_from_none(s, idx, mask, v + 1);
    }
}

/// Where the search starts on a board that is not full: the branch cell and its
/// candidates.
pub proof fn lemma_search_start(s: Seq<u8>, idx: int, mask: u16)
    requires
        !full(s),
        branch_cell(s, idx),
        is_cand_mask(s, idx, mask),
    ensures
        search(s) == search_from(s, idx, mask, 1),
{
    assert(branch_cell(s, branch_of(s)));
    lemma_branch_cell_unique(s, idx, branch_of(s));
    lemma_cand_mask_unique(s, idx, mask);
}


/// The candidates among 1..=`v` that `mask` marks, in increasing order.
pub open spec fn cand_list(mask: u16, v: int) -> Seq<u8>
    decreases v,
{
    if v <= 0 {
        Seq::empty()
    } else {
        cand_list(mask, v - 1) + if bit(mask, v as u16) {
            seq![v as u8]
        } else {
            Seq::<u8>::empty()
        }
    }
}

pub proof fn lemma_cand_list_len(mask: u16, v: int)
    ensures
        cand_list(mask, v).len() <= if v < 0 {
            0
        } else {
            v
        },
    decreases v,
{
    if v > 0 {
        lemma_cand_list_len(mask, v - 1);
    }
}

/// The randomised search on board `s` with generator state `st`: whether it
/// succeeds, the board it ends with and the generator state afterwards. At the branch
/// cell it shuffles the candidates (in increasing order) with the generator, then
/// tries them in that order.
pub open spec fn random_search(s: Seq<u8>, st: u64) -> (bool, Seq<u8>, u64)
    decreases zeros(s), 11int,
{
    if full(s) {
        (true, s, st)
    } else {
        let idx = branch_of(s);
        let list = cand_list(cand_mask(s, idx), 9);
        let n = list.len();
        let vals = shuffle_from(list, st, n - 1);
        let st1 = state_after(
            st,
            if n == 0 {
                0
            } else {
                (n - 1) as nat
            },
        );
        random_search_from(s, idx, vals, 0, st1)
    }
}

/// The randomised search on `s` trying `vals[k..]` in cell `idx`.
pub open spec fn random_search_from(s: Seq<u8>, idx: int, vals: Seq<u8>, k: int, st: u64) -> (
    bool,
    Seq<u8>,
    u64,
)
    decreases zeros(s), 10 - k,
{
    if k < 0 || k > 9 || k >= vals.len() || !(0 <= idx < s.len() && s[idx] == 0) || vals[k] == 0 {
        (false, s, st)
    } else {
        proof {
            lemma_zeros_update(s, idx, vals[k]);
        }
        let inner = random_search(s.update(idx, vals[k]), st);
        if inner.0 {
            inner
        } else {
            random_search_from(s, idx, vals, k + 1, inner.2)
        }
    }
}


proof fn lemma_cand_list_none(mask: u16, v: int)
    requires
        forall|w: u16| 1 <= w <= 9 ==> !#[trigger] bit(mask, w),
        v <= 9,
    ensures
        cand_list(mask, v) == Seq::<u8>::empty(),
    decreases v,
{
    if v > 0 {
        lemma_cand_list_none(mask, v - 1);
        assert(!bit(mask, v as u16));
        assert(cand_list(mask, v) =~= Seq::<u8>::empty());
    }
}


/// Each step of `t`, replayed from `s`, acts on a real cell and makes sense where it
/// stands: a digit 1..9 is placed only into an empty cell, and only a filled cell is
/// emptied (a backtrack undoes a placement).
pub open spec fn sound_trace(s: Seq<u8>, t: Seq<Step>) -> bool {
    forall|k: int|
        0 <= k < t.len() ==> match #[trigger] t[k] {
            Step::Place(i, v) => i < 81 && 1 <= v <= 9 && replay(s, t.take(k))[i as int] == 0,
            Step::Erase(i) => i < 81 && replay(s, t.take(k))[i as int] != 0,
        }
}

proof fn lemma_sound_trace_append(s: Seq<u8>, a: Seq<Step>, b: Seq<Step>)
    requires
        sound_trace(s, a),
        sound_trace(replay(s, a), b),
    ensures
        sound_trace(s, a + b),
{
    let t = a + b;
    assert forall|k: int| 0 <= k < t.len() implies match #[trigger] t[k] {
        Step::Place(i, v) => i < 81 && 1 <= v <= 9 && replay(s, t.take(k))[i as int] == 0,
        Step::Erase(i) => i < 81 && replay(s, t.take(k))[i as int] != 0,
    } by {
        if k < a.len() {
            assert(t.take(k) =~= a.take(k));
            assert(t[k] == a[k]);
        } else {
            let k2 = k - a.len();
            assert(t.take(k) =~= a + b.take(k2));
            lemma_replay_append(s, a, b.take(k2));
            assert(t[k] == b[k2]);
        }
    }
}

proof fn lemma_sound_single(s: Seq<u8>, st: Step)
    requires
        match st {
            Step::Place(i, v) => i < 81 && 1 <= v <= 9 && s[i as int] == 0,
            Step::Erase(i) => i < 81 && s[i as int] != 0,
        },
    ensures
        sound_trace(s, seq![st]),
        replay(s, seq![st]) == apply_step(s, st),
{
    assert(seq![st].take(0) =~= Seq::<Step>::empty());
    assert(seq![st].drop_last() =~= Seq::<Step>::empty());
}

/// The search's trace is sound and replays from `s` to the board it ends with; a
/// failed search ends where it started.
pub proof fn lemma_search_trace(s: Seq<u8>)
    requires
        well_formed(s),
    ensures
        sound_trace(s, search(s).2),
        replay(s, search(s).2) == search(s).1,
        !search(s).0 ==> search(s).1 == s,
    decreases zeros(s), 11int,
{
    if full(s) {
        assert(sound_trace(s, Seq::<Step>::empty()));
    } else {
        let idx = branch_of(s);
        lemma_search_from_trace(s, idx, cand_mask(s, idx), 1);
    }
}

/// [`lemma_search_trace`] for the search from digit `v` on in cell `idx`.
pub proof fn lemma_search_from_trace(s: Seq<u8>, idx: int, mask: u16, v: int)
    requires
        well_formed(s),
    ensures
        sound_trace(s, search_from(s, idx, mask, v).2),
        replay(s, search_from(s, idx, mask, v).2) == search_from(s, idx, mask, v).1,
        !search_from(s, idx, mask, v).0 ==> search_from(s, idx, mask, v).1 == s,
    decreases zeros(s), 10 - v,
{
    if v < 1 || v > 9 || !(0 <= idx < s.len() && s[idx] == 0) {
        assert(sound_trace(s, Seq::<Step>::empty()));
    } else if bit(mask, v as u16) {
        lemma_zeros_update(s, idx, v as u8);
        let s1 = s.update(idx, v as u8);
        assert(well_formed(s1));
        lemma_search_trace(s1);
        let inner = search(s1);
        let p = Step::Place(idx as usize, v as u8);
        lemma_sound_single(s, p);
        lemma_sound_trace_append(s, seq![p], inner.2);
        lemma_replay_append(s, seq![p], inner.2);
        let tried = seq![p] + inner.2;
        if !inner.0 {
            assert(inner.1 == s1);
            let e = Step::Erase(idx as usize);
            lemma_sound_single(s1, e);
            lemma_sound_trace_append(s, tried, seq![e]);
            lemma_replay_append(s, tried, seq![e]);
            assert(tried + seq![e] =~= tried.push(e));
            assert(s1.update(idx, 0) =~= s);
            lemma_search_from_trace(s, idx, mask, v + 1);
            let rest = search_from(s, idx, mask, v + 1);
            lemma_sound_trace_append(s, tried.push(e), rest.2);
            lemma_replay_append(s, tried.push(e), rest.2);
        }
    } else {
        lemma_search_from_trace(s, idx, mask, v + 1);
    }
}

/// How many placements `steps` holds.
pub open spec fn places(steps: Seq<Step>) -> nat
    decreases steps.len(),
{
    if steps.len() == 0 {
        0
    } else {
        places(steps.drop_last()) + if steps.last() is Place {
            1nat
        } else {
            0nat
        }
    }
}

/// How many backtracks `steps` holds.
pub open spec fn erases(steps: Seq<Step>) -> nat
    decreases steps.len(),
{
    if steps.len() == 0 {
        0
    } else {
        erases(steps.drop_last()) + if steps.last() is Erase {
            1nat
        } else {
            0nat
        }
    }
}

/// Along a sound trace every placement fills one empty cell and every backtrack empties
/// one: the empty cells at the start plus the backtracks equal the empty cells at the
/// end plus the placements.
pub proof fn lemma_sound_trace_balance(s: Seq<u8>, t: Seq<Step>)
    requires
        well_formed(s),
        sound_trace(s, t),
    ensures
        zeros(s) + erases(t) == zeros(replay(s, t)) + places(t),
        replay(s, t).len() == 81,
    decreases t.len(),
{
    if t.len() > 0 {
        let d = t.drop_last();
        assert forall|k: int| 0 <= k < d.len() implies match #[trigger] d[k] {
            Step::Place(i, v) => i < 81 && 1 <= v <= 9 && replay(s, d.take(k))[i as int] == 0,
            Step::Erase(i) => i < 81 && replay(s, d.take(k))[i as int] != 0,
        } by {
            assert(d.take(k) =~= t.take(k));
            assert(d[k] == t[k]);
        }
        lemma_sound_trace_balance(s, d);
        let k = t.len() - 1;
        assert(t.take(k) =~= d);
        let r = replay(s, d);
        match t[k] {
            Step::Place(i, v) => {
                lemma_zeros_update(r, i as int, v);
            },
            Step::Erase(i) => {
                lemma_zeros_update(r, i as int, 0);
            },
        }
    }
}

/// A failed search backtracks every placement it makes.
pub proof fn lemma_failed_search_backtracks_all(s: Seq<u8>)
    requires
        well_formed(s),
        !search(s).0,
    ensures
        erases(search(s).2) == places(search(s).2),
{
    lemma_search_trace(s);
    lemma_sound_trace_balance(s, search(s).2);
}

} // verus!
