use vstd::prelude::*;

verus! {

/// The index (row-major, 0..81) of the `k`-th cell of unit `u` of kind `t`,
/// where kind 0 is a row, kind 1 a column and kind 2 a 3x3 box.
pub open spec fn unit_cell(t: int, u: int, k: int) -> int {
    if t == 0 {
        u * 9 + k
    } else if t == 1 {
        k * 9 + u
    } else {
        (u / 3 * 3 + k / 3) * 9 + (u % 3 * 3 + k % 3)
    }
}

/// The unit of kind `t` that cell `i` belongs to.
pub open spec fn unit_of(t: int, i: int) -> int {
    if t == 0 {
        i / 9
    } else if t == 1 {
        i % 9
    } else {
        i / 9 / 3 * 3 + i % 9 / 3
    }
}

/// The position of cell `i` inside its unit of kind `t`.
pub open spec fn pos_in_unit(t: int, i: int) -> int {
    if t == 0 {
        i % 9
    } else if t == 1 {
        i / 9
    } else {
        i / 9 % 3 * 3 + i % 9 % 3
    }
}

pub proof fn lemma_unit_cell(t: int, u: int, k: int)
    requires
        0 <= t < 3,
        0 <= u < 9,
        0 <= k < 9,
    ensures
        0 <= unit_cell(t, u, k) < 81,
        unit_of(t, unit_cell(t, u, k)) == u,
        pos_in_unit(t, unit_cell(t, u, k)) == k,
{
}

pub proof fn lemma_cell_position(t: int, i: int)
    requires
        0 <= t < 3,
        0 <= i < 81,
    ensures
        0 <= unit_of(t, i) < 9,
        0 <= pos_in_unit(t, i) < 9,
        unit_cell(t, unit_of(t, i), pos_in_unit(t, i)) == i,
{
}

} // verus!

verus! {

/// Every cell holds a value below 16, so that it has a bit in a `u16` mask: 0 for an
/// empty cell; the search treats any other value as a given.
pub open spec fn well_formed(s: Seq<u8>) -> bool {
    &&& s.len() == 81
    &&& forall|i: int| 0 <= i < 81 ==> #[trigger] s[i] < 16
}

/// Every cell holds 0 (empty) or a digit 1..9.
pub open spec fn digits_only(s: Seq<u8>) -> bool {
    &&& s.len() == 81
    &&& forall|i: int| 0 <= i < 81 ==> #[trigger] s[i] <= 9
}

/// Value `v` occurs somewhere in the row, column or box of cell `i`
/// (the cell itself included).
pub open spec fn used(s: Seq<u8>, i: int, v: int) -> bool {
    exists|t: int, k: int|
        0 <= t < 3 && 0 <= k < 9 && #[trigger] s[unit_cell(t, unit_of(t, i), k)] == v
}

/// `v` is a digit that may still be written into cell `i`.
pub open spec fn is_candidate(s: Seq<u8>, i: int, v: int) -> bool {
    1 <= v <= 9 && !used(s, i, v)
}

/// No unit holds the same digit twice.
pub open spec fn valid(s: Seq<u8>) -> bool {
    forall|t: int, u: int, k1: int, k2: int|
        0 <= t < 3 && 0 <= u < 9 && 0 <= k1 < 9 && 0 <= k2 < 9 && k1 != k2
            && s[unit_cell(t, u, k1)] != 0 ==> #[trigger] s[unit_cell(t, u, k1)]
            != #[trigger] s[unit_cell(t, u, k2)]
}

/// Every cell holds a digit 1..9.
pub open spec fn complete(s: Seq<u8>) -> bool {
    &&& s.len() == 81
    &&& forall|i: int| 0 <= i < 81 ==> 1 <= #[trigger] s[i] <= 9
}

/// `g` keeps every digit that `b` holds.
pub open spec fn extends(g: Seq<u8>, b: Seq<u8>) -> bool {
    forall|i: int| 0 <= i < 81 && b[i] != 0 ==> #[trigger] g[i] == b[i]
}

/// The digit of `g` at `i` differs from every other cell of its row, column and box.
pub open spec fn fits_at(g: Seq<u8>, i: int) -> bool {
    forall|t: int, k: int|
        0 <= t < 3 && 0 <= k < 9 && unit_cell(t, unit_of(t, i), k) != i ==> #[trigger] g[unit_cell(
            t,
            unit_of(t, i),
            k,
        )] != g[i]
}

/// `g` keeps the givens of `b` and writes into each cell that `b` leaves empty a digit
/// 1..9 that clashes with no other cell of its units.
/// On a board of digits without clashes this is exactly a valid completion of it.
pub open spec fn is_solution(b: Seq<u8>, g: Seq<u8>) -> bool {
    &&& g.len() == 81
    &&& extends(g, b)
    &&& forall|i: int| 0 <= i < 81 && b[i] == 0 ==> 1 <= #[trigger] g[i] <= 9 && fits_at(g, i)
}

pub open spec fn solutions(b: Seq<u8>) -> Set<Seq<u8>> {
    Set::new(|g: Seq<u8>| is_solution(b, g))
}

/// Board `b` has no empty cell.
pub open spec fn full(b: Seq<u8>) -> bool {
    forall|i: int| 0 <= i < 81 ==> #[trigger] b[i] != 0
}

/// The digit that a solution writes into an empty cell is a candidate there.
pub proof fn lemma_solution_digit_is_candidate(b: Seq<u8>, g: Seq<u8>, idx: int)
    requires
        well_formed(b),
        0 <= idx < 81,
        b[idx] == 0,
        is_solution(b, g),
    ensures
        is_candidate(b, idx, g[idx] as int),
{
    assert(fits_at(g, idx));
    if used(b, idx, g[idx] as int) {
        let (t, k) = choose|t: int, k: int|
            0 <= t < 3 && 0 <= k < 9 && #[trigger] b[unit_cell(t, unit_of(t, idx), k)]
                == g[idx] as int;
        lemma_cell_position(t, idx);
        let c = unit_cell(t, unit_of(t, idx), k);
        lemma_unit_cell(t, unit_of(t, idx), k);
        assert(g[c] == b[c]);
    }
}

/// Writing a candidate `v` into an empty cell keeps exactly the solutions that
/// hold `v` there.
pub proof fn lemma_place_candidate(b: Seq<u8>, idx: int, v: u8, g: Seq<u8>)
    requires
        well_formed(b),
        0 <= idx < 81,
        b[idx] == 0,
        is_candidate(b, idx, v as int),
    ensures
        is_solution(b.update(idx, v), g) <==> (is_solution(b, g) && g[idx] == v),
{
    let b2 = b.update(idx, v);
    if is_solution(b2, g) {
        assert(extends(g, b));
        assert(g[idx] == v);
        assert forall|i: int| 0 <= i < 81 && b[i] == 0 implies #[trigger] fits_at(g, i) by {
            if i != idx {
                assert(b2[i] == 0);
            } else {
                assert forall|t: int, k: int|
                    0 <= t < 3 && 0 <= k < 9 && unit_cell(t, unit_of(t, i), k)
                        != i implies #[trigger] g[unit_cell(t, unit_of(t, i), k)] != g[i] by {
                    lemma_cell_position(t, i);
                    let c = unit_cell(t, unit_of(t, i), k);
                    lemma_unit_cell(t, unit_of(t, i), k);
                    if b[c] != 0 {
                        assert(g[c] == b[c]);
                        assert(b[unit_cell(t, unit_of(t, idx), k)] == b[c]);
                    } else {
                        assert(b2[c] == 0);
                        assert(fits_at(g, c));
                        assert(g[unit_cell(t, unit_of(t, c), pos_in_unit(t, idx))] != g[c]);
                    }
                }
            }
        }
    }
    if is_solution(b, g) && g[idx] == v {
        assert forall|i: int| 0 <= i < 81 && b2[i] != 0 implies #[trigger] g[i] == b2[i] by {
            if i != idx {
                assert(b[i] != 0);
            }
        }
        assert forall|i: int| 0 <= i < 81 && b2[i] == 0 implies #[trigger] fits_at(g, i) by {
            assert(b[i] == 0);
        }
    }
}

/// A board without empty cells is its own and only solution.
pub proof fn lemma_full_board(b: Seq<u8>, g: Seq<u8>)
    requires
        well_formed(b),
        full(b),
    ensures
        is_solution(b, g) <==> g == b,
{
    if is_solution(b, g) {
        assert(g.len() == 81);
        assert forall|i: int| 0 <= i < 81 implies g[i] == b[i] by {
            assert(b[i] != 0);
        }
        assert(g =~= b);
    }
}

} // verus!

verus! {

/// Sequences of length `n`.
pub open spec fn digit_strings(n: nat) -> Set<Seq<u8>> {
    Set::new(|s: Seq<u8>| s.len() == n)
}

/// Those members of `digit_strings(n + 1)` whose last value is below `d`.
spec fn extended_up_to(n: nat, d: nat) -> Set<Seq<u8>>
    decreases d,
{
    if d == 0 {
        Set::empty()
    } else {
        extended_up_to(n, (d - 1) as nat).union(
            digit_strings(n).map(|s: Seq<u8>| s.push((d - 1) as u8)),
        )
    }
}

proof fn lemma_extended_up_to(n: nat, d: nat)
    requires
        digit_strings(n).finite(),
        d <= 256,
    ensures
        extended_up_to(n, d).finite(),
        forall|s: Seq<u8>|
            #[trigger] digit_strings(n + 1).contains(s) && s[n as int] < d ==> extended_up_to(
                n,
                d,
            ).contains(s),
    decreases d,
{
    if d > 0 {
        lemma_extended_up_to(n, (d - 1) as nat);
        let f = |s: Seq<u8>| s.push((d - 1) as u8);
        digit_strings(n).lemma_map_finite(f);
        assert forall|s: Seq<u8>|
            #[trigger] digit_strings(n + 1).contains(s) && s[n as int] < d implies extended_up_to(
            n,
            d,
        ).contains(s) by {
            if s[n as int] == d - 1 {
                let p = s.drop_last();
                assert(digit_strings(n).contains(p));
                assert(p.push((d - 1) as u8) =~= s);
                assert(digit_strings(n).map(f).contains(f(p)));
            }
        }
    }
}

pub proof fn lemma_digit_strings_finite(n: nat)
    ensures
        digit_strings(n).finite(),
    decreases n,
{
    if n == 0 {
        assert forall|s: Seq<u8>| digit_strings(0).contains(s) implies s == Seq::<u8>::empty() by {
            assert(s =~= Seq::<u8>::empty());
        }
        assert(digit_strings(0) =~= set![Seq::<u8>::empty()]);
    } else {
        let m = (n - 1) as nat;
        lemma_digit_strings_finite(m);
        lemma_extended_up_to(m, 256);
        assert forall|s: Seq<u8>| digit_strings(n).contains(s) implies extended_up_to(
            m,
            256,
        ).contains(s) by {
            assert(digit_strings(m + 1).contains(s));
            assert(s[m as int] < 256);
        }
        assert(digit_strings(n).subset_of(extended_up_to(m, 256)));
        vstd::set_lib::lemma_set_subset_finite(extended_up_to(m, 256), digit_strings(n));
    }
}

/// Every board has finitely many solutions.
pub proof fn lemma_solutions_finite(b: Seq<u8>)
    ensures
        solutions(b).finite(),
{
    lemma_digit_strings_finite(81);
    assert(solutions(b).subset_of(digit_strings(81)));
    vstd::set_lib::lemma_set_subset_finite(digit_strings(81), solutions(b));
}

} // verus!

verus! {

/// Number of empty cells.
pub open spec fn zeros(s: Seq<u8>) -> nat
    decreases s.len(),
{
    if s.len() == 0 {
        0
    } else {
        zeros(s.drop_last()) + if s.last() == 0 {
            1nat
        } else {
            0nat
        }
    }
}

/// Number of filled cells.
pub open spec fn clues(s: Seq<u8>) -> nat {
    (s.len() - zeros(s)) as nat
}

pub proof fn lemma_zeros_bound(s: Seq<u8>)
    ensures
        zeros(s) <= s.len(),
    decreases s.len(),
{
    if s.len() > 0 {
        lemma_zeros_bound(s.drop_last());
    }
}

/// Filling an empty cell removes exactly one empty cell; emptying a filled one adds one.
pub proof fn lemma_zeros_update(s: Seq<u8>, i: int, v: u8)
    requires
        0 <= i < s.len(),
    ensures
        s[i] == 0 && v != 0 ==> zeros(s.update(i, v)) + 1 == zeros(s),
        s[i] != 0 && v == 0 ==> zeros(s.update(i, v)) == zeros(s) + 1,
        (s[i] == 0) == (v == 0) ==> zeros(s.update(i, v)) == zeros(s),
    decreases s.len(),
{
    let s2 = s.update(i, v);
    if i < s.len() - 1 {
        assert(s2.drop_last() =~= s.drop_last().update(i, v));
        lemma_zeros_update(s.drop_last(), i, v);
    } else {
        assert(s2.drop_last() =~= s.drop_last());
    }
}

/// Bit `v` of `m` is set.
pub open spec fn bit(m: u16, v: u16) -> bool {
    (m >> v) & 1u16 == 1u16
}

pub proof fn lemma_bit_or_shift(a: u16, x: u16, v: u16)
    requires
        x < 16,
        v < 16,
    ensures
        bit(a | (1u16 << x), v) == (bit(a, v) || v == x),
{
    assert(bit(a | (1u16 << x), v) == (bit(a, v) || v == x)) by (bit_vector)
        requires
            x < 16,
            v < 16,
    ;
}

pub proof fn lemma_bit_zero(v: u16)
    requires
        v < 16,
    ensures
        !bit(0, v),
{
    assert(!bit(0, v)) by (bit_vector)
        requires
            v < 16,
    ;
}

/// Complementing a mask and keeping bits 1..9.
pub proof fn lemma_bit_complement(a: u16, v: u16)
    requires
        v < 16,
    ensures
        bit(!a & 0x3FEu16, v) == (!bit(a, v) && 1 <= v <= 9),
{
    assert(bit(!a & 0x3FEu16, v) == (!bit(a, v) && 1 <= v <= 9)) by (bit_vector)
        requires
            v < 16,
    ;
}

/// Testing a bit with a shifted one.
pub proof fn lemma_bit_test(m: u16, v: u16)
    requires
        v < 16,
    ensures
        (m & (1u16 << v) != 0) == bit(m, v),
{
    assert((m & (1u16 << v) != 0) == bit(m, v)) by (bit_vector)
        requires
            v < 16,
    ;
}

} // verus!

verus! {

/// Number of set bits.
pub open spec fn bit_count(m: u16) -> nat
    decreases m,
{
    if m == 0 {
        0
    } else {
        (m % 2) as nat + bit_count(m / 2)
    }
}

proof fn lemma_bit_count_pow2(m: u16, k: nat)
    requires
        (m as nat) < vstd::arithmetic::power2::pow2(k),
    ensures
        bit_count(m) <= k,
    decreases k,
{
    if m != 0 {
        if k == 0 {
            vstd::arithmetic::power2::lemma2_to64();
        } else {
            vstd::arithmetic::power2::lemma_pow2_unfold(k);
            lemma_bit_count_pow2(m / 2, (k - 1) as nat);
        }
    }
}

pub proof fn lemma_bit_count_bound(m: u16)
    ensures
        bit_count(m) <= 16,
{
    vstd::arithmetic::power2::lemma2_to64();
    lemma_bit_count_pow2(m, 16);
}

/// Two masks with the same bits 0..16 are equal.
pub proof fn lemma_mask_eq(a: u16, b: u16)
    requires
        forall|v: u16| v < 16 ==> bit(a, v) == bit(b, v),
    ensures
        a == b,
{
    assert(bit(a, 0) == bit(b, 0));
    assert(bit(a, 1) == bit(b, 1));
    assert(bit(a, 2) == bit(b, 2));
    assert(bit(a, 3) == bit(b, 3));
    assert(bit(a, 4) == bit(b, 4));
    assert(bit(a, 5) == bit(b, 5));
    assert(bit(a, 6) == bit(b, 6));
    assert(bit(a, 7) == bit(b, 7));
    assert(bit(a, 8) == bit(b, 8));
    assert(bit(a, 9) == bit(b, 9));
    assert(bit(a, 10) == bit(b, 10));
    assert(bit(a, 11) == bit(b, 11));
    assert(bit(a, 12) == bit(b, 12));
    assert(bit(a, 13) == bit(b, 13));
    assert(bit(a, 14) == bit(b, 14));
    assert(bit(a, 15) == bit(b, 15));
    assert(a == b) by (bit_vector)
        requires
            bit(a, 0) == bit(b, 0),
            bit(a, 1) == bit(b, 1),
            bit(a, 2) == bit(b, 2),
            bit(a, 3) == bit(b, 3),
            bit(a, 4) == bit(b, 4),
            bit(a, 5) == bit(b, 5),
            bit(a, 6) == bit(b, 6),
            bit(a, 7) == bit(b, 7),
            bit(a, 8) == bit(b, 8),
            bit(a, 9) == bit(b, 9),
            bit(a, 10) == bit(b, 10),
            bit(a, 11) == bit(b, 11),
            bit(a, 12) == bit(b, 12),
            bit(a, 13) == bit(b, 13),
            bit(a, 14) == bit(b, 14),
            bit(a, 15) == bit(b, 15),
    ;
}

/// `m` has bit `v` set exactly for the candidates `v` of cell `i`.
pub open spec fn is_cand_mask(s: Seq<u8>, i: int, m: u16) -> bool {
    forall|v: u16| v < 16 ==> (#[trigger] bit(m, v) <==> is_candidate(s, i, v as int))
}

/// The candidates of cell `i` as a bitmask.
pub open spec fn cand_mask(s: Seq<u8>, i: int) -> u16 {
    choose|m: u16| is_cand_mask(s, i, m)
}

/// How many candidates cell `i` has.
pub open spec fn cand_count(s: Seq<u8>, i: int) -> nat {
    bit_count(cand_mask(s, i))
}

pub proof fn lemma_cand_mask_unique(s: Seq<u8>, i: int, m: u16)
    requires
        is_cand_mask(s, i, m),
    ensures
        cand_mask(s, i) == m,
        cand_count(s, i) == bit_count(m),
{
    let c = cand_mask(s, i);
    assert(is_cand_mask(s, i, c));
    assert forall|v: u16| v < 16 implies bit(c, v) == bit(m, v) by {
    }
    lemma_mask_eq(c, m);
}

/// The cell that the search branches on next: the first empty cell with the fewest
/// candidates.
pub open spec fn branch_cell(s: Seq<u8>, idx: int) -> bool {
    &&& 0 <= idx < 81
    &&& s[idx] == 0
    &&& forall|j: int| 0 <= j < 81 && s[j] == 0 ==> cand_count(s, idx) <= #[trigger] cand_count(s, j)
    &&& forall|j: int| 0 <= j < idx && s[j] == 0 ==> cand_count(s, idx) < #[trigger] cand_count(s, j)
}

} // verus!

verus! {

pub proof fn lemma_bit_count_zero(m: u16)
    ensures
        bit_count(m) == 0 <==> m == 0,
    decreases m,
{
    if m != 0 {
        lemma_bit_count_zero(m / 2);
    }
}

} // verus!

verus! {

/// In a grid without clashes every digit fits where it stands.
pub proof fn lemma_valid_fits(g: Seq<u8>, i: int)
    requires
        g.len() == 81,
        valid(g),
        0 <= i < 81,
        g[i] != 0,
    ensures
        fits_at(g, i),
{
    assert forall|t: int, k: int|
        0 <= t < 3 && 0 <= k < 9 && unit_cell(t, unit_of(t, i), k) != i implies #[trigger] g[unit_cell(
        t,
        unit_of(t, i),
        k,
    )] != g[i] by {
        lemma_cell_position(t, i);
        let p = pos_in_unit(t, i);
        assert(k != p);
        assert(g[unit_cell(t, unit_of(t, i), p)] != g[unit_cell(t, unit_of(t, i), k)]);
    }
}

/// On a board without clashes, the solutions are exactly the filled grids without
/// clashes that keep its digits.
pub proof fn lemma_solutions_of_valid_board(b: Seq<u8>, g: Seq<u8>)
    requires
        digits_only(b),
        valid(b),
    ensures
        is_solution(b, g) <==> (complete(g) && valid(g) && extends(g, b)),
{
    if is_solution(b, g) {
        assert forall|i: int| 0 <= i < 81 implies 1 <= #[trigger] g[i] <= 9 by {
            if b[i] != 0 {
                assert(g[i] == b[i]);
            }
        }
        assert forall|t: int, u: int, k1: int, k2: int|
            0 <= t < 3 && 0 <= u < 9 && 0 <= k1 < 9 && 0 <= k2 < 9 && k1 != k2
                && g[unit_cell(t, u, k1)] != 0 implies #[trigger] g[unit_cell(t, u, k1)]
            != #[trigger] g[unit_cell(t, u, k2)] by {
            lemma_unit_cell(t, u, k1);
            lemma_unit_cell(t, u, k2);
            let c1 = unit_cell(t, u, k1);
            let c2 = unit_cell(t, u, k2);
            if b[c1] == 0 {
                assert(fits_at(g, c1));
                assert(g[unit_cell(t, unit_of(t, c1), k2)] != g[c1]);
            } else if b[c2] == 0 {
                assert(fits_at(g, c2));
                assert(g[unit_cell(t, unit_of(t, c2), k1)] != g[c2]);
            } else {
                assert(b[unit_cell(t, u, k1)] != b[unit_cell(t, u, k2)]);
            }
        }
    }
    if complete(g) && valid(g) && extends(g, b) {
        assert forall|i: int| 0 <= i < 81 && b[i] == 0 implies #[trigger] fits_at(g, i) by {
            lemma_valid_fits(g, i);
        }
    }
}

/// The empty board.
pub open spec fn empty_grid() -> Seq<u8> {
    Seq::new(81, |i: int| 0u8)
}

/// A filled grid without clashes: row `r`, column `c` holds
/// `(3 * (r % 3) + r / 3 + c) % 9 + 1`.
pub open spec fn pattern_grid() -> Seq<u8> {
    Seq::new(81, |i: int| ((i / 9 % 3 * 3 + i / 9 / 3 + i % 9) % 9 + 1) as u8)
}

proof fn lemma_mod9_distinct(x: int, y1: int, y2: int)
    requires
        0 <= x,
        0 <= y1 < 9,
        0 <= y2 < 9,
        y1 != y2,
    ensures
        (x + y1) % 9 != (x + y2) % 9,
{
}

/// Offset of the `k`-th cell of a unit in the pattern grid.
spec fn pattern_offset(t: int, k: int) -> int {
    if t == 1 {
        k % 3 * 3 + k / 3
    } else {
        k
    }
}

spec fn pattern_base(t: int, u: int) -> int {
    if t == 0 {
        u % 3 * 3 + u / 3
    } else if t == 1 {
        u
    } else {
        u % 3 * 3 + u / 3
    }
}

proof fn lemma_pattern_cell(t: int, u: int, k: int)
    requires
        0 <= t < 3,
        0 <= u < 9,
        0 <= k < 9,
    ensures
        pattern_grid()[unit_cell(t, u, k)] == (pattern_base(t, u) + pattern_offset(t, k)) % 9 + 1,
        0 <= pattern_offset(t, k) < 9,
{
    lemma_unit_cell(t, u, k);
}

pub proof fn lemma_pattern_grid()
    ensures
        complete(pattern_grid()),
        valid(pattern_grid()),
{
    let g = pattern_grid();
    assert forall|t: int, u: int, k1: int, k2: int|
        0 <= t < 3 && 0 <= u < 9 && 0 <= k1 < 9 && 0 <= k2 < 9 && k1 != k2
            && g[unit_cell(t, u, k1)] != 0 implies #[trigger] g[unit_cell(t, u, k1)]
        != #[trigger] g[unit_cell(t, u, k2)] by {
        lemma_pattern_cell(t, u, k1);
        lemma_pattern_cell(t, u, k2);
        if t == 1 {
            assert(pattern_offset(t, k1) != pattern_offset(t, k2));
        }
        lemma_mod9_distinct(pattern_base(t, u), pattern_offset(t, k1), pattern_offset(t, k2));
    }
}

/// The empty board has a solution.
pub proof fn lemma_empty_grid_solvable()
    ensures
        well_formed(empty_grid()),
        digits_only(empty_grid()),
        valid(empty_grid()),
        is_solution(empty_grid(), pattern_grid()),
{
    lemma_pattern_grid();
    lemma_solutions_of_valid_board(empty_grid(), pattern_grid());
}

} // verus!

verus! {

/// A sequence has no empty cell exactly when it counts no zeros.
pub proof fn lemma_zeros_none(s: Seq<u8>)
    ensures
        zeros(s) == 0 <==> forall|i: int| 0 <= i < s.len() ==> #[trigger] s[i] != 0,
    decreases s.len(),
{
    if s.len() > 0 {
        lemma_zeros_none(s.drop_last());
        if zeros(s) == 0 {
            assert forall|i: int| 0 <= i < s.len() implies #[trigger] s[i] != 0 by {
                if i < s.len() - 1 {
                    assert(s.drop_last()[i] == s[i]);
                }
            }
        }
        if forall|i: int| 0 <= i < s.len() ==> #[trigger] s[i] != 0 {
            assert forall|i: int| 0 <= i < s.drop_last().len() implies #[trigger] s.drop_last()[i] != 0 by {
                assert(s[i] != 0);
            }
            assert(s[s.len() - 1] != 0);
        }
    }
}

} // verus!
