use vstd::prelude::*;
use crate::text::push_char;
use crate::model::{
    clues, empty_grid, zeros, bit, lemma_bit_or_shift, lemma_bit_test, lemma_bit_zero, lemma_unit_cell, unit_cell, unit_of, used, valid,
    well_formed, digits_only,
};

verus! {

/// A Sudoku grid, row-major; 0 marks an empty cell.
#[derive(Clone, Copy, PartialEq, Eq, Debug)]
pub struct Board {
    pub cells: [u8; 81],
}

/// Some digit of `s` at index `< n` of a unit of cell `i` equals `v`.
pub open spec fn used_in_first(s: Seq<u8>, i: int, v: int, n: int) -> bool {
    exists|t: int, k: int|
        0 <= t < 3 && 0 <= k < n && #[trigger] s[unit_cell(t, unit_of(t, i), k)] == v
}

/// Every cell of the units of `idx` holds a value below 16.
pub open spec fn units_below_16(s: Seq<u8>, idx: int) -> bool {
    forall|t: int, k: int|
        0 <= t < 3 && 0 <= k < 9 ==> #[trigger] s[unit_cell(t, unit_of(t, idx), k)] < 16
}


/// No two cells among the first `n` of unit `u` of kind `t` hold the same digit.
pub open spec fn dup_free(s: Seq<u8>, t: int, u: int, n: int) -> bool {
    forall|k1: int, k2: int|
        0 <= k1 < n && 0 <= k2 < n && k1 != k2 && s[unit_cell(t, u, k1)] != 0
            ==> #[trigger] s[unit_cell(t, u, k1)] != #[trigger] s[unit_cell(t, u, k2)]
}

/// `m` marks exactly the digits held by the first `n` cells of unit `u` of kind `t`.
pub open spec fn seen_mask(s: Seq<u8>, t: int, u: int, n: int, m: u16) -> bool {
    forall|v: u16|
        v < 16 ==> (#[trigger] bit(m, v) <==> (v != 0 && exists|k: int|
            0 <= k < n && #[trigger] s[unit_cell(t, u, k)] == v))
}

proof fn lemma_unit_step(s: Seq<u8>, t: int, u: int, k: int, m: u16, m2: u16)
    requires
        s.len() == 81,
        0 <= t < 3,
        0 <= u < 9,
        0 <= k < 9,
        s[unit_cell(t, u, k)] < 16,
        seen_mask(s, t, u, k, m),
        dup_free(s, t, u, k),
    ensures
        ({
            let v = s[unit_cell(t, u, k)];
            &&& (v != 0 && bit(m, v as u16)) ==> !dup_free(s, t, u, k + 1)
            &&& (!(v != 0 && bit(m, v as u16)) && (forall|w: u16|
                w < 16 ==> (#[trigger] bit(m2, w) <==> (bit(m, w) || (w == v && v != 0)))))
                ==> dup_free(s, t, u, k + 1) && seen_mask(s, t, u, k + 1, m2)
        }),
{
    let v = s[unit_cell(t, u, k)];
    if v != 0 && bit(m, v as u16) {
        let kk = choose|kk: int| 0 <= kk < k && #[trigger] s[unit_cell(t, u, kk)] == v as u16;
        assert(s[unit_cell(t, u, k)] == s[unit_cell(t, u, kk)]);
    }
    if !(v != 0 && bit(m, v as u16)) && (forall|w: u16|
        w < 16 ==> (#[trigger] bit(m2, w) <==> (bit(m, w) || (w == v && v != 0)))) {
        assert forall|k1: int, k2: int|
            0 <= k1 < k + 1 && 0 <= k2 < k + 1 && k1 != k2 && s[unit_cell(t, u, k1)] != 0
                implies #[trigger] s[unit_cell(t, u, k1)] != #[trigger] s[unit_cell(t, u, k2)] by {
            if k1 == k {
                let w = s[unit_cell(t, u, k2)];
                if w == v {
                    lemma_unit_cell(t, u, k2);
                    assert(bit(m, w as u16));
                }
            } else if k2 == k {
                let w = s[unit_cell(t, u, k1)];
                if w == v {
                    lemma_unit_cell(t, u, k1);
                    assert(bit(m, w as u16));
                }
            }
        }
        assert forall|w: u16|
            w < 16 implies (#[trigger] bit(m2, w) <==> (w != 0 && exists|kk: int|
                0 <= kk < k + 1 && #[trigger] s[unit_cell(t, u, kk)] == w)) by {
            if w != 0 && exists|kk: int| 0 <= kk < k + 1 && #[trigger] s[unit_cell(t, u, kk)] == w {
                let kk = choose|kk: int| 0 <= kk < k + 1 && #[trigger] s[unit_cell(t, u, kk)] == w;
                if kk < k {
                    assert(bit(m, w));
                }
            }
            if bit(m, w) {
                let kk = choose|kk: int| 0 <= kk < k && #[trigger] s[unit_cell(t, u, kk)] == w;
                assert(s[unit_cell(t, u, kk)] == w);
            }
            if w == v && v != 0 {
                assert(s[unit_cell(t, u, k)] == w);
            }
        }
    }
}

/// Records digit `v` in the set `set`; `None` when it is already there.
fn note_digit(set: u16, v: u8) -> (r: Option<u16>)
    requires
        v < 16,
    ensures
        r is None <==> (v != 0 && bit(set, v as u16)),
        r matches Some(x) ==> forall|w: u16|
            w < 16 ==> (#[trigger] bit(x, w) <==> (bit(set, w) || (w == v && v != 0))),
{
    if v == 0 {
        Some(set)
    } else {
        proof {
            lemma_bit_test(set, v as u16);
        }
        if set & (1u16 << v) != 0 {
            None
        } else {
            proof {
                assert forall|w: u16| w < 16 implies (#[trigger] bit(set | (1u16 << v), w) <==> (
                bit(set, w) || (w == v && v != 0))) by {
                    lemma_bit_or_shift(set, v as u16, w);
                }
            }
            Some(set | (1u16 << v))
        }
    }
}

proof fn lemma_seen_empty(s: Seq<u8>, t: int, u: int)
    ensures
        seen_mask(s, t, u, 0, 0),
{
    assert forall|v: u16| v < 16 implies !#[trigger] bit(0, v) by {
        lemma_bit_zero(v);
    }
}

proof fn lemma_valid_dup_free(s: Seq<u8>)
    requires
        s.len() == 81,
    ensures
        valid(s) <==> forall|t: int, u: int| 0 <= t < 3 && 0 <= u < 9 ==> #[trigger] dup_free(s, t, u, 9),
{
    if valid(s) {
        assert forall|t: int, u: int| 0 <= t < 3 && 0 <= u < 9 implies #[trigger] dup_free(s, t, u, 9) by {
            assert forall|k1: int, k2: int|
                0 <= k1 < 9 && 0 <= k2 < 9 && k1 != k2 && s[unit_cell(t, u, k1)] != 0
                    implies #[trigger] s[unit_cell(t, u, k1)] != #[trigger] s[unit_cell(t, u, k2)] by {
            }
        }
    }
    if forall|t: int, u: int| 0 <= t < 3 && 0 <= u < 9 ==> #[trigger] dup_free(s, t, u, 9) {
        assert forall|t: int, u: int, k1: int, k2: int|
            0 <= t < 3 && 0 <= u < 9 && 0 <= k1 < 9 && 0 <= k2 < 9 && k1 != k2
                && s[unit_cell(t, u, k1)] != 0 implies #[trigger] s[unit_cell(t, u, k1)]
            != #[trigger] s[unit_cell(t, u, k2)] by {
            assert(dup_free(s, t, u, 9));
        }
    }
}


/// Unicode `White_Space`: U+0009..U+000D, U+0020, U+0085, U+00A0, U+1680,
/// U+2000..U+200A, U+2028, U+2029, U+202F, U+205F and U+3000.
pub open spec fn is_white_space(c: char) -> bool {
    ||| ('\t' <= c && c <= '\r')
    ||| c == ' '
    ||| c == '\u{85}'
    ||| c == '\u{A0}'
    ||| c == '\u{1680}'
    ||| ('\u{2000}' <= c && c <= '\u{200A}')
    ||| c == '\u{2028}'
    ||| c == '\u{2029}'
    ||| c == '\u{202F}'
    ||| c == '\u{205F}'
    ||| c == '\u{3000}'
}

/// Whether `c` is Unicode white space (the characters of [`is_white_space`]).
pub fn is_whitespace(c: char) -> (r: bool)
    ensures
        r == is_white_space(c),
{
    ('\t' <= c && c <= '\r') || c == ' ' || c == '\u{85}' || c == '\u{A0}' || c == '\u{1680}'
        || ('\u{2000}' <= c && c <= '\u{200A}') || c == '\u{2028}' || c == '\u{2029}'
        || c == '\u{202F}' || c == '\u{205F}' || c == '\u{3000}'
}

/// The characters of `s` other than white space, in order.
pub open spec fn non_blank(s: Seq<char>) -> Seq<char>
    decreases s.len(),
{
    if s.len() == 0 {
        s
    } else if is_white_space(s.last()) {
        non_blank(s.drop_last())
    } else {
        non_blank(s.drop_last()).push(s.last())
    }
}

pub proof fn lemma_non_blank_append(a: Seq<char>, b: Seq<char>)
    ensures
        non_blank(a + b) == non_blank(a) + non_blank(b),
    decreases b.len(),
{
    if b.len() == 0 {
        assert(a + b =~= a);
        assert(non_blank(a) + non_blank(b) =~= non_blank(a));
    } else {
        assert((a + b).drop_last() =~= a + b.drop_last());
        lemma_non_blank_append(a, b.drop_last());
        assert((a + b).last() == b.last());
        if !is_white_space(b.last()) {
            assert(non_blank(a) + non_blank(b.drop_last()).push(b.last()) =~= (non_blank(a)
                + non_blank(b.drop_last())).push(b.last()));
        }
    }
}

/// The cell value a puzzle character stands for: `.`, `0` and `_` for an empty cell,
/// `1`..`9` for a digit; `None` for any other character.
pub open spec fn char_value(c: char) -> Option<u8> {
    if c == '.' || c == '0' || c == '_' {
        Some(0u8)
    } else if '1' <= c && c <= '9' {
        Some((c as u32 - '0' as u32) as u8)
    } else {
        None
    }
}

/// The character that stands for a cell value in a puzzle line.
pub open spec fn cell_char(v: u8) -> char {
    if v == 0 {
        '.'
    } else {
        ((48 + v) as u8) as char
    }
}

/// A board written as one line of 81 characters.
pub open spec fn line_of(s: Seq<u8>) -> Seq<char> {
    s.map_values(|v: u8| cell_char(v))
}

/// The text of a puzzle holds, apart from white space, exactly 81 cell characters.
pub open spec fn parses(text: Seq<char>) -> bool {
    &&& non_blank(text).len() == 81
    &&& forall|i: int| 0 <= i < 81 ==> #[trigger] char_value(non_blank(text)[i]) is Some
}

/// The cells that a parsable puzzle text describes.
pub open spec fn parsed_cells(text: Seq<char>) -> Seq<u8> {
    Seq::new(81, |i: int| char_value(non_blank(text)[i])->0)
}

/// The cell value of one puzzle character.
fn value_of_char(c: char) -> (r: Option<u8>)
    ensures
        r == char_value(c),
{
    if c == '.' || c == '0' || c == '_' {
        Some(0)
    } else if '1' <= c && c <= '9' {
        Some((c as u32 - '0' as u32) as u8)
    } else {
        None
    }
}

pub proof fn lemma_non_blank_none(s: Seq<char>)
    requires
        forall|i: int| 0 <= i < s.len() ==> !is_white_space(#[trigger] s[i]),
    ensures
        non_blank(s) == s,
    decreases s.len(),
{
    if s.len() > 0 {
        lemma_non_blank_none(s.drop_last());
        assert(!is_white_space(s[s.len() - 1]));
        assert(s.drop_last().push(s.last()) =~= s);
    }
}

/// Reading back the line of a board gives the board: `parse(b.to_line())` is `Some(b)`.
pub proof fn lemma_parse_line(s: Seq<u8>)
    requires
        digits_only(s),
    ensures
        parses(line_of(s)),
        forall|i: int| 0 <= i < 81 ==> char_value(non_blank(line_of(s))[i]) == Some(#[trigger] s[i]),
{
    let line = line_of(s);
    assert forall|i: int| 0 <= i < line.len() implies !is_white_space(#[trigger] line[i]) by {
        assert(s[i] <= 9);
    }
    lemma_non_blank_none(line);
    assert forall|i: int| 0 <= i < 81 implies char_value(non_blank(line)[i]) == Some(#[trigger] s[i]) by {
        assert(s[i] <= 9);
        assert(line[i] == cell_char(s[i]));
    }
}

impl Board {
    /// Every cell holds a value below 16 (see [`well_formed`]).
    pub open spec fn wf(&self) -> bool {
        well_formed(self.cells@)
    }

    /// A board with every cell empty.
    pub fn empty() -> (b: Board)
        ensures
            b.cells@ == empty_grid(),
    {
        let b = Board { cells: [0u8; 81] };
        assert(b.cells@ =~= empty_grid());
        b
    }


    /// Reads 81 cells from `s`: digits `1`..`9`, and `.`, `0` or `_` for an empty
    /// cell; white space is skipped. `None` if any other character occurs or the count
    /// of cells is not 81.
    pub fn parse(s: &str) -> (r: Option<Board>)
        ensures
            r is Some <==> parses(s@),
            r matches Some(b) ==> forall|i: int|
                0 <= i < 81 ==> char_value(non_blank(s@)[i]) == Some(#[trigger] b.cells@[i]),
            r matches Some(b) ==> b.cells@ == parsed_cells(s@) && b.wf(),
    {
        let ghost text = s@;
        let mut cells = [0u8; 81];
        let mut i: usize = 0;
        for ch in it: s.chars()
            invariant
                text == s@,
                it.seq() == text,
                i <= 81,
                i == non_blank(text.take(it.index() as int)).len(),
                forall|j: int| 0 <= j < i ==> char_value(non_blank(text.take(it.index() as int))[j]) == Some(#[trigger] cells@[j]),
        {
            proof {
                let n = it.index() as int;
                assert(ch == text[n]);
                assert(text.take(n + 1) =~= text.take(n) + seq![ch]);
                lemma_non_blank_append(text.take(n), seq![ch]);
                assert(seq![ch].drop_last() =~= Seq::<char>::empty());
                assert(non_blank(Seq::<char>::empty()) == Seq::<char>::empty());
                if is_white_space(ch) {
                    assert(non_blank(seq![ch]) =~= Seq::<char>::empty());
                    assert(non_blank(text.take(n + 1)) =~= non_blank(text.take(n)));
                } else {
                    assert(non_blank(seq![ch]) =~= seq![ch]);
                    assert(non_blank(text.take(n + 1)) =~= non_blank(text.take(n)).push(ch));
                }
                assert(text =~= text.take(n + 1) + text.skip(n + 1));
                lemma_non_blank_append(text.take(n + 1), text.skip(n + 1));
            }
            if !is_whitespace(ch) {
                let v = match value_of_char(ch) {
                    Some(v) => v,
                    None => {
                        proof {
                            let n = it.index() as int;
                            let k = non_blank(text.take(n)).len() as int;
                            assert(non_blank(text.take(n + 1))[k] == ch);
                            assert(non_blank(text)[k] == ch);
                        }
                        return None;
                    },
                };
                if i >= 81 {
                    proof {
                        let n = it.index() as int;
                        assert(non_blank(text).len() >= non_blank(text.take(n + 1)).len());
                    }
                    return None;
                }
                cells[i] = v;
                i += 1;
            }
        }
        proof {
            assert(text.take(text.len() as int) =~= text);
            assert(i == non_blank(text).len());
            if i == 81 {
                assert forall|j: int| 0 <= j < 81 implies #[trigger] char_value(non_blank(text)[j]) is Some by {
                    assert(char_value(non_blank(text)[j]) == Some(cells@[j]));
                }
            }
        }
        if i == 81 {
            proof {
                assert(cells@ =~= parsed_cells(text));
                assert forall|j: int| 0 <= j < 81 implies #[trigger] cells@[j] <= 9 by {
                    assert(char_value(non_blank(text)[j]) == Some(cells@[j]));
                }
            }
            Some(Board { cells })
        } else {
            None
        }
    }

    /// The board as 81 characters: `.` for an empty cell, else its digit.
    pub fn to_line(&self) -> (line: String)
        requires
            forall|i: int| 0 <= i < 81 ==> #[trigger] self.cells@[i] <= 207,
        ensures
            line@ == line_of(self.cells@),
    {
        let ghost s = self.cells@;
        let mut line = String::new();
        let mut i: usize = 0;
        while i < 81
            invariant
                s == self.cells@,
                i <= 81,
                forall|j: int| 0 <= j < 81 ==> #[trigger] s[j] <= 207,
                line@ == line_of(s.take(i as int)),
            decreases 81 - i,
        {
            let c = self.cells[i];
            let ch = if c == 0 {
                '.'
            } else {
                (48u8 + c) as char
            };
            push_char(&mut line, ch);
            proof {
                assert(line_of(s.take(i + 1)) =~= line_of(s.take(i as int)).push(cell_char(c)));
            }
            i += 1;
        }
        proof {
            assert(s.take(81) =~= s);
        }
        line
    }

    /// The number of filled cells.
    pub fn clue_count(&self) -> (n: usize)
        ensures
            n == clues(self.cells@),
    {
        let ghost s = self.cells@;
        let mut n: usize = 0;
        let mut i: usize = 0;
        while i < 81
            invariant
                s == self.cells@,
                s.len() == 81,
                i <= 81,
                n == clues(s.take(i as int)),
                n <= i,
            decreases 81 - i,
        {
            proof {
                assert(s.take(i + 1).drop_last() =~= s.take(i as int));
                crate::model::lemma_zeros_bound(s.take(i as int));
            }
            if self.cells[i] != 0 {
                n += 1;
            }
            i += 1;
        }
        assert(s.take(81) =~= s);
        n
    }

    /// The digit in row `r`, column `c` (the cell at index `r * 9 + c`).
    pub fn get(&self, r: usize, c: usize) -> (v: u8)
        requires
            r * 9 + c < 81,
        ensures
            v == self.cells@[r * 9 + c],
    {
        self.cells[r * 9 + c]
    }


    /// No row, column or box holds a digit twice (empty cells are ignored).
    pub fn is_valid(&self) -> (r: bool)
        requires
            forall|i: int| 0 <= i < 81 ==> #[trigger] self.cells@[i] < 16,
        ensures
            r == valid(self.cells@),
    {
        let ghost s = self.cells@;
        proof {
            lemma_valid_dup_free(s);
        }
        let mut unit: usize = 0;
        while unit < 9
            invariant
                s == self.cells@,
                unit <= 9,
                forall|i: int| 0 <= i < 81 ==> #[trigger] s[i] < 16,
                forall|t: int, u: int| 0 <= t < 3 && 0 <= u < unit ==> #[trigger] dup_free(s, t, u, 9),
                valid(s) <==> forall|t: int, u: int| 0 <= t < 3 && 0 <= u < 9 ==> #[trigger] dup_free(s, t, u, 9),
            decreases 9 - unit,
        {
            let mut rows: u16 = 0;
            let mut cols: u16 = 0;
            let mut boxes: u16 = 0;
            proof {
                lemma_seen_empty(s, 0, unit as int);
                lemma_seen_empty(s, 1, unit as int);
                lemma_seen_empty(s, 2, unit as int);
            }
            let mut k: usize = 0;
            while k < 9
                invariant
                    s == self.cells@,
                    unit < 9,
                    k <= 9,
                    forall|i: int| 0 <= i < 81 ==> #[trigger] s[i] < 16,
                    forall|t: int, u: int| 0 <= t < 3 && 0 <= u < unit ==> #[trigger] dup_free(s, t, u, 9),
                    valid(s) <==> forall|t: int, u: int| 0 <= t < 3 && 0 <= u < 9 ==> #[trigger] dup_free(s, t, u, 9),
                    seen_mask(s, 0, unit as int, k as int, rows),
                    seen_mask(s, 1, unit as int, k as int, cols),
                    seen_mask(s, 2, unit as int, k as int, boxes),
                    dup_free(s, 0, unit as int, k as int),
                    dup_free(s, 1, unit as int, k as int),
                    dup_free(s, 2, unit as int, k as int),
                decreases 9 - k,
            {
                let br = unit / 3 * 3;
                let bc = unit % 3 * 3;
                proof {
                    lemma_unit_cell(0, unit as int, k as int);
                    lemma_unit_cell(1, unit as int, k as int);
                    lemma_unit_cell(2, unit as int, k as int);
                }
                let a = self.cells[unit * 9 + k];
                let b = self.cells[k * 9 + unit];
                let d = self.cells[(br + k / 3) * 9 + (bc + k % 3)];
                assert(a == s[unit_cell(0, unit as int, k as int)]);
                assert(b == s[unit_cell(1, unit as int, k as int)]);
                assert(d == s[unit_cell(2, unit as int, k as int)]);
                match note_digit(rows, a) {
                    None => {
                        proof {
                            lemma_unit_step(s, 0, unit as int, k as int, rows, rows);
                        }
                        return false;
                    },
                    Some(x) => {
                        proof {
                            lemma_unit_step(s, 0, unit as int, k as int, rows, x);
                        }
                        rows = x;
                    },
                }
                match note_digit(cols, b) {
                    None => {
                        proof {
                            lemma_unit_step(s, 1, unit as int, k as int, cols, cols);
                        }
                        return false;
                    },
                    Some(x) => {
                        proof {
                            lemma_unit_step(s, 1, unit as int, k as int, cols, x);
                        }
                        cols = x;
                    },
                }
                match note_digit(boxes, d) {
                    None => {
                        proof {
                            lemma_unit_step(s, 2, unit as int, k as int, boxes, boxes);
                        }
                        return false;
                    },
                    Some(x) => {
                        proof {
                            lemma_unit_step(s, 2, unit as int, k as int, boxes, x);
                        }
                        boxes = x;
                    },
                }
                k += 1;
            }
            unit += 1;
        }
        true
    }

    /// The values already present in the row, column and box of cell `idx`, as a bitmask.
    pub fn used_mask(&self, idx: usize) -> (m: u16)
        requires
            idx < 81,
            units_below_16(self.cells@, idx as int),
        ensures
            forall|v: u16| v < 16 ==> (#[trigger] bit(m, v) <==> used(self.cells@, idx as int, v as int)),
    {
        let ghost s = self.cells@;
        let r = idx / 9;
        let c = idx % 9;
        let br = r / 3 * 3;
        let bc = c / 3 * 3;
        let mut m: u16 = 0;
        let mut k: usize = 0;
        proof {
            assert forall|v: u16| v < 16 implies (#[trigger] bit(m, v) <==> used_in_first(s, idx as int, v as int, 0)) by {
                lemma_bit_zero(v);
            }
        }
        while k < 9
            invariant
                s == self.cells@,
                idx < 81,
                r == idx / 9,
                c == idx % 9,
                br == r / 3 * 3,
                bc == c / 3 * 3,
                k <= 9,
                units_below_16(s, idx as int),
                forall|v: u16| v < 16 ==> (#[trigger] bit(m, v) <==> used_in_first(s, idx as int, v as int, k as int)),
            decreases 9 - k,
        {
            proof {
                lemma_unit_cell(0, unit_of(0, idx as int), k as int);
                lemma_unit_cell(1, unit_of(1, idx as int), k as int);
                lemma_unit_cell(2, unit_of(2, idx as int), k as int);
                assert(s[unit_cell(0, unit_of(0, idx as int), k as int)] < 16);
                assert(s[unit_cell(1, unit_of(1, idx as int), k as int)] < 16);
                assert(s[unit_cell(2, unit_of(2, idx as int), k as int)] < 16);
            }
            let a = self.cells[r * 9 + k];
            let b = self.cells[k * 9 + c];
            let d = self.cells[(br + k / 3) * 9 + (bc + k % 3)];
            let ghost m0 = m;
            m = m | (1u16 << a);
            let ghost m1 = m;
            m = m | (1u16 << b);
            let ghost m2 = m;
            m = m | (1u16 << d);
            proof {
                assert forall|v: u16| v < 16 implies (#[trigger] bit(m, v) <==> used_in_first(s, idx as int, v as int, k + 1)) by {
                    lemma_bit_or_shift(m0, a as u16, v);
                    lemma_bit_or_shift(m1, b as u16, v);
                    lemma_bit_or_shift(m2, d as u16, v);
                    if used_in_first(s, idx as int, v as int, k + 1) {
                        let (t, kk) = choose|t: int, kk: int|
                            0 <= t < 3 && 0 <= kk < k + 1 && #[trigger] s[unit_cell(t, unit_of(t, idx as int), kk)] == v;
                        if kk < k {
                            assert(used_in_first(s, idx as int, v as int, k as int));
                        }
                    }
                    if v == a {
                        assert(s[unit_cell(0, unit_of(0, idx as int), k as int)] == v);
                    }
                    if v == b {
                        assert(s[unit_cell(1, unit_of(1, idx as int), k as int)] == v);
                    }
                    if v == d {
                        assert(s[unit_cell(2, unit_of(2, idx as int), k as int)] == v);
                    }
                    if used_in_first(s, idx as int, v as int, k as int) {
                        let (t, kk) = choose|t: int, kk: int|
                            0 <= t < 3 && 0 <= kk < k && #[trigger] s[unit_cell(t, unit_of(t, idx as int), kk)] == v;
                        assert(s[unit_cell(t, unit_of(t, idx as int), kk)] == v);
                    }
                }
            }
            k += 1;
        }
        m
    }
}

} // verus!
