use vstd::prelude::*;
use crate::board::Board;
use crate::text::push_char;

verus! {

pub open spec fn top_border() -> Seq<char> {
    "┌───────┬───────┬───────┐"@
}

pub open spec fn middle_border() -> Seq<char> {
    "├───────┼───────┼───────┤"@
}

pub open spec fn bottom_border() -> Seq<char> {
    "└───────┴───────┴───────┘"@
}

/// How a cell is drawn: `·` when empty, else its digit.
pub open spec fn glyph(v: u8) -> char {
    if v == 0 {
        '·'
    } else {
        ((48 + v) as u8) as char
    }
}

/// The first `c` cells of row `r` as drawn after the left border: each cell after a
/// space, and ` │` after every third.
pub open spec fn row_prefix(s: Seq<u8>, r: int, c: int) -> Seq<char>
    decreases c,
{
    if c <= 0 {
        seq!['│']
    } else {
        let p = row_prefix(s, r, c - 1).push(' ').push(glyph(s[r * 9 + c - 1]));
        if (c - 1) % 3 == 2 {
            p.push(' ').push('│')
        } else {
            p
        }
    }
}

/// Row `r` of the grid, such as `│ 5 3 · │ · 7 · │ · · · │`.
pub open spec fn row_text(s: Seq<u8>, r: int) -> Seq<char> {
    row_prefix(s, r, 9)
}

/// The 13 lines of the drawn grid: borders, and the nine rows with a rule after
/// every third.
pub open spec fn grid_text(s: Seq<u8>) -> Seq<Seq<char>> {
    seq![
        top_border(),
        row_text(s, 0),
        row_text(s, 1),
        row_text(s, 2),
        middle_border(),
        row_text(s, 3),
        row_text(s, 4),
        row_text(s, 5),
        middle_border(),
        row_text(s, 6),
        row_text(s, 7),
        row_text(s, 8),
        bottom_border(),
    ]
}

/// Where row `r` stands among the lines of the grid.
pub open spec fn row_line(r: int) -> int {
    1 + r + r / 3
}

pub proof fn lemma_grid_rows(s: Seq<u8>, r: int)
    requires
        0 <= r < 9,
    ensures
        grid_text(s)[row_line(r)] == row_text(s, r),
        r % 3 == 2 && r != 8 ==> grid_text(s)[row_line(r) + 1] == middle_border(),
        r == 8 ==> grid_text(s)[12] == bottom_border(),
        grid_text(s)[0] == top_border(),
        grid_text(s).len() == 13,
{
    let g = grid_text(s);
    if r == 0 {
        assert(g[1] == row_text(s, 0));
    } else if r == 1 {
        assert(g[2] == row_text(s, 1));
    } else if r == 2 {
        assert(g[3] == row_text(s, 2));
        assert(g[4] == middle_border());
    } else if r == 3 {
        assert(g[5] == row_text(s, 3));
    } else if r == 4 {
        assert(g[6] == row_text(s, 4));
    } else if r == 5 {
        assert(g[7] == row_text(s, 5));
        assert(g[8] == middle_border());
    } else if r == 6 {
        assert(g[9] == row_text(s, 6));
    } else if r == 7 {
        assert(g[10] == row_text(s, 7));
    } else {
        assert(g[11] == row_text(s, 8));
        assert(g[12] == bottom_border());
    }
}

/// Plain-text grid with the 3x3 box separators.
pub fn grid_lines(b: &Board) -> (out: Vec<String>)
    requires
        forall|i: int| 0 <= i < 81 ==> #[trigger] b.cells@[i] <= 207,
    ensures
        out@.len() == 13,
        forall|j: int| 0 <= j < 13 ==> #[trigger] out@[j]@ == grid_text(b.cells@)[j],
{
    let ghost s = b.cells@;
    let top = "┌───────┬───────┬───────┐";
    let mid = "├───────┼───────┼───────┤";
    let bot = "└───────┴───────┴───────┘";
    let mut out: Vec<String> = Vec::new();
    let first = top.to_string();
    assert(first@ == top_border());
    out.push(first);
    proof {
        lemma_grid_rows(s, 0);
    }
    let mut r: usize = 0;
    while r < 9
        invariant
            s == b.cells@,
            mid@ == middle_border(),
            forall|i: int| 0 <= i < 81 ==> #[trigger] s[i] <= 207,
            r <= 9,
            out@.len() == if r == 9 {
                12
            } else {
                row_line(r as int)
            },
            forall|j: int| 0 <= j < out@.len() ==> #[trigger] out@[j]@ == grid_text(s)[j],
        decreases 9 - r,
    {
        let mut line = String::from_str("│");
        proof {
            reveal_strlit("│");
            assert(line@ =~= row_prefix(s, r as int, 0));
        }
        let mut c: usize = 0;
        while c < 9
            invariant
                s == b.cells@,
                forall|i: int| 0 <= i < 81 ==> #[trigger] s[i] <= 207,
                r < 9,
                c <= 9,
                line@ == row_prefix(s, r as int, c as int),
            decreases 9 - c,
        {
            let v = b.get(r, c);
            push_char(&mut line, ' ');
            push_char(
                &mut line,
                if v == 0 {
                    '·'
                } else {
                    (48u8 + v) as char
                },
            );
            if c % 3 == 2 {
                line.append(" │");
                proof {
                    reveal_strlit(" │");
                }
            }
            proof {
                assert(line@ =~= row_prefix(s, r as int, c + 1));
            }
            c += 1;
        }
        assert(line@ == row_text(s, r as int));
        proof {
            lemma_grid_rows(s, r as int);
        }
        let ghost before = out@;
        out.push(line);
        proof {
            assert forall|j: int| 0 <= j < out@.len() implies #[trigger] out@[j]@ == grid_text(s)[j] by {
                if j < before.len() {
                    assert(out@[j] == before[j]);
                }
            }
        }
        if r % 3 == 2 && r != 8 {
            let ghost before2 = out@;
            let m = mid.to_string();
            assert(m@ == middle_border());
            out.push(m);
            proof {
                assert forall|j: int| 0 <= j < out@.len() implies #[trigger] out@[j]@ == grid_text(s)[j] by {
                    if j < before2.len() {
                        assert(out@[j] == before2[j]);
                    }
                }
            }
        }
        r += 1;
    }
    proof {
        lemma_grid_rows(s, 8);
    }
    let ghost before = out@;
    let last = bot.to_string();
    assert(last@ == bottom_border());
    out.push(last);
    proof {
        assert forall|j: int| 0 <= j < 13 implies #[trigger] out@[j]@ == grid_text(s)[j] by {
            if j < 12 {
                assert(out@[j] == before[j]);
            }
        }
    }
    out
}

} // verus!
