use vstd::prelude::*;
use crate::board::Board;
use crate::generator::{clues_for, generate};
use crate::model::is_solution;
use crate::rng::Rng;
use crate::solver::{apply_step, places, replay, search, solve_trace, steps_in_range, Step};
use crate::render::{
    bottom_border, glyph, grid_text, lemma_grid_rows, middle_border, row_prefix, top_border,
};
use crate::text::{decimal, push_char, push_decimal};

verus! {

/// The cell that a step touches.
pub open spec fn step_cell(st: Step) -> usize {
    match st {
        Step::Place(i, _) => i,
        Step::Erase(i) => i,
    }
}

/// The characters the player acts on (all but `q`, which quits).
pub open spec fn acts_on(c: char) -> bool {
    c == ' ' || c == 'n' || c == 'r' || c == 's' || c == '+' || c == '=' || c == '-' || c == '_'
        || c == '1' || c == '2' || c == '3' || c == '4'
}

/// A key press, as far as the player tells keys apart.
#[derive(Clone, Copy, PartialEq, Eq, Debug)]
pub enum Key {
    Char(char),
    Esc,
    Other,
}

/// How a cell is drawn.
#[derive(Clone, Copy, PartialEq, Eq, Debug)]
pub enum CellKind {
    /// The cell the last step touched, now empty (a backtrack).
    LastErased,
    /// The cell the last step touched, now filled.
    LastPlaced,
    Empty,
    Given,
    Placed,
}

/// The animated replay of a solve: a generated puzzle, the search steps that solve it,
/// and how far the replay has got.
pub struct App {
    given: [bool; 81],
    start: Board,
    board: Board,
    steps: Vec<Step>,
    pos: usize,
    playing: bool,
    delay_ms: u64,
    placed: usize,
    backtracks: usize,
    last: Option<usize>,
    diff: String,
    seed: u64,
}

impl App {
    /// The puzzle, with only its givens.
    pub closed spec fn start_cells(&self) -> Seq<u8> {
        self.start.cells@
    }

    /// What the screen shows now.
    pub closed spec fn board_cells(&self) -> Seq<u8> {
        self.board.cells@
    }

    pub closed spec fn trace(&self) -> Seq<Step> {
        self.steps@
    }

    pub closed spec fn position(&self) -> nat {
        self.pos as nat
    }

    pub closed spec fn is_playing(&self) -> bool {
        self.playing
    }

    pub closed spec fn delay(&self) -> u64 {
        self.delay_ms
    }

    pub closed spec fn placed_count(&self) -> nat {
        self.placed as nat
    }

    pub closed spec fn backtrack_count(&self) -> nat {
        self.backtracks as nat
    }

    pub closed spec fn last_cell(&self) -> Option<usize> {
        self.last
    }

    pub closed spec fn difficulty(&self) -> Seq<char> {
        self.diff@
    }

    pub closed spec fn seed_value(&self) -> u64 {
        self.seed
    }

    pub closed spec fn given_cells(&self) -> Seq<bool> {
        self.given@
    }

    /// `other` has the same puzzle, trace, delay, difficulty, seed and given flags.
    pub open spec fn same_setup(&self, other: &App) -> bool {
        &&& self.start_cells() == other.start_cells()
        &&& self.trace() == other.trace()
        &&& self.delay() == other.delay()
        &&& self.difficulty() == other.difficulty()
        &&& self.seed_value() == other.seed_value()
        &&& self.given_cells() == other.given_cells()
    }

    /// `other` is at the same point of the replay: same board, position, counters and
    /// last cell.
    pub open spec fn same_progress(&self, other: &App) -> bool {
        &&& self.board_cells() == other.board_cells()
        &&& self.position() == other.position()
        &&& self.placed_count() == other.placed_count()
        &&& self.backtrack_count() == other.backtrack_count()
        &&& self.last_cell() == other.last_cell()
    }

    /// The replay is back at its start, playing.
    pub open spec fn at_start(&self) -> bool {
        &&& self.board_cells() == self.start_cells()
        &&& self.position() == 0
        &&& self.placed_count() == 0
        &&& self.backtrack_count() == 0
        &&& self.last_cell() is None
        &&& self.is_playing()
    }

    /// The whole trace has been replayed from `before`: the board is the solution the
    /// trace ends in, the counters count the whole trace, and the last cell is that of
    /// the last step replayed (unchanged when nothing was left to replay).
    pub open spec fn replayed_from(&self, before: &App) -> bool {
        &&& self.position() == self.trace().len()
        &&& self.board_cells() == replay(self.start_cells(), self.trace())
        &&& is_solution(self.start_cells(), self.board_cells())
        &&& self.placed_count() == places(self.trace())
        &&& self.placed_count() + self.backtrack_count() == self.trace().len()
        &&& self.last_cell() == if before.position() < before.trace().len() {
            Some(step_cell(self.trace().last()))
        } else {
            before.last_cell()
        }
        &&& self.is_playing() == before.is_playing()
    }

    /// Exactly the filled cells of the puzzle are drawn as givens.
    pub open spec fn givens_match(&self) -> bool {
        forall|i: int| 0 <= i < 81 ==> #[trigger] self.given_cells()[i] == (self.start_cells()[i] != 0)
    }

    /// The player as [`App::new`] builds it from `seed` and `diff`: the generated puzzle,
    /// the search that solves it, the replay at its start, playing, 35 ms per step.
    pub open spec fn is_fresh(&self, seed: u64, diff: Seq<char>) -> bool {
        &&& self.wf()
        &&& self.givens_match()
        &&& self.position() == 0
        &&& self.board_cells() == self.start_cells()
        &&& self.is_playing()
        &&& self.delay() == 35
        &&& self.placed_count() == 0
        &&& self.backtrack_count() == 0
        &&& self.last_cell() is None
        &&& self.difficulty() == diff
        &&& self.seed_value() == seed
        &&& self.start_cells() == crate::generator::generated(
            crate::rng::start_state(seed),
            crate::generator::clues_for_spec(diff) as int,
        ).0
        &&& self.trace() == search(self.start_cells()).2
    }

    /// The screen shows the puzzle with the first `pos` steps applied, the counters
    /// count those steps, and the whole trace ends in a solution of the puzzle.
    pub closed spec fn wf(&self) -> bool {
        &&& self.start.wf()
        &&& self.board.wf()
        &&& self.pos <= self.steps@.len()
        &&& steps_in_range(self.steps@)
        &&& self.board.cells@ == replay(self.start.cells@, self.steps@.take(self.pos as int))
        &&& is_solution(self.start.cells@, replay(self.start.cells@, self.steps@))
        &&& forall|i: int| 0 <= i < 81 ==> #[trigger] self.given@[i] == (self.start.cells@[i] != 0)
        &&& self.placed == places(self.steps@.take(self.pos as int))
        &&& self.placed + self.backtracks == self.pos
        &&& 1 <= self.delay_ms <= 400
        &&& self.last matches Some(i) ==> i < 81
    }

    /// What the screen shows is always the puzzle with the first `position` steps of the
    /// trace applied, and the whole trace ends in a solution of the puzzle.
    pub proof fn lemma_screen_is_replay(&self)
        requires
            self.wf(),
        ensures
            self.position() <= self.trace().len(),
            self.board_cells() == replay(self.start_cells(), self.trace().take(self.position() as int)),
            is_solution(self.start_cells(), replay(self.start_cells(), self.trace())),
            self.placed_count() + self.backtrack_count() == self.position(),
    {
    }

    /// Generates a puzzle of the named difficulty from a generator seeded with `seed`
    /// (the puzzle [`generate`](crate::generator::generate) builds) and records the
    /// search that solves it; the replay starts at the beginning, playing.
    pub fn new(seed: u64, diff: &str) -> (app: App)
        ensures
            app.is_fresh(seed, diff@),
            crate::model::clues(app.start_cells()) >= crate::generator::clues_for_spec(diff@),
            crate::model::solutions(app.start_cells()).len() == 1,
            crate::model::clues(app.start_cells()) == crate::generator::clues_for_spec(diff@)
                || crate::generator::minimal(app.start_cells()),
    {
        let mut r = Rng::new(seed);
        let p = generate(&mut r, clues_for(diff));
        let mut given = [false; 81];
        let mut i: usize = 0;
        while i < 81
            invariant
                i <= 81,
                forall|j: int| 0 <= j < i ==> #[trigger] given@[j] == (p.board.cells@[j] != 0),
            decreases 81 - i,
        {
            given[i] = p.board.cells[i] != 0;
            i += 1;
        }
        let mut trace = p.board;
        let mut steps: Vec<Step> = Vec::new();
        proof {
            assert(crate::model::solutions(p.board.cells@).contains(p.solution.cells@));
        }
        solve_trace(&mut trace, &mut steps);
        proof {
            assert(steps@.skip(0) =~= steps@);
            assert(steps@.take(0) =~= Seq::<Step>::empty());
            set![p.solution.cells@].lemma_singleton_size();
        }
        App {
            given,
            start: p.board,
            board: p.board,
            steps,
            pos: 0,
            playing: true,
            delay_ms: 35,
            placed: 0,
            backtracks: 0,
            last: None,
            diff: String::from_str(diff),
            seed,
        }
    }

    /// Applies the next step of the trace; at the end of the trace, stops playing.
    pub fn step(&mut self)
        requires
            old(self).wf(),
        ensures
            final(self).wf(),
            final(self).givens_match(),
            old(self).position() >= old(self).trace().len() ==> {
                &&& !final(self).is_playing()
                &&& final(self).position() == old(self).position()
                &&& final(self).board_cells() == old(self).board_cells()
                &&& final(self).last_cell() == old(self).last_cell()
                &&& final(self).placed_count() == old(self).placed_count()
                &&& final(self).backtrack_count() == old(self).backtrack_count()
            },
            old(self).position() < old(self).trace().len() ==> {
                let st = old(self).trace()[old(self).position() as int];
                &&& final(self).position() == old(self).position() + 1
                &&& final(self).board_cells() == apply_step(old(self).board_cells(), st)
                &&& final(self).last_cell() == Some(step_cell(st))
                &&& final(self).placed_count() == old(self).placed_count() + if st is Place {
                    1nat
                } else {
                    0nat
                }
                &&& final(self).backtrack_count() == old(self).backtrack_count() + if st is Erase {
                    1nat
                } else {
                    0nat
                }
                &&& final(self).is_playing() == old(self).is_playing()
            },
            final(self).start_cells() == old(self).start_cells(),
            final(self).trace() == old(self).trace(),
            final(self).delay() == old(self).delay(),
            final(self).difficulty() == old(self).difficulty(),
            final(self).seed_value() == old(self).seed_value(),
            final(self).given_cells() == old(self).given_cells(),
    {
        if self.pos >= self.steps.len() {
            self.playing = false;
            return;
        }
        let ghost before = self.steps@.take(self.pos as int);
        proof {
            assert(self.steps@.take(self.pos + 1) =~= before.push(self.steps@[self.pos as int]));
            assert(self.steps@.take(self.pos + 1).drop_last() =~= before);
        }
        match self.steps[self.pos] {
            Step::Place(i, v) => {
                self.board.cells[i] = v;
                self.placed += 1;
                self.last = Some(i);
            },
            Step::Erase(i) => {
                self.board.cells[i] = 0;
                self.backtracks += 1;
                self.last = Some(i);
            },
        }
        self.pos += 1;
    }

    /// Back to the puzzle and the start of the trace, playing.
    pub fn reset(&mut self)
        requires
            old(self).wf(),
        ensures
            final(self).wf(),
            final(self).givens_match(),
            final(self).board_cells() == old(self).start_cells(),
            final(self).position() == 0,
            final(self).placed_count() == 0,
            final(self).backtrack_count() == 0,
            final(self).last_cell() is None,
            final(self).is_playing(),
            final(self).start_cells() == old(self).start_cells(),
            final(self).trace() == old(self).trace(),
            final(self).delay() == old(self).delay(),
            final(self).difficulty() == old(self).difficulty(),
            final(self).seed_value() == old(self).seed_value(),
            final(self).given_cells() == old(self).given_cells(),
    {
        self.board = self.start;
        self.pos = 0;
        self.placed = 0;
        self.backtracks = 0;
        self.last = None;
        self.playing = true;
        proof {
            assert(self.steps@.take(0) =~= Seq::<Step>::empty());
        }
    }

    /// The whole trace has been replayed.
    pub fn done(&self) -> (r: bool)
        requires
            self.wf(),
        ensures
            r == (self.position() >= self.trace().len()),
    {
        self.pos >= self.steps.len()
    }

    /// Replays every remaining step: the screen then shows the solution.
    pub fn solve_all(&mut self)
        requires
            old(self).wf(),
        ensures
            final(self).wf(),
            final(self).givens_match(),
            final(self).same_setup(&*old(self)),
            final(self).replayed_from(&*old(self)),
    {
        while !self.done()
            invariant
                self.wf(),
                self.same_setup(&*old(self)),
                self.position() >= old(self).position(),
                self.is_playing() == old(self).is_playing(),
                self.last_cell() == if self.position() > old(self).position() {
                    Some(step_cell(self.trace()[self.position() - 1]))
                } else {
                    old(self).last_cell()
                },
            decreases self.trace().len() - self.position(),
        {
            self.step();
        }
        proof {
            assert(self.steps@.take(self.pos as int) =~= self.steps@);
        }
    }

    /// Shorter pause between steps: 8 ms less, at least 1 ms.
    pub fn faster(&mut self)
        requires
            old(self).wf(),
        ensures
            final(self).wf(),
            final(self).givens_match(),
            final(self).delay() == if old(self).delay() > 9 {
                (old(self).delay() - 8) as u64
            } else {
                1u64
            },
            final(self).board_cells() == old(self).board_cells(),
            final(self).position() == old(self).position(),
            final(self).is_playing() == old(self).is_playing(),
            final(self).start_cells() == old(self).start_cells(),
            final(self).trace() == old(self).trace(),
            final(self).last_cell() == old(self).last_cell(),
            final(self).placed_count() == old(self).placed_count(),
            final(self).backtrack_count() == old(self).backtrack_count(),
            final(self).difficulty() == old(self).difficulty(),
            final(self).seed_value() == old(self).seed_value(),
            final(self).given_cells() == old(self).given_cells(),
    {
        let d = self.delay_ms.saturating_sub(8);
        self.delay_ms = if d < 1 {
            1
        } else {
            d
        };
    }

    /// Longer pause between steps: 8 ms more, at most 400 ms.
    pub fn slower(&mut self)
        requires
            old(self).wf(),
        ensures
            final(self).wf(),
            final(self).givens_match(),
            final(self).delay() == if old(self).delay() + 8 < 400 {
                (old(self).delay() + 8) as u64
            } else {
                400u64
            },
            final(self).board_cells() == old(self).board_cells(),
            final(self).position() == old(self).position(),
            final(self).is_playing() == old(self).is_playing(),
            final(self).start_cells() == old(self).start_cells(),
            final(self).trace() == old(self).trace(),
            final(self).last_cell() == old(self).last_cell(),
            final(self).placed_count() == old(self).placed_count(),
            final(self).backtrack_count() == old(self).backtrack_count(),
            final(self).difficulty() == old(self).difficulty(),
            final(self).seed_value() == old(self).seed_value(),
            final(self).given_cells() == old(self).given_cells(),
    {
        let d = self.delay_ms + 8;
        self.delay_ms = if d > 400 {
            400
        } else {
            d
        };
    }

    /// Whether the next step is due, `elapsed_ms` after the last one: while playing,
    /// once the step delay has passed.
    pub fn should_step(&self, elapsed_ms: u128) -> (due: bool)
        requires
            self.wf(),
        ensures
            due == (self.is_playing() && elapsed_ms >= self.delay()),
    {
        self.playing && elapsed_ms >= self.delay_ms as u128
    }

    /// How long to wait for a key before the next tick: the step delay while playing,
    /// else 120 ms.
    pub fn wait_ms(&self) -> (ms: u64)
        requires
            self.wf(),
        ensures
            ms == if self.is_playing() {
                self.delay()
            } else {
                120u64
            },
    {
        if self.playing {
            if self.delay_ms < 1 {
                1
            } else {
                self.delay_ms
            }
        } else {
            120
        }
    }

    /// Acts on a key press; returns whether the player should quit.
    /// `space` play/pause, `n` new puzzle, `r` reset, `s` solve, `+`/`=` faster,
    /// `-`/`_` slower, `1`-`4` difficulty easy..expert, `q`/`Esc` quit.
    pub fn handle_key(&mut self, key: Key) -> (quit: bool)
        requires
            old(self).wf(),
        ensures
            final(self).wf(),
            final(self).givens_match(),
            quit == (key == Key::Esc || key == Key::Char('q')),
            key == Key::Char(' ') ==> final(self).is_playing() == !old(self).is_playing()
                && final(self).same_setup(&*old(self)) && final(self).same_progress(&*old(self)),
            key == Key::Char('r') ==> final(self).at_start() && final(self).same_setup(&*old(self)),
            key == Key::Char('s') ==> final(self).same_setup(&*old(self)) && final(self).replayed_from(&*old(self)),
            key == Key::Char('n') ==> final(self).is_fresh(
                old(self).seed_value().wrapping_add(0x9e37),
                old(self).difficulty(),
            ),
            key == Key::Char('1') ==> final(self).is_fresh(old(self).seed_value(), "easy"@),
            key == Key::Char('2') ==> final(self).is_fresh(old(self).seed_value(), "medium"@),
            key == Key::Char('3') ==> final(self).is_fresh(old(self).seed_value(), "hard"@),
            key == Key::Char('4') ==> final(self).is_fresh(old(self).seed_value(), "expert"@),
            (key == Key::Char('+') || key == Key::Char('=')) ==> final(self).delay() == (if old(self).delay() > 9 {
                (old(self).delay() - 8) as u64
            } else {
                1u64
            }),
            (key == Key::Char('-') || key == Key::Char('_')) ==> final(self).delay() == (if old(self).delay() + 8 < 400 {
                (old(self).delay() + 8) as u64
            } else {
                400u64
            }),
            (key == Key::Char('+') || key == Key::Char('=') || key == Key::Char('-') || key
                == Key::Char('_')) ==> final(self).same_progress(&*old(self)) && final(self).is_playing() == old(self).is_playing() && final(self).start_cells() == old(self).start_cells() && final(self).trace() == old(self).trace() && final(self).difficulty()
                == old(self).difficulty() && final(self).seed_value() == old(self).seed_value()
                && final(self).given_cells() == old(self).given_cells(),
            (key == Key::Other || key == Key::Esc || (key matches Key::Char(c) && !acts_on(c)))
                ==> *final(self) == *old(self),
    {
        match key {
            Key::Esc => true,
            Key::Other => false,
            Key::Char(c) => {
                if c == 'q' {
                    return true;
                } else if c == ' ' {
                    self.playing = !self.playing;
                } else if c == 'n' {
                    let next = App::new(self.seed.wrapping_add(0x9e37), self.diff.as_str());
                    *self = next;
                } else if c == 'r' {
                    self.reset();
                } else if c == 's' {
                    self.solve_all();
                } else if c == '+' || c == '=' {
                    self.faster();
                } else if c == '-' || c == '_' {
                    self.slower();
                } else if c == '1' {
                    *self = App::new(self.seed, "easy");
                } else if c == '2' {
                    *self = App::new(self.seed, "medium");
                } else if c == '3' {
                    *self = App::new(self.seed, "hard");
                } else if c == '4' {
                    *self = App::new(self.seed, "expert");
                }
                false
            },
        }
    }

    /// How cell `i` is drawn (see [`App::cell_kind`]).
    pub open spec fn kind_of(&self, i: int) -> CellKind {
        if self.last_cell() == Some(i as usize) {
            if self.board_cells()[i] == 0 {
                CellKind::LastErased
            } else {
                CellKind::LastPlaced
            }
        } else if self.board_cells()[i] == 0 {
            CellKind::Empty
        } else if self.given_cells()[i] {
            CellKind::Given
        } else {
            CellKind::Placed
        }
    }

    /// Apart from the cell of the last step, a filled cell is drawn as a given exactly
    /// when the puzzle has a digit there, and as a placement of the solver exactly when
    /// the puzzle leaves it empty; an empty cell is drawn empty.
    pub proof fn lemma_kind_of_cell(&self, i: int)
        requires
            self.wf(),
            0 <= i < 81,
        ensures
            self.last_cell() == Some(i as usize) ==> (self.kind_of(i) == CellKind::LastErased
                <==> self.board_cells()[i] == 0),
            self.last_cell() == Some(i as usize) ==> (self.kind_of(i) == CellKind::LastErased
                || self.kind_of(i) == CellKind::LastPlaced),
            self.last_cell() != Some(i as usize) && self.board_cells()[i] == 0 ==> self.kind_of(i)
                == CellKind::Empty,
            self.last_cell() != Some(i as usize) && self.board_cells()[i] != 0 ==> (self.kind_of(i)
                == CellKind::Given <==> self.start_cells()[i] != 0),
            self.last_cell() != Some(i as usize) && self.board_cells()[i] != 0 ==> (self.kind_of(i)
                == CellKind::Placed <==> self.start_cells()[i] == 0),
    {
        assert(self.given@[i] == (self.start.cells@[i] != 0));
    }

    /// The pieces of line `j` of the drawn grid (see [`App::grid_pieces`]).
    pub open spec fn line_pieces(&self, j: int) -> Seq<(Seq<char>, Option<CellKind>)> {
        if j == 0 {
            seq![(top_border(), None)]
        } else if j == 4 || j == 8 {
            seq![(middle_border(), None)]
        } else if j == 12 {
            seq![(bottom_border(), None)]
        } else {
            let r = j - 1 - (j - 1) / 4;
            Seq::new(13, |p: int| self.row_piece(r, p))
        }
    }

    /// Piece `p` of row `r`: the left border, then each cell (a space and its glyph, with
    /// how it is drawn), with ` │` after every third cell.
    pub open spec fn row_piece(&self, r: int, p: int) -> (Seq<char>, Option<CellKind>) {
        if p == 0 {
            (seq!['│'], None)
        } else if p % 4 == 0 {
            (seq![' ', '│'], None)
        } else {
            let c = p - 1 - p / 4;
            (seq![' ', glyph(self.board_cells()[r * 9 + c])], Some(self.kind_of(r * 9 + c)))
        }
    }

    /// The grid as 13 lines of pieces, each a text and, for a cell, how it is drawn: the
    /// borders, and each row as the left border, its cells and the box separators.
    pub fn grid_pieces(&self) -> (out: Vec<Vec<(String, Option<CellKind>)>>)
        requires
            self.wf(),
        ensures
            out@.len() == 13,
            forall|j: int| 0 <= j < 13 ==> #[trigger] out@[j]@.len() == self.line_pieces(j).len(),
            forall|j: int, p: int|
                0 <= j < 13 && 0 <= p < out@[j]@.len() ==> (#[trigger] out@[j]@[p]).0@ == self.line_pieces(j)[p].0
                    && out@[j]@[p].1 == self.line_pieces(j)[p].1,
    {
        let mut out: Vec<Vec<(String, Option<CellKind>)>> = Vec::new();
        let mut j: usize = 0;
        while j < 13
            invariant
                self.wf(),
                j <= 13,
                out@.len() == j,
                forall|jj: int| 0 <= jj < j ==> #[trigger] out@[jj]@.len() == self.line_pieces(jj).len(),
                forall|jj: int, p: int|
                    0 <= jj < j && 0 <= p < out@[jj]@.len() ==> (#[trigger] out@[jj]@[p]).0@ == self.line_pieces(jj)[p].0
                        && out@[jj]@[p].1 == self.line_pieces(jj)[p].1,
            decreases 13 - j,
        {
            let mut line: Vec<(String, Option<CellKind>)> = Vec::new();
            if j == 0 {
                line.push((String::from_str("┌───────┬───────┬───────┐"), None));
            } else if j == 4 || j == 8 {
                line.push((String::from_str("├───────┼───────┼───────┤"), None));
            } else if j == 12 {
                line.push((String::from_str("└───────┴───────┴───────┘"), None));
            } else {
                let r = j - 1 - (j - 1) / 4;
                let mut p: usize = 0;
                while p < 13
                    invariant
                        self.wf(),
                        1 <= j < 12,
                        j != 4 && j != 8,
                        r == j - 1 - (j - 1) / 4,
                        p <= 13,
                        line@.len() == p,
                        forall|pp: int| 0 <= pp < p ==> (#[trigger] line@[pp]).0@ == self.line_pieces(j as int)[pp].0
                            && line@[pp].1 == self.line_pieces(j as int)[pp].1,
                    decreases 13 - p,
                {
                    if p == 0 {
                        let t = String::from_str("│");
                        proof {
                            reveal_strlit("│");
                        }
                        line.push((t, None));
                    } else if p % 4 == 0 {
                        let t = String::from_str(" │");
                        proof {
                            reveal_strlit(" │");
                        }
                        line.push((t, None));
                    } else {
                        let c = p - 1 - p / 4;
                        let i = r * 9 + c;
                        let v = self.board.cells[i];
                        let mut t = String::new();
                        push_char(&mut t, ' ');
                        push_char(
                            &mut t,
                            if v == 0 {
                                '·'
                            } else {
                                (48u8 + v) as char
                            },
                        );
                        let k = self.cell_kind(i);
                        assert(t@ =~= seq![' ', glyph(self.board_cells()[i as int])]);
                        line.push((t, Some(k)));
                    }
                    p += 1;
                }
            }
            out.push(line);
            j += 1;
        }
        out
    }

    /// How cell `i` is drawn: the cell of the last step stands out (as a backtrack when
    /// it is now empty); otherwise empty cells, givens and placed digits differ.
    pub fn cell_kind(&self, i: usize) -> (k: CellKind)
        requires
            self.wf(),
            i < 81,
        ensures
            k == self.kind_of(i as int),
            self.last_cell() == Some(i) ==> (k == CellKind::LastErased <==> self.board_cells()[i as int] == 0),
            self.last_cell() == Some(i) ==> (k == CellKind::LastErased || k == CellKind::LastPlaced),
            self.last_cell() != Some(i) && self.board_cells()[i as int] == 0 ==> k == CellKind::Empty,
            self.last_cell() != Some(i) && self.board_cells()[i as int] != 0 ==> (k == CellKind::Given
                <==> self.start_cells()[i as int] != 0),
            self.last_cell() != Some(i) && self.board_cells()[i as int] != 0 ==> (k == CellKind::Placed
                <==> self.start_cells()[i as int] == 0),
    {
        proof {
            self.lemma_kind_of_cell(i as int);
        }
        let v = self.board.cells[i];
        let is_last = match self.last {
            Some(l) => l == i,
            None => false,
        };
        if is_last {
            if v == 0 {
                CellKind::LastErased
            } else {
                CellKind::LastPlaced
            }
        } else if v == 0 {
            CellKind::Empty
        } else if self.given[i] {
            CellKind::Given
        } else {
            CellKind::Placed
        }
    }

    /// The heading line: difficulty, number of givens, placements and backtracks so far,
    /// as in `hard · 27 clues · placed 40 · backtracks 12`.
    pub fn header(&self) -> (h: String)
        requires
            self.wf(),
        ensures
            h@ == self.difficulty() + " · "@ + decimal(crate::model::clues(self.start_cells()))
                + " clues · placed "@ + decimal(self.placed_count()) + " · backtracks "@ + decimal(
                self.backtrack_count(),
            ),
    {
        let mut h = String::from_str(self.diff.as_str());
        h.append(" · ");
        push_decimal(&mut h, self.start.clue_count());
        h.append(" clues · placed ");
        push_decimal(&mut h, self.placed);
        h.append(" · backtracks ");
        push_decimal(&mut h, self.backtracks);
        h
    }

    /// The status line: `solved ✓` once the trace is replayed, else
    /// `solving…  step <pos>/<steps>` while playing, else `paused`.
    pub fn status(&self) -> (t: String)
        requires
            self.wf(),
        ensures
            t@ == if self.position() >= self.trace().len() {
                "solved ✓"@
            } else if self.is_playing() {
                "solving…  step "@ + decimal(self.position()) + "/"@ + decimal(self.trace().len())
            } else {
                "paused"@
            },
    {
        if self.done() {
            String::from_str("solved ✓")
        } else if self.playing {
            let mut t = String::from_str("solving…  step ");
            push_decimal(&mut t, self.pos);
            t.append("/");
            push_decimal(&mut t, self.steps.len());
            t
        } else {
            String::from_str("paused")
        }
    }

    /// The board on screen.
    pub fn board(&self) -> (b: &Board)
        ensures
            b.cells@ == self.board_cells(),
    {
        &self.board
    }

    /// The number of givens of the puzzle.
    pub fn start_clues(&self) -> (n: usize)
        ensures
            n == crate::model::clues(self.start_cells()),
    {
        self.start.clue_count()
    }

    pub fn pos(&self) -> (n: usize)
        ensures
            n == self.position(),
    {
        self.pos
    }

    pub fn step_count(&self) -> (n: usize)
        ensures
            n == self.trace().len(),
    {
        self.steps.len()
    }

    pub fn playing(&self) -> (b: bool)
        ensures
            b == self.is_playing(),
    {
        self.playing
    }

    pub fn delay_ms(&self) -> (d: u64)
        ensures
            d == self.delay(),
    {
        self.delay_ms
    }

    pub fn placed(&self) -> (n: usize)
        ensures
            n == self.placed_count(),
    {
        self.placed
    }

    pub fn backtracks(&self) -> (n: usize)
        ensures
            n == self.backtrack_count(),
    {
        self.backtracks
    }

    pub fn diff(&self) -> (d: &str)
        ensures
            d@ == self.difficulty(),
    {
        self.diff.as_str()
    }

    pub fn seed(&self) -> (s: u64)
        ensures
            s == self.seed_value(),
    {
        self.seed
    }
}


/// A `w` by `h` area centred in the area at (`x`, `y`) of size `width` by `height`,
/// shrunk to fit; returns (x, y, width, height).
pub fn centered(x: u16, y: u16, width: u16, height: u16, w: u16, h: u16) -> (r: (u16, u16, u16, u16))
    requires
        x + (width - if w < width {
            w
        } else {
            width
        }) / 2 <= u16::MAX,
        y + (height - if h < height {
            h
        } else {
            height
        }) / 2 <= u16::MAX,
    ensures
        r.2 == if w < width {
            w
        } else {
            width
        },
        r.3 == if h < height {
            h
        } else {
            height
        },
        r.0 == x + (width - r.2) / 2,
        r.1 == y + (height - r.3) / 2,
{
    let w = if w < width {
        w
    } else {
        width
    };
    let h = if h < height {
        h
    } else {
        height
    };
    (x + (width - w) / 2, y + height.saturating_sub(h) / 2, w, h)
}


/// The texts of `pieces` joined in order.
pub open spec fn join_texts(pieces: Seq<(Seq<char>, Option<CellKind>)>) -> Seq<char>
    decreases pieces.len(),
{
    if pieces.len() == 0 {
        Seq::empty()
    } else {
        join_texts(pieces.drop_last()) + pieces.last().0
    }
}

impl App {
    proof fn lemma_row_join(&self, r: int, c: int)
        requires
            0 <= r < 9,
            0 <= c <= 9,
        ensures
            join_texts(Seq::new(13, |p: int| self.row_piece(r, p)).take(1 + c + c / 3)) == row_prefix(
                self.board_cells(),
                r,
                c,
            ),
        decreases c,
    {
        let pieces = Seq::new(13, |p: int| self.row_piece(r, p));
        if c == 0 {
            let t = pieces.take(1);
            assert(t.drop_last() =~= Seq::<(Seq<char>, Option<CellKind>)>::empty());
            assert(join_texts(t.drop_last()) == Seq::<char>::empty());
            assert(t.last() == self.row_piece(r, 0));
            assert(join_texts(t) == join_texts(t.drop_last()) + t.last().0);
            assert(join_texts(t) =~= seq!['│']);
        } else {
            self.lemma_row_join(r, c - 1);
            let q = (c - 1) / 3;
            let m = (c - 1) % 3;
            let n = 1 + (c - 1) + (c - 1) / 3;
            assert(n == 4 * q + m + 1);
            assert(n % 4 == m + 1);
            assert(n - 1 - n / 4 == c - 1);
            assert(pieces.take(n + 1).drop_last() =~= pieces.take(n));
            assert(pieces.take(n + 1).last() == self.row_piece(r, n));
            let s = self.board_cells();
            assert(join_texts(pieces.take(n + 1)) =~= row_prefix(s, r, c - 1).push(' ').push(
                glyph(s[r * 9 + c - 1]),
            ));
            if m == 2 {
                assert((n + 1) % 4 == 0);
                assert(pieces.take(n + 2).drop_last() =~= pieces.take(n + 1));
                assert(pieces.take(n + 2).last() == self.row_piece(r, n + 1));
                assert(1 + c + c / 3 == n + 2);
                assert(join_texts(pieces.take(n + 2)) =~= row_prefix(s, r, c));
            } else {
                assert(1 + c + c / 3 == n + 1);
            }
        }
    }

    /// Each line of [`App::grid_pieces`] joins to the same text as the plain grid of
    /// [`grid_lines`](crate::render::grid_lines): only the styling differs.
    pub proof fn lemma_grid_pieces_text(&self, j: int)
        requires
            0 <= j < 13,
        ensures
            join_texts(self.line_pieces(j)) == grid_text(self.board_cells())[j],
    {
        let s = self.board_cells();
        lemma_grid_rows(s, 2);
        lemma_grid_rows(s, 5);
        lemma_grid_rows(s, 8);
        if j == 0 || j == 4 || j == 8 || j == 12 {
            let ps = self.line_pieces(j);
            assert(ps.len() == 1);
            assert(ps.drop_last() =~= Seq::<(Seq<char>, Option<CellKind>)>::empty());
            assert(join_texts(ps.drop_last()) == Seq::<char>::empty());
            assert(join_texts(ps) == join_texts(ps.drop_last()) + ps.last().0);
            assert(join_texts(ps) =~= ps[0].0);
        } else {
            let r = j - 1 - (j - 1) / 4;
            assert(0 <= r < 9);
            assert(crate::render::row_line(r) == j);
            lemma_grid_rows(s, r);
            self.lemma_row_join(r, 9);
            let pieces = Seq::new(13, |p: int| self.row_piece(r, p));
            assert(pieces.take(13) =~= pieces);
            assert(self.line_pieces(j) == pieces);
        }
    }
}

} // verus!
