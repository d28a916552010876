use nonet::generator::{clues_for, generate};
use nonet::rng::Rng;
use nonet::solver::{solve_trace, Step};
use nonet::play::{centered, App, CellKind, Key};

#[test]
fn new_app_starts_at_the_puzzle() {
    let app = App::new(1, "easy");
    assert_eq!(app.pos(), 0);
    assert!(app.playing());
    assert_eq!(app.delay_ms(), 35);
    assert_eq!(app.placed(), 0);
    assert_eq!(app.backtracks(), 0);
    assert!(app.start_clues() >= 40);
    assert_eq!(app.board().clue_count(), app.start_clues());
    assert_eq!(app.diff(), "easy");
    assert_eq!(app.seed(), 1);
}

#[test]
fn stepping_to_the_end_solves() {
    let mut app = App::new(2, "hard");
    let n = app.step_count();
    for _ in 0..n {
        assert!(!app.done());
        app.step();
    }
    assert!(app.done());
    assert_eq!(app.placed() + app.backtracks(), n);
    assert_eq!(app.board().clue_count(), 81);
    assert!(app.board().is_valid());
    assert!(app.playing());
    app.step();
    assert!(!app.playing());
    assert_eq!(app.pos(), n);
}

#[test]
fn reset_goes_back_to_the_start() {
    let mut app = App::new(3, "medium");
    let start = *app.board();
    app.step();
    app.step();
    app.reset();
    assert_eq!(app.board().cells, start.cells);
    assert_eq!(app.pos(), 0);
    assert_eq!(app.placed(), 0);
}

#[test]
fn keys_drive_the_player() {
    let mut app = App::new(4, "medium");
    assert!(!app.handle_key(Key::Char(' ')));
    assert!(!app.playing());
    assert!(!app.handle_key(Key::Char('s')));
    assert!(app.done());
    assert_eq!(app.board().clue_count(), 81);
    assert!(!app.handle_key(Key::Char('+')));
    assert_eq!(app.delay_ms(), 27);
    for _ in 0..10 {
        app.handle_key(Key::Char('='));
    }
    assert_eq!(app.delay_ms(), 1);
    for _ in 0..60 {
        app.handle_key(Key::Char('-'));
    }
    assert_eq!(app.delay_ms(), 400);
    assert!(!app.handle_key(Key::Char('r')));
    assert_eq!(app.pos(), 0);
    assert!(!app.handle_key(Key::Char('1')));
    assert_eq!(app.diff(), "easy");
    assert_eq!(app.seed(), 4);
    assert!(!app.handle_key(Key::Char('n')));
    assert_eq!(app.seed(), 4 + 0x9e37);
    assert_eq!(app.diff(), "easy");
    assert!(!app.handle_key(Key::Other));
    assert!(app.handle_key(Key::Char('q')));
    assert!(app.handle_key(Key::Esc));
}

#[test]
fn cells_are_drawn_by_kind() {
    let mut app = App::new(5, "expert");
    let first_given = (0..81).find(|&i| app.board().cells[i] != 0).unwrap();
    let first_empty = (0..81).find(|&i| app.board().cells[i] == 0).unwrap();
    assert_eq!(app.cell_kind(first_given), CellKind::Given);
    assert_eq!(app.cell_kind(first_empty), CellKind::Empty);
    app.step();
    let touched = (0..81).find(|&i| matches!(app.cell_kind(i), CellKind::LastPlaced)).unwrap();
    assert_ne!(app.board().cells[touched], 0);
}

#[test]
fn wait_follows_play_state() {
    let mut app = App::new(6, "easy");
    assert_eq!(app.wait_ms(), 35);
    app.handle_key(Key::Char(' '));
    assert_eq!(app.wait_ms(), 120);
}

#[test]
fn centered_area() {
    assert_eq!(centered(0, 0, 100, 40, 50, 22), (25, 9, 50, 22));
    assert_eq!(centered(2, 3, 30, 10, 50, 22), (2, 3, 30, 10));
    assert_eq!(centered(0, 0, 51, 23, 50, 22), (0, 0, 50, 22));
}

#[test]
fn header_and_status_text() {
    let mut app = App::new(8, "hard");
    let clues = app.start_clues();
    assert_eq!(app.header(), format!("hard · {clues} clues · placed 0 · backtracks 0"));
    assert_eq!(app.status(), format!("solving…  step 0/{}", app.step_count()));
    app.step();
    assert_eq!(app.header(), format!("hard · {clues} clues · placed 1 · backtracks 0"));
    app.handle_key(Key::Char(' '));
    assert_eq!(app.status(), "paused");
    app.handle_key(Key::Char('s'));
    assert_eq!(app.status(), "solved ✓");
}

#[test]
fn new_app_matches_generate_and_the_search() {
    let p = generate(&mut Rng::new(10), clues_for("medium"));
    let app = App::new(10, "medium");
    assert_eq!(app.board().cells, p.board.cells);
    let mut b = p.board;
    let mut steps: Vec<Step> = Vec::new();
    solve_trace(&mut b, &mut steps);
    assert_eq!(app.step_count(), steps.len());
}

#[test]
fn grid_pieces_follow_the_board() {
    let mut app = App::new(12, "easy");
    app.step();
    let lines = app.grid_pieces();
    assert_eq!(lines.len(), 13);
    assert_eq!(lines[0], vec![("┌───────┬───────┬───────┐".to_string(), None)]);
    assert_eq!(lines[4][0].0, "├───────┼───────┼───────┤");
    assert_eq!(lines[12][0].0, "└───────┴───────┴───────┘");
    for r in 0..9 {
        let line = &lines[1 + r + r / 3];
        assert_eq!(line.len(), 13);
        assert_eq!(line[0], ("│".to_string(), None));
        assert_eq!(line[4], (" │".to_string(), None));
        assert_eq!(line[12], (" │".to_string(), None));
        for c in 0..9 {
            let i = r * 9 + c;
            let v = app.board().cells[i];
            let glyph = if v == 0 { '·' } else { (b'0' + v) as char };
            assert_eq!(line[1 + c + c / 3], (format!(" {glyph}"), Some(app.cell_kind(i))));
        }
    }
    let text: Vec<String> =
        lines.iter().map(|l| l.iter().map(|(t, _)| t.as_str()).collect()).collect();
    assert_eq!(text, nonet::render::grid_lines(app.board()));
}

#[test]
fn other_keys_change_nothing() {
    let mut app = App::new(13, "hard");
    app.step();
    let pos = app.pos();
    let board = app.board().cells;
    for c in ['x', 'Q', 'N', '5', '0', 'R'] {
        assert!(!app.handle_key(Key::Char(c)));
    }
    assert_eq!(app.pos(), pos);
    assert_eq!(app.board().cells, board);
    assert_eq!(app.diff(), "hard");
    assert_eq!(app.seed(), 13);
}

#[test]
fn keys_regenerate_from_seed_and_difficulty() {
    let mut app = App::new(14, "hard");
    app.step();
    app.handle_key(Key::Char('n'));
    let fresh = App::new(14 + 0x9e37, "hard");
    assert_eq!(app.board().cells, fresh.board().cells);
    assert_eq!(app.step_count(), fresh.step_count());
    assert_eq!(app.pos(), 0);
    app.handle_key(Key::Char('4'));
    let expert = App::new(14 + 0x9e37, "expert");
    assert_eq!(app.board().cells, expert.board().cells);
    assert_eq!(app.diff(), "expert");
}

#[test]
fn solve_key_replays_the_same_puzzle() {
    let mut app = App::new(15, "medium");
    let start = app.board().cells;
    let n = app.step_count();
    app.handle_key(Key::Char(' '));
    app.handle_key(Key::Char('s'));
    assert_eq!(app.seed(), 15);
    assert_eq!(app.step_count(), n);
    assert_eq!(app.pos(), n);
    assert!(!app.playing());
    for i in 0..81 {
        if start[i] != 0 {
            assert_eq!(app.board().cells[i], start[i]);
        }
    }
    app.handle_key(Key::Char('r'));
    assert!(app.playing());
    assert_eq!(app.board().cells, start);
}

#[test]
fn speed_keys_leave_the_replay_alone() {
    let mut app = App::new(16, "easy");
    app.step();
    app.step();
    let board = app.board().cells;
    app.handle_key(Key::Char('+'));
    app.handle_key(Key::Char('_'));
    assert_eq!(app.pos(), 2);
    assert_eq!(app.board().cells, board);
    assert_eq!(app.delay_ms(), 35);
}

#[test]
fn step_is_due_after_the_delay() {
    let mut app = App::new(17, "easy");
    assert!(!app.should_step(34));
    assert!(app.should_step(35));
    app.handle_key(Key::Char(' '));
    assert!(!app.should_step(1000));
}
