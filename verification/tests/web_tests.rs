use nonet::board::Board;
use nonet::web;

const HARD: &str =
    "8..........36......7..9.2...5...7.......457.....1...3...1....68..85...1..9....4..";
const SOLVED: &str =
    "534678912672195348198342567859761423426853791713924856961537284287419635345286179";

#[test]
fn web_solve_returns_the_solution_line() {
    let out = web::solve(HARD);
    assert_eq!(out.len(), 81);
    let b = Board::parse(&out).unwrap();
    assert!(b.is_valid());
    assert_eq!(b.clue_count(), 81);
    for (i, c) in HARD.chars().enumerate() {
        if c != '.' {
            assert_eq!(out.chars().nth(i), Some(c));
        }
    }
}

#[test]
fn web_solve_rejects_bad_input() {
    assert_eq!(web::solve("not a puzzle"), "");
    let mut stuck = String::from("123456780");
    stuck.push_str(&".".repeat(35));
    stuck.push('9');
    stuck.push_str(&".".repeat(36));
    assert_eq!(stuck.chars().count(), 81);
    assert_eq!(web::solve(&stuck), "");
}

#[test]
fn web_trace_formats_steps() {
    assert_eq!(web::trace("nope"), "[]");
    assert_eq!(web::trace(SOLVED), "[]");
    let mut one = String::from(SOLVED);
    one.replace_range(80..81, ".");
    assert_eq!(web::trace(&one), "[[80,9]]");
    let mut two = String::from(SOLVED);
    two.replace_range(0..1, "0");
    two.replace_range(12..13, "_");
    assert_eq!(web::trace(&two), "[[0,5],[12,1]]");
}

#[test]
fn web_trace_replays_to_the_solution() {
    let json = web::trace(HARD);
    assert!(json.starts_with("[[") && json.ends_with("]]"));
    let mut b = Board::parse(HARD).unwrap();
    for item in json[2..json.len() - 2].split("],[") {
        let (i, v) = item.split_once(',').unwrap();
        b.cells[i.parse::<usize>().unwrap()] = v.parse::<u8>().unwrap();
    }
    assert_eq!(b.to_line(), web::solve(HARD));
}

#[test]
fn web_gen_makes_a_unique_puzzle() {
    let line = web::gen("hard", 4);
    assert_eq!(line.len(), 81);
    let b = Board::parse(&line).unwrap();
    assert!(b.clue_count() >= 27);
    let mut t = b;
    assert_eq!(nonet::solver::count_solutions(&mut t, 2), 1);
    assert_eq!(web::gen("hard", 4), line);
}
