use nonet::board::{is_whitespace, Board};

const SOLVED: &str =
    "534678912672195348198342567859761423426853791713924856961537284287419635345286179";

fn solved() -> Board {
    Board::parse(SOLVED).unwrap()
}

#[test]
fn parse_reads_digits_and_blanks() {
    let mut text = String::from("1.0_");
    text.push_str(&"9".repeat(77));
    let b = Board::parse(&text).unwrap();
    assert_eq!(b.cells[0], 1);
    assert_eq!(b.cells[1], 0);
    assert_eq!(b.cells[2], 0);
    assert_eq!(b.cells[3], 0);
    assert_eq!(b.cells[80], 9);
}

#[test]
fn parse_skips_white_space() {
    let spaced: String = SOLVED
        .chars()
        .enumerate()
        .map(|(i, c)| if i % 9 == 8 { format!("{c}\n") } else { format!("{c} ") })
        .collect();
    let b = Board::parse(&format!("\t{spaced}\u{3000}")).unwrap();
    assert_eq!(b.cells, solved().cells);
}

#[test]
fn parse_rejects_other_characters() {
    let mut text = String::from(SOLVED);
    text.replace_range(40..41, "x");
    assert!(Board::parse(&text).is_none());
}

#[test]
fn parse_rejects_wrong_counts() {
    assert!(Board::parse(&SOLVED[..80]).is_none());
    assert!(Board::parse(&format!("{SOLVED}1")).is_none());
    assert!(Board::parse("").is_none());
}

#[test]
fn to_line_round_trips() {
    let b = Board::parse(
        "8..........36......7..9.2...5...7.......457.....1...3...1....68..85...1..9....4..",
    )
    .unwrap();
    let line = b.to_line();
    assert_eq!(
        line,
        "8..........36......7..9.2...5...7.......457.....1...3...1....68..85...1..9....4.."
    );
    assert_eq!(Board::parse(&line).unwrap().cells, b.cells);
    assert_eq!(Board::empty().to_line(), ".".repeat(81));
}

#[test]
fn get_reads_row_and_column() {
    let b = solved();
    assert_eq!(b.get(0, 0), 5);
    assert_eq!(b.get(0, 8), 2);
    assert_eq!(b.get(8, 0), 3);
    assert_eq!(b.get(4, 4), 5);
    assert_eq!(b.get(0, 80), 9);
    assert_eq!(b.get(1, 0), 6);
}

#[test]
fn clue_count_counts_filled_cells() {
    assert_eq!(Board::empty().clue_count(), 0);
    assert_eq!(solved().clue_count(), 81);
    let mut b = solved();
    b.cells[3] = 0;
    b.cells[70] = 0;
    assert_eq!(b.clue_count(), 79);
}

#[test]
fn used_mask_collects_row_column_and_box() {
    let mut b = Board::empty();
    b.cells[1] = 3; // same row as cell 0
    b.cells[72] = 7; // same column
    b.cells[20] = 9; // same box
    b.cells[40] = 5; // unrelated
    assert_eq!(b.used_mask(0), (1 << 0) | (1 << 3) | (1 << 7) | (1 << 9));
    assert_eq!(Board::empty().used_mask(40), 1);
    assert_eq!(solved().used_mask(0), 0x3FE);
}

#[test]
fn is_valid_finds_each_kind_of_clash() {
    assert!(Board::empty().is_valid());
    assert!(solved().is_valid());
    let mut row = Board::empty();
    row.cells[0] = 4;
    row.cells[8] = 4;
    assert!(!row.is_valid());
    let mut col = Board::empty();
    col.cells[4] = 6;
    col.cells[76] = 6;
    assert!(!col.is_valid());
    let mut bx = Board::empty();
    bx.cells[30] = 2;
    bx.cells[50] = 2;
    assert!(!bx.is_valid());
    let mut apart = Board::empty();
    apart.cells[0] = 2;
    apart.cells[40] = 2;
    assert!(apart.is_valid());
}

#[test]
fn white_space_matches_std() {
    for code in 0..0x3100u32 {
        if let Some(c) = char::from_u32(code) {
            assert_eq!(is_whitespace(c), c.is_whitespace(), "{code:#x}");
        }
    }
    assert!(is_whitespace('\u{3000}'));
    assert!(!is_whitespace('·'));
}
