use nonet::board::Board;
use nonet::render::grid_lines;

#[test]
fn grid_of_a_puzzle() {
    let b = Board::parse(
        "53..7....6..195....98....6.8...6...34..8.3..17...2...6.6....28....419..5....8..79",
    )
    .unwrap();
    let lines = grid_lines(&b);
    let expected = vec![
        "┌───────┬───────┬───────┐",
        "│ 5 3 · │ · 7 · │ · · · │",
        "│ 6 · · │ 1 9 5 │ · · · │",
        "│ · 9 8 │ · · · │ · 6 · │",
        "├───────┼───────┼───────┤",
        "│ 8 · · │ · 6 · │ · · 3 │",
        "│ 4 · · │ 8 · 3 │ · · 1 │",
        "│ 7 · · │ · 2 · │ · · 6 │",
        "├───────┼───────┼───────┤",
        "│ · 6 · │ · · · │ 2 8 · │",
        "│ · · · │ 4 1 9 │ · · 5 │",
        "│ · · · │ · 8 · │ · 7 9 │",
        "└───────┴───────┴───────┘",
    ];
    assert_eq!(lines, expected);
}

#[test]
fn grid_of_the_empty_board() {
    let lines = grid_lines(&Board::empty());
    assert_eq!(lines.len(), 13);
    assert_eq!(lines[1], "│ · · · │ · · · │ · · · │");
}
