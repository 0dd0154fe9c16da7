use sudoku::Cell;
use sudoku::ParseError;
use sudoku::Sudoku;
use sudoku::Uniqueness;
use sudoku::from_debug_grid;
use sudoku::from_digit_line;
use sudoku::to_debug_grid;
use sudoku::to_pretty_grid;

fn sample_line() -> String {
    let mut s = String::new();
    for r in 0..9 {
        for c in 0..9 {
            let d = (3 * r + r / 3 + c) % 9 + 1;
            s.push(char::from_digit(d as u32, 10).unwrap());
        }
    }
    s
}

#[test]
fn digit_line_reads_givens_and_blanks() {
    let mut text = sample_line();
    text.replace_range(1..2, "0");
    let puz = from_digit_line(&text);
    assert_eq!(puz.get(0, 0), Cell::known(1));
    assert_eq!(puz.get(0, 1), Cell::unknown());
    assert_eq!(puz.get(0, 2), Cell::known(3));
}

#[test]
fn round_trip_all_unknown() {
    let puz = Sudoku::new_empty();
    let text = to_debug_grid(&puz);
    let back = from_debug_grid(&text).unwrap();
    assert_eq!(puz, back);
}

#[test]
fn round_trip_fully_solved() {
    let puz = from_digit_line(&sample_line());
    let text = to_debug_grid(&puz);
    let back = from_debug_grid(&text).unwrap();
    assert_eq!(puz, back);
}

#[test]
fn round_trip_partially_constrained() {
    let mut text = sample_line();
    text.replace_range(0..1, "0");
    text.replace_range(40..41, "0");
    text.replace_range(66..67, "0");
    let mut puz = from_digit_line(&text);
    puz.apply_to_groups(Uniqueness);
    let grid = to_debug_grid(&puz);
    let back = from_debug_grid(&grid).unwrap();
    assert_eq!(puz, back);
}

#[test]
fn debug_grid_exact_text() {
    let mut puz = Sudoku::new_empty();
    puz.state[0] = Cell::known(1);
    let text = to_debug_grid(&puz);
    assert!(text.starts_with("\n\n1-------- 123456789"));
}

#[test]
fn debug_grid_rejects_bad_character() {
    let mut puz = Sudoku::new_empty();
    puz.state[3] = Cell::known(7);
    let mut text = to_debug_grid(&puz);
    text.replace_range(2..3, "x");
    assert_eq!(from_debug_grid(&text), Err(ParseError::InvalidCharacter));
}

#[test]
fn debug_grid_rejects_wrong_cell_count() {
    assert_eq!(
        from_debug_grid("123456789 ------123"),
        Err(ParseError::WrongCellCount)
    );
    assert_eq!(from_debug_grid(""), Err(ParseError::WrongCellCount));
}

#[test]
fn pretty_grid_shows_digits_and_dots() {
    let mut text = sample_line();
    text.replace_range(0..1, "0");
    let puz = from_digit_line(&text);
    let pretty = to_pretty_grid(&puz);
    assert!(pretty.starts_with(" \n\n. 2 3  4 5 6  7 8 9 "));
    assert!(!pretty.contains('-'));
}
