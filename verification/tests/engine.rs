use std::array;

use sudoku::Cell;
use sudoku::NoOp;
use sudoku::SinglePossibility;
use sudoku::Sudoku;
use sudoku::Uniqueness;
use sudoku::chunk_indicies;
use sudoku::col_indicies;
use sudoku::from_debug_grid;
use sudoku::from_digit_line;
use sudoku::row_indicies;
use sudoku::single_possibility;
use sudoku::to_debug_grid;
use sudoku::uniqueness_eliminate;

#[test]
fn binary_rep() {
    assert_eq!(Cell::known(1).0, 0b10);
    assert_eq!(Cell::known(3).0, 0b1000);
    assert_eq!(Cell::unknown().0, 0b1111111110)
}

#[test]
fn nop_apply() {
    let mut puz = Sudoku::new([Cell::unknown(); 81]);
    let copy = puz.clone();
    puz.apply_to_groups(NoOp);
    assert_eq!(copy, puz);
}

#[test]
fn all_known() {
    let mut puz = Sudoku::new_empty();
    puz.set_row(0, array::from_fn(|i| Cell::known(i + 1)));
    puz.apply_to_groups(Uniqueness);
    let expected = from_debug_grid(
        r"
            1-------- -2------- --3------ ---4----- ----5---- -----6--- ------7-- -------8- --------9
            ---456789 ---456789 ---456789 123---789 123---789 123---789 123456--- 123456--- 123456---
            ---456789 ---456789 ---456789 123---789 123---789 123---789 123456--- 123456--- 123456---
            -23456789 1-3456789 12-456789 123-56789 1234-6789 12345-789 123456-89 1234567-9 12345678-
            -23456789 1-3456789 12-456789 123-56789 1234-6789 12345-789 123456-89 1234567-9 12345678-
            -23456789 1-3456789 12-456789 123-56789 1234-6789 12345-789 123456-89 1234567-9 12345678-
            -23456789 1-3456789 12-456789 123-56789 1234-6789 12345-789 123456-89 1234567-9 12345678-
            -23456789 1-3456789 12-456789 123-56789 1234-6789 12345-789 123456-89 1234567-9 12345678-
            -23456789 1-3456789 12-456789 123-56789 1234-6789 12345-789 123456-89 1234567-9 12345678-",
    )
    .unwrap();

    assert_eq!(expected, puz);
}

#[test]
fn all_unknown() {
    let mut puz = Sudoku::new_empty();
    puz.set_row(0, [Cell::unknown(); 9]);
    println!("{}", to_debug_grid(&puz));
    puz.apply_to_groups(Uniqueness);
    let expected = from_debug_grid(
        r"
            123456789 123456789 123456789 123456789 123456789 123456789 123456789 123456789 123456789
            123456789 123456789 123456789 123456789 123456789 123456789 123456789 123456789 123456789
            123456789 123456789 123456789 123456789 123456789 123456789 123456789 123456789 123456789
            123456789 123456789 123456789 123456789 123456789 123456789 123456789 123456789 123456789
            123456789 123456789 123456789 123456789 123456789 123456789 123456789 123456789 123456789
            123456789 123456789 123456789 123456789 123456789 123456789 123456789 123456789 123456789
            123456789 123456789 123456789 123456789 123456789 123456789 123456789 123456789 123456789
            123456789 123456789 123456789 123456789 123456789 123456789 123456789 123456789 123456789
            123456789 123456789 123456789 123456789 123456789 123456789 123456789 123456789 123456789",
    )
    .unwrap();

    assert_eq!(expected, puz);
}

#[test]
fn cell_queries() {
    let c = Cell::known(5);
    assert!(c.is_solved());
    assert_eq!(c.value(), Some(5));
    assert!(c.can_be(5));
    assert!(!c.can_be(4));
    let u = Cell::unknown();
    assert!(!u.is_solved());
    assert_eq!(u.value(), None);
    for d in 1..=9 {
        assert!(u.can_be(d));
    }
    assert_eq!(c.candidate_count(), 1);
    assert_eq!(u.candidate_count(), 9);
}

#[test]
fn group_indices_exact() {
    assert_eq!(row_indicies(0), [0, 1, 2, 3, 4, 5, 6, 7, 8]);
    assert_eq!(row_indicies(8), [72, 73, 74, 75, 76, 77, 78, 79, 80]);
    assert_eq!(col_indicies(0), [0, 9, 18, 27, 36, 45, 54, 63, 72]);
    assert_eq!(col_indicies(8), [8, 17, 26, 35, 44, 53, 62, 71, 80]);
    assert_eq!(chunk_indicies(0), [0, 1, 2, 9, 10, 11, 18, 19, 20]);
    assert_eq!(chunk_indicies(4), [30, 31, 32, 39, 40, 41, 48, 49, 50]);
    assert_eq!(chunk_indicies(8), [60, 61, 62, 69, 70, 71, 78, 79, 80]);
}

#[test]
fn group_partition() {
    // Each family's 9 groups are pairwise disjoint and cover all 81 indices.
    for family in [row_indicies as fn(usize) -> [usize; 9], col_indicies, chunk_indicies] {
        let mut seen = [0usize; 81];
        for g in 0..9 {
            for idx in family(g) {
                seen[idx] += 1;
            }
        }
        assert!(seen.iter().all(|&n| n == 1));
    }
}

#[test]
fn set_row_places_cells() {
    let mut puz = Sudoku::new_empty();
    puz.set_row(2, array::from_fn(|i| Cell::known(9 - i)));
    for col in 0..9 {
        assert_eq!(puz.get(2, col), Cell::known(9 - col));
    }
    assert_eq!(puz.get(1, 0), Cell::unknown());
    assert_eq!(puz.get(3, 8), Cell::unknown());
}

#[test]
fn score_and_is_solved() {
    let empty = Sudoku::new_empty();
    assert_eq!(empty.score(), 648);
    assert!(!empty.is_solved());

    // The canonical solved grid: digit = (3*r + r/3 + c) % 9 + 1.
    let solved = from_digit_line(&canonical_solution());
    assert!(solved.is_solved());
    assert_eq!(solved.score(), 0);

    let mut one_blank = canonical_solution();
    one_blank.replace_range(40..41, "0");
    let puz = from_digit_line(&one_blank);
    assert!(!puz.is_solved());
    assert_eq!(puz.score(), 8);
}

#[test]
fn get_reads_cells() {
    let puz = from_digit_line(&canonical_solution());
    assert_eq!(puz.get(0, 0), Cell::known(1));
    assert_eq!(puz.get(0, 8), Cell::known(9));
    assert_eq!(puz.get(1, 0), Cell::known(4));
}

#[test]
fn eliminate_one_known() {
    let mut puz = Sudoku::new_empty();
    puz.set_row(0, {
        let mut row = [Cell::unknown(); 9];
        row[3] = Cell::known(1);
        row
    });
    uniqueness_eliminate(&mut puz, row_indicies(0));
    for col in 0..9 {
        let cell = puz.get(0, col);
        if col == 3 {
            assert_eq!(cell, Cell::known(1));
        } else {
            assert!(!cell.can_be(1));
            for d in 2..=9 {
                assert!(cell.can_be(d));
            }
        }
    }
}

#[test]
fn eliminate_is_idempotent_with_same_knowns() {
    let mut puz = Sudoku::new_empty();
    puz.set_row(0, array::from_fn(|i| Cell::known(i + 1)));
    puz.apply_to_groups(Uniqueness);
    let once = puz.clone();
    puz.apply_to_groups(Uniqueness);
    assert_eq!(once, puz);
}

#[test]
fn single_possibility_unique_home() {
    let mut puz = Sudoku::new_empty();
    puz.set_row(0, {
        let mut row = [Cell::unknown(); 9];
        for (i, item) in row.iter_mut().enumerate().skip(1) {
            *item = Cell::known(i + 1);
        }
        row
    });
    // Digit 1 can only live in the first cell of row 0.
    single_possibility(&mut puz, row_indicies(0));
    assert_eq!(puz.get(0, 0), Cell::known(1));
}

#[test]
fn score_nonincreasing_over_passes() {
    let mut puz = from_digit_line(&blank_out(canonical_solution(), &[2, 13, 27, 40, 55, 62, 78]));
    let mut last = puz.score();
    for _ in 0..4 {
        puz.apply_to_groups(Uniqueness);
        let s = puz.score();
        assert!(s <= last);
        last = s;
        puz.apply_to_groups(SinglePossibility);
        let s = puz.score();
        assert!(s <= last);
        last = s;
    }
}

#[test]
fn solve_naked_singles_puzzle() {
    // One blank per row: every blank is recovered by eliminating its row.
    let text = blank_out(canonical_solution(), &[0, 10, 20, 30, 40, 50, 60, 70, 80]);
    let mut puzzle = from_digit_line(&text);
    let solution = from_digit_line(&canonical_solution());
    assert!(!puzzle.is_solved());
    puzzle.solve();
    assert!(puzzle.is_solved());
    assert_eq!(puzzle, solution);
}

#[test]
fn solve_stalls_on_empty_board() {
    let mut puzzle = Sudoku::new_empty();
    puzzle.solve();
    assert!(!puzzle.is_solved());
    assert_eq!(puzzle.score(), 648);
}

#[test]
fn solve_stalls_on_hard_puzzle() {
    // Too few givens for the two rules: the loop must stop, not spin.
    let mut text = String::from("0").repeat(81);
    text.replace_range(0..1, "1");
    text.replace_range(40..41, "5");
    text.replace_range(80..81, "9");
    let mut puzzle = from_digit_line(&text);
    puzzle.solve();
    assert!(!puzzle.is_solved());
}

fn canonical_solution() -> String {
    let mut s = String::new();
    for r in 0..9 {
        for c in 0..9 {
            let d = (3 * r + r / 3 + c) % 9 + 1;
            s.push(char::from_digit(d as u32, 10).unwrap());
        }
    }
    s
}

fn blank_out(mut text: String, holes: &[usize]) -> String {
    for &h in holes {
        text.replace_range(h..h + 1, "0");
    }
    text
}
