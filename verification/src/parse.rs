//! Text forms of a board: the 81-digit line, the debug candidate grid
//! (which round-trips the full candidate state), and the pretty grid.

use vstd::prelude::*;
use vstd::string::StrSliceExecFns;
use vstd::string::StringExecFns;

use crate::board::Sudoku;
use crate::board::board_wf;
use crate::cell::Cell;
use crate::cell::UNKNOWN_MASK;
use crate::cell::first_digit;
use crate::cell::has_bit;
use crate::cell::mask_wf;
use crate::cell::popcount;

verus! {

/// Why a debug grid failed to parse.
#[derive(Debug, Clone, Copy, PartialEq, Eq, Structural)]
pub enum ParseError {
    /// A character that is neither a digit, '-', a space nor a newline.
    InvalidCharacter,
    /// The text did not hold exactly 81 cell tokens.
    WrongCellCount,
}

/// Token separators of the debug grid: spaces and line breaks.
pub open spec fn is_sep(c: char) -> bool {
    c == ' ' || c == '\n'
}

/// Characters a cell token is made of: candidate digits and '-'.
pub open spec fn is_tok(c: char) -> bool {
    c == '-' || ('1' <= c && c <= '9')
}

/// The digit value of a digit character.
pub open spec fn digit_of(c: char) -> u16 {
    ((c as u32) - 48) as u16
}

/// The candidate bit contributed by one token character.
pub open spec fn char_bit(c: char) -> u16 {
    if c == '-' {
        0
    } else {
        1u16 << digit_of(c)
    }
}

/// The character for digit `d`.
pub open spec fn digit_char(d: u16) -> char {
    if d == 1 {
        '1'
    } else if d == 2 {
        '2'
    } else if d == 3 {
        '3'
    } else if d == 4 {
        '4'
    } else if d == 5 {
        '5'
    } else if d == 6 {
        '6'
    } else if d == 7 {
        '7'
    } else if d == 8 {
        '8'
    } else if d == 9 {
        '9'
    } else {
        '-'
    }
}

/// Scan the grid text outside a token: skip separators, start a token at a
/// token character, fail on anything else.
pub open spec fn scan0(s: Seq<char>) -> Option<Seq<Cell>>
    decreases s.len(), 1int,
{
    if s.len() == 0 {
        Some(Seq::empty())
    } else if is_sep(s[0]) {
        scan0(s.skip(1))
    } else if is_tok(s[0]) {
        scan1(s.skip(1), char_bit(s[0]))
    } else {
        None
    }
}

/// Scan the grid text inside a token whose bits so far are `acc`: extend the
/// token, or close it at a separator or at the end of the text.
pub open spec fn scan1(s: Seq<char>, acc: u16) -> Option<Seq<Cell>>
    decreases s.len(), 0int,
{
    if s.len() == 0 {
        Some(seq![Cell(acc)])
    } else if is_sep(s[0]) {
        match scan0(s.skip(1)) {
            Some(r) => Some(seq![Cell(acc)] + r),
            None => None,
        }
    } else if is_tok(s[0]) {
        scan1(s.skip(1), acc | char_bit(s[0]))
    } else {
        None
    }
}

/// Prepend already-parsed cells to the outcome of scanning the rest.
pub open spec fn opt_prepend(pre: Seq<Cell>, o: Option<Seq<Cell>>) -> Option<Seq<Cell>> {
    match o {
        Some(r) => Some(pre + r),
        None => None,
    }
}

/// The token character bit, executably.
fn char_bit_exec(c: char) -> (r: u16)
    requires
        is_tok(c),
    ensures
        r == char_bit(c),
        mask_wf(r),
{
    if c == '-' {
        proof {
            assert(mask_wf(0u16)) by (bit_vector);
        }
        0
    } else {
        let d = (c as u32) - 48;
        let b = 1u16 << (d as u16);
        proof {
            crate::cell::lemma_digit_mask_bits(d as u16);
        }
        b
    }
}

/// Parse a debug candidate grid: whitespace-separated cell tokens, each a
/// run of digit and '-' characters whose digits are OR-ed into the cell's
/// candidate mask.  Exactly 81 tokens make a board.
pub fn from_debug_grid(grid: &str) -> (r: Result<Sudoku, ParseError>)
    ensures
        (match r {
            Ok(p) => scan0(grid@) == Some(p@) && p.wf(),
            Err(ParseError::InvalidCharacter) => scan0(grid@) is None,
            Err(ParseError::WrongCellCount) => (scan0(grid@) matches Some(cs) && cs.len() != 81),
        }),
{
    let n = grid.unicode_len();
    let mut cells: Vec<Cell> = Vec::new();
    proof {
        assert(grid@.skip(0) =~= grid@);
        if scan0(grid@) is Some {
            assert(Seq::<Cell>::empty() + scan0(grid@).unwrap() =~= scan0(grid@).unwrap());
        }
    }
    let mut i: usize = 0;
    while i < n
        invariant
            i <= n,
            n == grid@.len(),
            scan0(grid@) == opt_prepend(cells@, scan0(grid@.skip(i as int))),
            forall|j: int| 0 <= j < cells@.len() ==> mask_wf(#[trigger] cells@[j].0),
        decreases n - i,
    {
        let c = grid.get_char(i);
        proof {
            assert(grid@.skip(i as int)[0] == c);
        }
        if c == ' ' || c == '\n' {
            proof {
                assert(grid@.skip(i as int).skip(1) =~= grid@.skip(i + 1));
            }
            i = i + 1;
        } else if c == '-' || ('1' <= c && c <= '9') {
            let ghost tok_from = i as int;
            let mut acc = char_bit_exec(c);
            proof {
                assert(grid@.skip(i as int).skip(1) =~= grid@.skip(i + 1));
                assert(scan0(grid@.skip(i as int)) == scan1(grid@.skip(i + 1), acc));
            }
            i = i + 1;
            loop
                invariant
                    tok_from < i <= n,
                    n == grid@.len(),
                    mask_wf(acc),
                    scan0(grid@) == opt_prepend(cells@, scan1(grid@.skip(i as int), acc)),
                ensures
                    tok_from < i <= n,
                    mask_wf(acc),
                    scan0(grid@) == opt_prepend(cells@, scan1(grid@.skip(i as int), acc)),
                    i == n || !is_tok(grid@[i as int]),
                decreases n - i,
            {
                if i == n {
                    break ;
                }
                let c2 = grid.get_char(i);
                proof {
                    assert(grid@.skip(i as int)[0] == c2);
                }
                if c2 == '-' || ('1' <= c2 && c2 <= '9') {
                    let b = char_bit_exec(c2);
                    proof {
                        assert(grid@.skip(i as int).skip(1) =~= grid@.skip(i + 1));
                        crate::bits::lemma_or_wf(acc, b);
                    }
                    acc = acc | b;
                    i = i + 1;
                } else {
                    break ;
                }
            }
            proof {
                let rest = grid@.skip(i as int);
                let closed = scan1(rest, acc);
                if i == n {
                    assert(rest =~= Seq::<char>::empty());
                    assert(closed == Some(seq![Cell(acc)]));
                    assert(scan0(rest) == Some(Seq::<Cell>::empty()));
                    assert(seq![Cell(acc)] =~= Seq::<Cell>::empty().push(Cell(acc)));
                    assert(closed == opt_prepend(seq![Cell(acc)], scan0(rest))) by {
                        assert(seq![Cell(acc)] + Seq::<Cell>::empty() =~= seq![Cell(acc)]);
                    }
                } else if is_sep(rest[0]) {
                    assert(closed == (match scan0(rest.skip(1)) {
                        Some(r) => Some(seq![Cell(acc)] + r),
                        None => None,
                    }));
                    assert(scan0(rest) == scan0(rest.skip(1)));
                } else {
                    assert(!is_tok(rest[0]));
                    assert(closed is None && scan0(rest) is None);
                }
                assert(opt_prepend(cells@, closed) == opt_prepend(
                    cells@.push(Cell(acc)),
                    scan0(rest),
                )) by {
                    if scan0(rest) is Some {
                        let rr = scan0(rest).unwrap();
                        assert(cells@ + (seq![Cell(acc)] + rr) =~= cells@.push(Cell(acc)) + rr);
                    }
                }
            }
            cells.push(Cell(acc));
        } else {
            proof {
                assert(scan0(grid@.skip(i as int)) is None);
            }
            return Err(ParseError::InvalidCharacter);
        }
    }
    proof {
        assert(grid@.skip(n as int) =~= Seq::<char>::empty());
        assert(scan0(grid@) == Some(cells@)) by {
            assert(cells@ + Seq::<Cell>::empty() =~= cells@);
        }
    }
    if cells.len() != 81 {
        return Err(ParseError::WrongCellCount);
    }
    let mut board = Sudoku::new_empty();
    let mut j: usize = 0;
    while j < 81
        invariant
            j <= 81,
            cells@.len() == 81,
            board@.len() == 81,
            forall|t: int| 0 <= t < j ==> board@[t] == cells@[t],
            forall|t: int| 0 <= t < cells@.len() ==> mask_wf(#[trigger] cells@[t].0),
            forall|t: int| 0 <= t < 81 ==> mask_wf(#[trigger] board@[t].0),
        decreases 81 - j,
    {
        board.state[j] = cells[j];
        j = j + 1;
    }
    proof {
        assert(board@ =~= cells@);
    }
    Ok(board)
}

/// The 9 characters of one cell token: position `p` holds the digit
/// character `p + 1` if that candidate is present, else '-'.
pub open spec fn cell_chars(m: u16) -> Seq<char> {
    Seq::new(
        9,
        |p: int|
            if has_bit(m, (p + 1) as u16) {
                digit_char((p + 1) as u16)
            } else {
                '-'
            },
    )
}

/// The line breaks printed before cell `i` of the debug grid: one before
/// each row, a second one before each band of three rows.
pub open spec fn sep_chars(i: int) -> Seq<char> {
    (if i % 9 == 0 {
        seq!['\n']
    } else {
        Seq::<char>::empty()
    }) + (if i % 27 == 0 {
        seq!['\n']
    } else {
        Seq::<char>::empty()
    })
}

/// The debug grid text for the cells from index `i` on.
pub open spec fn grid_chars_from(s: Seq<Cell>, i: int) -> Seq<char>
    decreases 81 - i,
{
    if 0 <= i < 81 {
        sep_chars(i) + cell_chars(s[i].0) + seq![' '] + grid_chars_from(s, i + 1)
    } else {
        Seq::empty()
    }
}

/// The full debug grid text of a board.
pub open spec fn grid_chars(s: Seq<Cell>) -> Seq<char> {
    grid_chars_from(s, 0)
}

/// Append the character for digit `d` to the output.
fn push_digit(out: &mut String, d: u16)
    requires
        1 <= d <= 9,
    ensures
        final(out)@ == old(out)@ + seq![digit_char(d)],
{
    if d == 1 {
        proof {
            reveal_strlit("1");
            assert("1"@ =~= seq![digit_char(1)]);
        }
        out.append("1");
    } else if d == 2 {
        proof {
            reveal_strlit("2");
            assert("2"@ =~= seq![digit_char(2)]);
        }
        out.append("2");
    } else if d == 3 {
        proof {
            reveal_strlit("3");
            assert("3"@ =~= seq![digit_char(3)]);
        }
        out.append("3");
    } else if d == 4 {
        proof {
            reveal_strlit("4");
            assert("4"@ =~= seq![digit_char(4)]);
        }
        out.append("4");
    } else if d == 5 {
        proof {
            reveal_strlit("5");
            assert("5"@ =~= seq![digit_char(5)]);
        }
        out.append("5");
    } else if d == 6 {
        proof {
            reveal_strlit("6");
            assert("6"@ =~= seq![digit_char(6)]);
        }
        out.append("6");
    } else if d == 7 {
        proof {
            reveal_strlit("7");
            assert("7"@ =~= seq![digit_char(7)]);
        }
        out.append("7");
    } else if d == 8 {
        proof {
            reveal_strlit("8");
            assert("8"@ =~= seq![digit_char(8)]);
        }
        out.append("8");
    } else {
        proof {
            reveal_strlit("9");
            assert("9"@ =~= seq![digit_char(9)]);
        }
        out.append("9");
    }
}

/// Render the board's full candidate state as a debug grid.
pub fn to_debug_grid(puz: &Sudoku) -> (r: String)
    ensures
        r@ == grid_chars(puz@),
{
    let ghost s = puz@;
    let mut out = String::new();
    let mut i: usize = 0;
    while i < 81
        invariant
            i <= 81,
            s == puz@,
            grid_chars(s) == out@ + grid_chars_from(s, i as int),
        decreases 81 - i,
    {
        let ghost out0 = out@;
        if i % 9 == 0 {
            proof {
                reveal_strlit("\n");
            }
            out.append("\n");
        }
        if i % 27 == 0 {
            proof {
                reveal_strlit("\n");
            }
            out.append("\n");
        }
        proof {
            reveal_strlit("\n");
            assert("\n"@ =~= seq!['\n']);
            assert(out@ =~= out0 + sep_chars(i as int));
        }
        let ghost out1 = out@;
        let m = puz.state[i].0;
        let mut d: u16 = 1;
        while d <= 9
            invariant
                1 <= d <= 10,
                m == s[i as int].0,
                i < 81,
                out@ == out1 + cell_chars(m).take(d - 1),
            decreases 10 - d,
        {
            let ghost out2 = out@;
            if (m >> d) & 1 == 1 {
                push_digit(&mut out, d);
            } else {
                proof {
                    reveal_strlit("-");
                    assert("-"@ =~= seq!['-']);
                }
                out.append("-");
            }
            proof {
                assert(cell_chars(m).take(d as int) =~= cell_chars(m).take(d - 1).push(
                    cell_chars(m)[d - 1],
                ));
                assert(cell_chars(m)[d - 1] == (if has_bit(m, d) {
                    digit_char(d)
                } else {
                    '-'
                }));
                assert(out@ =~= out1 + cell_chars(m).take(d as int));
            }
            d = d + 1;
        }
        proof {
            reveal_strlit(" ");
            assert(" "@ =~= seq![' ']);
            assert(cell_chars(m).take(9) =~= cell_chars(m));
        }
        out.append(" ");
        proof {
            assert(grid_chars_from(s, i as int) == sep_chars(i as int) + cell_chars(m) + seq![' ']
                + grid_chars_from(s, i + 1));
            assert(out@ =~= out1 + cell_chars(m) + seq![' ']);
            assert(grid_chars(s) =~= out@ + grid_chars_from(s, i + 1)) by {
                assert(out0 + (sep_chars(i as int) + cell_chars(m) + seq![' ']
                    + grid_chars_from(s, i + 1)) =~= (out0 + sep_chars(i as int) + cell_chars(m)
                    + seq![' ']) + grid_chars_from(s, i + 1));
            }
        }
        i = i + 1;
    }
    proof {
        assert(grid_chars(s) =~= out@);
    }
    out
}

/// The cell a digit-line character stands for: '0' is an unknown cell, any
/// other digit a solved cell.
pub open spec fn digit_cell(c: char) -> Cell {
    if c == '0' {
        Cell(UNKNOWN_MASK)
    } else {
        Cell(1u16 << digit_of(c))
    }
}

/// The 81 cells a digit line stands for.
pub open spec fn digit_line_cells(t: Seq<char>) -> Seq<Cell> {
    Seq::new(81, |i: int| digit_cell(t[i]))
}

/// Build a board from an 81-character digit line: '0' for an unknown cell,
/// '1'..'9' for a given.  It is the caller's responsibility that the text
/// is 81 digits long.
pub fn from_digit_line(line: &str) -> (r: Sudoku)
    requires
        line@.len() == 81,
        forall|i: int| 0 <= i < 81 ==> '0' <= #[trigger] line@[i] <= '9',
    ensures
        r@ == digit_line_cells(line@),
        r.wf(),
{
    let mut board = Sudoku::new_empty();
    let mut i: usize = 0;
    while i < 81
        invariant
            i <= 81,
            line@.len() == 81,
            forall|j: int| 0 <= j < 81 ==> '0' <= #[trigger] line@[j] <= '9',
            board@.len() == 81,
            forall|j: int| 0 <= j < i ==> board@[j] == digit_cell(line@[j]),
            forall|j: int| 0 <= j < 81 ==> mask_wf(#[trigger] board@[j].0),
        decreases 81 - i,
    {
        let c = line.get_char(i);
        let cell = if c == '0' {
            Cell::unknown()
        } else {
            let d = (c as u32) - 48;
            Cell::known(d as usize)
        };
        board.state[i] = cell;
        i = i + 1;
    }
    proof {
        assert(board@ =~= digit_line_cells(line@));
    }
    board
}

/// The separators printed before cell `i` of the pretty grid.
pub open spec fn pretty_sep(i: int) -> Seq<char> {
    (if i % 3 == 0 {
        seq![' ']
    } else {
        Seq::<char>::empty()
    }) + (if i % 9 == 0 {
        seq!['\n']
    } else {
        Seq::<char>::empty()
    }) + (if i % 27 == 0 {
        seq!['\n']
    } else {
        Seq::<char>::empty()
    })
}

/// The display character of one cell: its digit if solved, '.' otherwise.
pub open spec fn pretty_cell(m: u16) -> char {
    if popcount(m) == 1 {
        digit_char(first_digit(m))
    } else {
        '.'
    }
}

/// The pretty grid text for the cells from index `i` on.
pub open spec fn pretty_chars_from(s: Seq<Cell>, i: int) -> Seq<char>
    decreases 81 - i,
{
    if 0 <= i < 81 {
        pretty_sep(i) + seq![pretty_cell(s[i].0)] + seq![' '] + pretty_chars_from(s, i + 1)
    } else {
        Seq::empty()
    }
}

/// The full pretty grid text of a board.
pub open spec fn pretty_chars(s: Seq<Cell>) -> Seq<char> {
    pretty_chars_from(s, 0)
}

/// Render the board for people: the solved digit or '.' per cell, grouped
/// into 3x3 blocks.  Output only; never parsed back.
pub fn to_pretty_grid(puz: &Sudoku) -> (r: String)
    ensures
        r@ == pretty_chars(puz@),
{
    let ghost s = puz@;
    let mut out = String::new();
    let mut i: usize = 0;
    while i < 81
        invariant
            i <= 81,
            s == puz@,
            pretty_chars(s) == out@ + pretty_chars_from(s, i as int),
        decreases 81 - i,
    {
        let ghost out0 = out@;
        if i % 3 == 0 {
            proof {
                reveal_strlit(" ");
            }
            out.append(" ");
        }
        if i % 9 == 0 {
            proof {
                reveal_strlit("\n");
            }
            out.append("\n");
        }
        if i % 27 == 0 {
            proof {
                reveal_strlit("\n");
            }
            out.append("\n");
        }
        proof {
            reveal_strlit(" ");
            reveal_strlit("\n");
            assert(" "@ =~= seq![' '] && "\n"@ =~= seq!['\n']);
            assert(out@ =~= out0 + pretty_sep(i as int));
        }
        let ghost out1 = out@;
        let cell = puz.state[i];
        match cell.value() {
            Some(v) => {
                proof {
                    crate::cell::lemma_first_digit(cell.0);
                }
                push_digit(&mut out, v as u16);
            },
            None => {
                proof {
                    reveal_strlit(".");
                    assert("."@ =~= seq!['.']);
                }
                out.append(".");
            },
        }
        proof {
            reveal_strlit(" ");
            assert(" "@ =~= seq![' ']);
            assert(out@ =~= out1 + seq![pretty_cell(cell.0)]);
        }
        out.append(" ");
        proof {
            assert(pretty_chars_from(s, i as int) == pretty_sep(i as int) + seq![
                pretty_cell(s[i as int].0)
            ] + seq![' '] + pretty_chars_from(s, i + 1));
            assert(pretty_chars(s) =~= out@ + pretty_chars_from(s, i + 1)) by {
                assert(out0 + (pretty_sep(i as int) + seq![pretty_cell(s[i as int].0)] + seq![' ']
                    + pretty_chars_from(s, i + 1)) =~= (out0 + pretty_sep(i as int) + seq![
                    pretty_cell(s[i as int].0)
                ] + seq![' ']) + pretty_chars_from(s, i + 1));
            }
        }
        i = i + 1;
    }
    proof {
        assert(pretty_chars(s) =~= out@);
    }
    out
}

/// The candidate bits of `m` among digits `1..=p`.
spec fn mask_through(m: u16, p: int) -> u16
    decreases p,
{
    if p <= 0 {
        0
    } else {
        mask_through(m, p - 1) | (if has_bit(m, p as u16) {
            1u16 << (p as u16)
        } else {
            0
        })
    }
}

/// Bit characterization of `mask_through`, and its well-formedness.
proof fn lemma_mask_through_bits(m: u16, p: int)
    requires
        0 <= p <= 9,
    ensures
        mask_wf(mask_through(m, p)),
        forall|e: u16|
            e <= 15 ==> (#[trigger] has_bit(mask_through(m, p), e) <==> (1 <= e <= p && has_bit(
                m,
                e,
            ))),
    decreases p,
{
    if p == 0 {
        assert forall|e: u16| e <= 15 implies !has_bit(0u16, e) by {
            assert((0u16 >> e) & 1 == 0) by (bit_vector);
        }
        assert(mask_wf(0u16)) by (bit_vector);
    } else {
        lemma_mask_through_bits(m, p - 1);
        let prev = mask_through(m, p - 1);
        if has_bit(m, p as u16) {
            crate::cell::lemma_digit_mask_bits(p as u16);
            crate::bits::lemma_or_wf(prev, 1u16 << (p as u16));
            assert forall|e: u16| e <= 15 implies (#[trigger] has_bit(mask_through(m, p), e) <==> (
            1 <= e <= p && has_bit(m, e))) by {
                crate::bits::lemma_or_bits(prev, 1u16 << (p as u16), e);
            }
        } else {
            crate::bits::lemma_or_zero(prev);
        }
    }
}

/// The bits of a full token are exactly the cell's candidate mask.
proof fn lemma_mask_through_full(m: u16)
    requires
        mask_wf(m),
    ensures
        mask_through(m, 9) == m,
{
    lemma_mask_through_bits(m, 9);
    crate::bits::lemma_eq_from_digit_bits(mask_through(m, 9), m);
}

/// Each character of a cell token is a token character, and contributes
/// exactly the cell's bit at its position.
proof fn lemma_cell_char(m: u16, p: int)
    requires
        0 <= p < 9,
    ensures
        is_tok(cell_chars(m)[p]),
        !is_sep(cell_chars(m)[p]),
        char_bit(cell_chars(m)[p]) == (if has_bit(m, (p + 1) as u16) {
            1u16 << ((p + 1) as u16)
        } else {
            0u16
        }),
{
    let c = cell_chars(m)[p];
    if has_bit(m, (p + 1) as u16) {
        assert(c == digit_char((p + 1) as u16));
        assert(digit_of(c) == (p + 1) as u16);
    } else {
        assert(c == '-');
    }
}

/// Scanning the tail of a cell token, followed by a space and more text,
/// closes the token to the cell itself.
proof fn lemma_scan_cell(m: u16, tail: Seq<char>, p: int, acc: u16)
    requires
        mask_wf(m),
        0 <= p <= 9,
        acc == mask_through(m, p),
    ensures
        scan1(cell_chars(m).skip(p) + (seq![' '] + tail), acc) == (match scan0(tail) {
            Some(r) => Some(seq![Cell(m)] + r),
            None => None,
        }),
    decreases 9 - p,
{
    let s = cell_chars(m).skip(p) + (seq![' '] + tail);
    if p == 9 {
        assert(s =~= seq![' '] + tail);
        assert(s[0] == ' ');
        assert(s.skip(1) =~= tail);
        lemma_mask_through_full(m);
        assert(acc == m);
    } else {
        assert(s[0] == cell_chars(m)[p]);
        lemma_cell_char(m, p);
        assert(s.skip(1) =~= cell_chars(m).skip(p + 1) + (seq![' '] + tail));
        assert(acc | char_bit(cell_chars(m)[p]) == mask_through(m, p + 1)) by {
            if !has_bit(m, (p + 1) as u16) {
                crate::bits::lemma_or_zero(acc);
            }
        }
        lemma_scan_cell(m, tail, p + 1, acc | char_bit(cell_chars(m)[p]));
    }
}

/// Parsing the debug grid text of the cells from `i` on yields those cells.
proof fn lemma_parse_from(s: Seq<Cell>, i: int)
    requires
        board_wf(s),
        0 <= i <= 81,
    ensures
        scan0(grid_chars_from(s, i)) == Some(s.skip(i)),
    decreases 81 - i,
{
    if i == 81 {
        assert(s.skip(81) =~= Seq::<Cell>::empty());
    } else {
        lemma_parse_from(s, i + 1);
        let m = s[i].0;
        let rest = grid_chars_from(s, i + 1);
        let x = cell_chars(m) + seq![' '] + rest;
        assert(x[0] == cell_chars(m)[0]);
        lemma_cell_char(m, 0);
        assert(x.skip(1) =~= cell_chars(m).skip(1) + (seq![' '] + rest));
        assert(char_bit(cell_chars(m)[0]) == mask_through(m, 1)) by {
            assert(mask_through(m, 0) == 0);
            if !has_bit(m, 1u16) {
                crate::bits::lemma_or_zero(0u16);
            } else {
                crate::bits::lemma_or_zero(1u16 << 1u16);
            }
        }
        lemma_scan_cell(m, rest, 1, mask_through(m, 1));
        assert(scan0(x) == scan1(x.skip(1), char_bit(x[0])));
        assert(scan0(x) == Some(seq![Cell(m)] + s.skip(i + 1)));
        assert(seq![Cell(m)] + s.skip(i + 1) =~= s.skip(i)) by {
            assert(s[i] == Cell(s[i].0));
        }
        let g = grid_chars_from(s, i);
        assert(g == sep_chars(i) + cell_chars(m) + seq![' '] + rest);
        let one = seq!['\n'] + x;
        assert(one[0] == '\n' && is_sep('\n'));
        assert(one.skip(1) =~= x);
        assert(scan0(one) == scan0(x));
        if i % 9 == 0 && i % 27 == 0 {
            let two = seq!['\n'] + one;
            assert(g =~= two);
            assert(two[0] == '\n');
            assert(two.skip(1) =~= one);
            assert(scan0(two) == scan0(one));
            assert(scan0(g) == scan0(x));
        } else if i % 9 == 0 || i % 27 == 0 {
            assert(g =~= one);
            assert(scan0(g) == scan0(x));
        } else {
            assert(g =~= x);
        }
        assert(scan0(g) == Some(s.skip(i)));
    }
}

/// Round trip: formatting any board to the debug grid and parsing it back
/// yields a bit-for-bit identical board.
pub proof fn lemma_debug_grid_round_trip(s: Seq<Cell>)
    requires
        board_wf(s),
    ensures
        scan0(grid_chars(s)) == Some(s),
{
    lemma_parse_from(s, 0);
    assert(s.skip(0) =~= s);
}

} // verus!
