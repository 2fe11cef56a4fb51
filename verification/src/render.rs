//! The renderer: assembles the output grid into terminal text, one line per
//! grid row. A color-set escape sequence (both the quantized 256-color
//! index and the explicit 24-bit color) is emitted before a cell only when
//! the cell starts a row with a non-blank character or its color differs
//! from the previous cell's, so runs of identical colors pay for one escape
//! sequence; every row ends with a style reset before the newline.

use vstd::prelude::*;

verus! {

use crate::grid::Grid;
use crate::palette::{ansi256_of, rgb_to_ansi256};

/// The decimal digit character for `d` (`0 <= d <= 9`).
pub open spec fn digit_char(d: int) -> char {
    ((48 + d) as u8) as char
}

/// The decimal expansion of a byte value, without leading zeros.
pub open spec fn dec_u8(n: int) -> Seq<char> {
    if n < 10 {
        seq![digit_char(n)]
    } else if n < 100 {
        seq![digit_char(n / 10), digit_char(n % 10)]
    } else {
        seq![digit_char(n / 100), digit_char((n / 10) % 10), digit_char(n % 10)]
    }
}

/// The color-set escape sequence for a cell color: the quantized 256-color
/// palette index, then the explicit 24-bit color.
pub open spec fn style_seq(color: (u8, u8, u8)) -> Seq<char> {
    seq!['\x1b', '[', '3', '8', ';', '5', ';'] + dec_u8(
        ansi256_of(color.0 as int, color.1 as int, color.2 as int),
    ) + seq!['m', '\x1b', '[', '3', '8', ';', '2', ';'] + dec_u8(color.0 as int) + seq![';']
        + dec_u8(color.1 as int) + seq![';'] + dec_u8(color.2 as int) + seq!['m']
}

/// The style reset emitted at the end of every row, before the newline.
pub open spec fn reset_seq() -> Seq<char> {
    seq!['\x1b', '[', '0', 'm', '\n']
}

/// Whether cell `i` of a row is styled: it starts the row with a non-blank
/// character, or its color differs from the cell before it.
pub open spec fn cell_styled(row: Seq<(char, (u8, u8, u8))>, i: int) -> bool {
    if i == 0 {
        row[0].0 != ' '
    } else {
        row[i - 1].1 != row[i].1
    }
}

/// What cell `i` of a row contributes to the output.
pub open spec fn cell_seq(row: Seq<(char, (u8, u8, u8))>, i: int) -> Seq<char> {
    if cell_styled(row, i) {
        style_seq(row[i].1) + seq![row[i].0]
    } else {
        seq![row[i].0]
    }
}

/// The output of the first `n` cells of a row.
pub open spec fn row_prefix_seq(row: Seq<(char, (u8, u8, u8))>, n: int) -> Seq<char>
    decreases n,
{
    if n <= 0 {
        Seq::empty()
    } else {
        row_prefix_seq(row, n - 1) + cell_seq(row, n - 1)
    }
}

/// The full output of one row: its cells, the style reset, the newline.
pub open spec fn row_seq(row: Seq<(char, (u8, u8, u8))>) -> Seq<char> {
    row_prefix_seq(row, row.len() as int) + reset_seq()
}

/// The output of the first `m` rows of a grid of `columns`-cell rows.
pub open spec fn render_prefix(cells: Seq<(char, (u8, u8, u8))>, columns: int, m: int) -> Seq<
    char,
>
    decreases m,
{
    if m <= 0 {
        Seq::empty()
    } else {
        render_prefix(cells, columns, m - 1) + row_seq(
            cells.subrange((m - 1) * columns, m * columns),
        )
    }
}

/// The terminal text for a whole grid: `rows` lines of `columns` cells.
pub open spec fn render_seq(cells: Seq<(char, (u8, u8, u8))>, columns: int, rows: int) -> Seq<
    char,
> {
    render_prefix(cells, columns, rows)
}

/// Appends the decimal expansion of `n`.
fn push_dec_u8(out: &mut Vec<char>, n: u8)
    ensures
        final(out)@ == old(out)@ + dec_u8(n as int),
{
    if n < 10 {
        out.push((48 + n) as char);
        assert(out@ =~= old(out)@ + dec_u8(n as int));
    } else if n < 100 {
        out.push((48 + n / 10) as char);
        out.push((48 + n % 10) as char);
        assert(out@ =~= old(out)@ + dec_u8(n as int));
    } else {
        out.push((48 + n / 100) as char);
        out.push((48 + (n / 10) % 10) as char);
        out.push((48 + n % 10) as char);
        assert(out@ =~= old(out)@ + dec_u8(n as int));
    }
}

/// Appends the color-set escape sequence for `color`.
fn push_style(out: &mut Vec<char>, color: (u8, u8, u8))
    ensures
        final(out)@ == old(out)@ + style_seq(color),
{
    let idx = rgb_to_ansi256(color.0, color.1, color.2);
    out.push('\x1b');
    out.push('[');
    out.push('3');
    out.push('8');
    out.push(';');
    out.push('5');
    out.push(';');
    push_dec_u8(out, idx);
    out.push('m');
    out.push('\x1b');
    out.push('[');
    out.push('3');
    out.push('8');
    out.push(';');
    out.push('2');
    out.push(';');
    push_dec_u8(out, color.0);
    out.push(';');
    push_dec_u8(out, color.1);
    out.push(';');
    push_dec_u8(out, color.2);
    out.push('m');
    assert(out@ =~= old(out)@ + style_seq(color));
}

/// Renders the grid into terminal text: each row's cells with run-length
/// compressed color escapes, a style reset and a newline after every row.
pub fn render(g: &Grid) -> (out: String)
    requires
        g.cells@.len() == (g.columns as int) * (g.rows as int),
        g.columns >= 1,
    ensures
        out@ == render_seq(g.cells@, g.columns as int, g.rows as int),
{
    let columns = g.columns;
    let rows = g.rows;
    let n = g.cells.len();
    let ghost cells = g.cells@;
    let mut out: Vec<char> = Vec::new();
    let mut row: usize = 0;
    while row < rows
        invariant
            row <= rows,
            columns >= 1,
            cells == g.cells@,
            n == cells.len(),
            cells.len() == (columns as int) * (rows as int),
            out@ == render_prefix(cells, columns as int, row as int),
        decreases rows - row,
    {
        proof {
            assert((row as int + 1) * (columns as int) <= (rows as int) * (columns as int))
                by (nonlinear_arith)
                requires
                    (row as int) < (rows as int),
                    0 <= columns as int,
            ;
            assert((rows as int) * (columns as int) == (columns as int) * (rows as int))
                by (nonlinear_arith);
            assert((row as int + 1) * (columns as int) == (row as int) * (columns as int)
                + columns as int) by (nonlinear_arith);
        }
        let base = row * columns;
        let ghost rowseq = cells.subrange(base as int, base as int + columns as int);
        proof {
            assert(base as int + columns as int == (row as int + 1) * (columns as int));
        }
        let mut col: usize = 0;
        while col < columns
            invariant
                col <= columns,
                row < rows,
                columns >= 1,
                cells == g.cells@,
                n == cells.len(),
                cells.len() == (columns as int) * (rows as int),
                base == (row as int) * (columns as int),
                base + columns <= cells.len(),
                rowseq == cells.subrange(base as int, base as int + columns as int),
                rowseq.len() == columns as int,
                out@ == render_prefix(cells, columns as int, row as int) + row_prefix_seq(
                    rowseq,
                    col as int,
                ),
            decreases columns - col,
        {
            let k = base + col;
            let (c, color) = g.cells[k];
            assert((c, color) == rowseq[col as int]);
            let styled: bool = if col == 0 {
                c != ' '
            } else {
                let (_, prev) = g.cells[k - 1];
                assert((col - 1) as int >= 0 && rowseq[col as int - 1].1 == prev);
                prev.0 != color.0 || prev.1 != color.1 || prev.2 != color.2
            };
            assert(styled == cell_styled(rowseq, col as int));
            if styled {
                push_style(&mut out, color);
            }
            out.push(c);
            proof {
                assert(out@ =~= render_prefix(cells, columns as int, row as int)
                    + row_prefix_seq(rowseq, col as int + 1));
            }
            col = col + 1;
        }
        out.push('\x1b');
        out.push('[');
        out.push('0');
        out.push('m');
        out.push('\n');
        proof {
            assert(cells.subrange(
                (row as int) * (columns as int),
                (row as int + 1) * (columns as int),
            ) == rowseq);
            assert(out@ =~= render_prefix(cells, columns as int, row as int) + row_seq(rowseq));
            assert(out@ =~= render_prefix(cells, columns as int, row as int + 1));
        }
        row = row + 1;
    }
    chars_to_string(&out)
}

/// Relies on String's FromIterator over characters: collecting a character
/// vector yields the string of exactly those characters.
#[verifier::external_body]
fn chars_to_string(v: &Vec<char>) -> (r: String)
    ensures
        r@ == v@,
{
    v.iter().collect()
}

} // verus!
