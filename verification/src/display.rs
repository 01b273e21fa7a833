//! Rendering a raw grid description as a boxed ASCII picture.
//!
//! Independent of solving: the input is only filtered and laid out. Each of
//! the nine content rows shows its cells centered in two columns, grouped in
//! threes by `|`; a dashed separator follows every third row except the last.

use vstd::prelude::*;
use crate::board::{filter_chars, filter_grid};
use crate::engine::{PuzzleError, Sudoku};
use crate::text::push_char;

verus! {

/// The rendered line for row `r` (0..9) of a filtered 81-character grid.
pub open spec fn row_line(g: Seq<char>, r: int) -> Seq<char> {
    seq![
        g[r * 9 + 0],
        ' ',
        g[r * 9 + 1],
        ' ',
        g[r * 9 + 2],
        ' ',
        '|',
        g[r * 9 + 3],
        ' ',
        g[r * 9 + 4],
        ' ',
        g[r * 9 + 5],
        ' ',
        '|',
        g[r * 9 + 6],
        ' ',
        g[r * 9 + 7],
        ' ',
        g[r * 9 + 8],
        ' ',
    ]
}

/// The dashed line between row blocks.
pub open spec fn separator_line() -> Seq<char> {
    seq![
        '-',
        '-',
        '-',
        '-',
        '-',
        '-',
        '+',
        '-',
        '-',
        '-',
        '-',
        '-',
        '-',
        '+',
        '-',
        '-',
        '-',
        '-',
        '-',
        '-',
    ]
}

/// Build the separator line.
fn separator() -> (s: String)
    ensures
        s@ =~= separator_line(),
{
    let mut s = String::new();
    push_char(&mut s, '-');
    push_char(&mut s, '-');
    push_char(&mut s, '-');
    push_char(&mut s, '-');
    push_char(&mut s, '-');
    push_char(&mut s, '-');
    push_char(&mut s, '+');
    push_char(&mut s, '-');
    push_char(&mut s, '-');
    push_char(&mut s, '-');
    push_char(&mut s, '-');
    push_char(&mut s, '-');
    push_char(&mut s, '-');
    push_char(&mut s, '+');
    push_char(&mut s, '-');
    push_char(&mut s, '-');
    push_char(&mut s, '-');
    push_char(&mut s, '-');
    push_char(&mut s, '-');
    push_char(&mut s, '-');
    s
}

/// Build the rendered line for row `r` of the filtered grid `g`.
fn render_row(g: &Vec<char>, r: usize) -> (s: String)
    requires
        g@.len() == 81,
        r < 9,
    ensures
        s@ =~= row_line(g@, r as int),
{
    let base = r * 9;
    let mut s = String::new();
    push_char(&mut s, g[base + 0]);
    push_char(&mut s, ' ');
    push_char(&mut s, g[base + 1]);
    push_char(&mut s, ' ');
    push_char(&mut s, g[base + 2]);
    push_char(&mut s, ' ');
    push_char(&mut s, '|');
    push_char(&mut s, g[base + 3]);
    push_char(&mut s, ' ');
    push_char(&mut s, g[base + 4]);
    push_char(&mut s, ' ');
    push_char(&mut s, g[base + 5]);
    push_char(&mut s, ' ');
    push_char(&mut s, '|');
    push_char(&mut s, g[base + 6]);
    push_char(&mut s, ' ');
    push_char(&mut s, g[base + 7]);
    push_char(&mut s, ' ');
    push_char(&mut s, g[base + 8]);
    push_char(&mut s, ' ');
    s
}

impl Sudoku {
    /// Render a grid description as eleven lines: nine content rows with a
    /// dashed separator after the third and the sixth.
    pub fn display(grid: &str) -> (res: Result<Vec<String>, PuzzleError>)
        ensures
            res is Err <==> filter_grid(grid@).len() != 81,
            res matches Err(e) ==> e == PuzzleError::InvalidGrid,
            res matches Ok(lines) ==> lines@.len() == 11 && (forall|r: int|
                0 <= r < 9 ==> #[trigger] lines@[r + r / 3]@ == row_line(filter_grid(grid@), r))
                && lines@[3]@ == separator_line() && lines@[7]@ == separator_line(),
    {
        let g = filter_chars(grid);
        if g.len() != 81 {
            return Err(PuzzleError::InvalidGrid);
        }
        let mut lines: Vec<String> = Vec::new();
        let mut r: usize = 0;
        while r < 9
            invariant
                g@ == filter_grid(grid@),
                g@.len() == 81,
                r <= 9,
                lines@.len() == r + (if r < 6 {
                    r / 3
                } else {
                    2
                }),
                forall|rr: int|
                    0 <= rr < r ==> #[trigger] lines@[rr + rr / 3]@ == row_line(g@, rr),
                r >= 3 ==> lines@[3]@ == separator_line(),
                r >= 6 ==> lines@[7]@ == separator_line(),
            decreases 9 - r,
        {
            lines.push(render_row(&g, r));
            if r == 2 || r == 5 {
                lines.push(separator());
            }
            r += 1;
        }
        Ok(lines)
    }
}

} // verus!
