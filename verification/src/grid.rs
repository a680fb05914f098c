//! The grid model: views of the nested buffers, well-formedness, and the
//! row-major scans that locate the unique start and end markers.

use vstd::prelude::*;
use crate::cell::{Cell, cell_to_char, char_of_cell};

verus! {

/// A nested vector seen as a sequence of row sequences.
pub open spec fn rows_view<T>(g: Seq<Vec<T>>) -> Seq<Seq<T>> {
    Seq::new(g.len(), |i: int| g[i]@)
}

/// Position (r, c) indexes into the grid (rows may be ragged before
/// validation, so the column bound is that row's own length).
pub open spec fn inb<T>(g: Seq<Seq<T>>, r: int, c: int) -> bool {
    0 <= r < g.len() && 0 <= c < g[r].len()
}

/// Non-empty and rectangular: every row as long as the first.
pub open spec fn grid_wf<T>(g: Seq<Seq<T>>) -> bool {
    g.len() > 0 && forall|i: int| 0 <= i < g.len() ==> (#[trigger] g[i]).len() == g[0].len()
}

/// Every cell is one of the four that validated input may contain.
pub open spec fn input_cells_only(g: Seq<Seq<Cell>>) -> bool {
    forall|r: int, c: int|
        inb(g, r, c) ==> (#[trigger] g[r][c]) is Wall || g[r][c] is Open || g[r][c] is Start
            || g[r][c] is End
}

/// Two cell grids have the same shape.
pub open spec fn same_dims<T, U>(a: Seq<Seq<T>>, b: Seq<Seq<U>>) -> bool {
    a.len() == b.len() && forall|i: int| 0 <= i < a.len() ==> (#[trigger] a[i]).len() == b[i].len()
}

/// Position (pr, pc) comes no later than (qr, qc) in the row-major scan
/// order (top to bottom, left to right).
pub open spec fn row_major_le(pr: int, pc: int, qr: int, qc: int) -> bool {
    pr < qr || (pr == qr && pc <= qc)
}

/// Scan rows top to bottom, columns left to right, for the first cell equal
/// to `target`; `None` if no cell matches.
fn locate(maze: &Vec<Vec<Cell>>, target: Cell) -> (r: Option<(usize, usize)>)
    ensures
        match r {
            Some(p) => inb(rows_view(maze@), p.0 as int, p.1 as int)
                && rows_view(maze@)[p.0 as int][p.1 as int] == target && forall|qr: int, qc: int|
                inb(rows_view(maze@), qr, qc) && rows_view(maze@)[qr][qc] == target
                    ==> row_major_le(p.0 as int, p.1 as int, qr, qc),
            None => forall|qr: int, qc: int|
                inb(rows_view(maze@), qr, qc) ==> #[trigger] rows_view(maze@)[qr][qc] != target,
        },
{
    let ghost g = rows_view(maze@);
    let mut ri: usize = 0;
    while ri < maze.len()
        invariant
            ri <= maze.len(),
            g == rows_view(maze@),
            forall|qr: int, qc: int| inb(g, qr, qc) && qr < ri ==> #[trigger] g[qr][qc] != target,
        decreases maze.len() - ri,
    {
        let row_len: usize = maze[ri].len();
        let mut ci: usize = 0;
        while ci < row_len
            invariant
                ci <= row_len,
                ri < maze.len(),
                row_len == g[ri as int].len(),
                g == rows_view(maze@),
                forall|qr: int, qc: int|
                    inb(g, qr, qc) && qr < ri ==> #[trigger] g[qr][qc] != target,
                forall|qc: int| 0 <= qc < ci ==> #[trigger] g[ri as int][qc] != target,
            decreases row_len - ci,
        {
            if maze[ri][ci] == target {
                return Some((ri, ci));
            }
            ci = ci + 1;
        }
        ri = ri + 1;
    }
    None
}

/// First cell holding the start marker, in row-major scan order.
pub fn get_start(maze: &Vec<Vec<Cell>>) -> (r: Option<(usize, usize)>)
    ensures
        match r {
            Some(p) => inb(rows_view(maze@), p.0 as int, p.1 as int)
                && rows_view(maze@)[p.0 as int][p.1 as int] is Start && forall|qr: int, qc: int|
                inb(rows_view(maze@), qr, qc) && rows_view(maze@)[qr][qc] is Start
                    ==> row_major_le(p.0 as int, p.1 as int, qr, qc),
            None => forall|qr: int, qc: int|
                inb(rows_view(maze@), qr, qc) ==> !((#[trigger] rows_view(maze@)[qr][qc]) is Start),
        },
{
    locate(maze, Cell::Start)
}

/// First cell holding the end marker, in row-major scan order.
pub fn get_end(maze: &Vec<Vec<Cell>>) -> (r: Option<(usize, usize)>)
    ensures
        match r {
            Some(p) => inb(rows_view(maze@), p.0 as int, p.1 as int)
                && rows_view(maze@)[p.0 as int][p.1 as int] is End && forall|qr: int, qc: int|
                inb(rows_view(maze@), qr, qc) && rows_view(maze@)[qr][qc] is End
                    ==> row_major_le(p.0 as int, p.1 as int, qr, qc),
            None => forall|qr: int, qc: int|
                inb(rows_view(maze@), qr, qc) ==> !((#[trigger] rows_view(maze@)[qr][qc]) is End),
        },
{
    locate(maze, Cell::End)
}

/// Render every cell as its output symbol, preserving the grid's shape.
pub fn render(maze: &Vec<Vec<Cell>>) -> (out: Vec<Vec<char>>)
    ensures
        same_dims(rows_view(maze@), rows_view(out@)),
        forall|r: int, c: int|
            inb(rows_view(maze@), r, c) ==> rows_view(out@)[r][c] == cell_to_char(
                #[trigger] rows_view(maze@)[r][c],
            ),
{
    let ghost g = rows_view(maze@);
    let mut out: Vec<Vec<char>> = Vec::new();
    let mut ri: usize = 0;
    while ri < maze.len()
        invariant
            ri <= maze.len(),
            g == rows_view(maze@),
            out@.len() == ri,
            forall|i: int| 0 <= i < ri ==> (#[trigger] out@[i])@.len() == g[i].len(),
            forall|r: int, c: int|
                0 <= r < ri && 0 <= c < g[r].len() ==> out@[r]@[c] == cell_to_char(
                    #[trigger] g[r][c],
                ),
        decreases maze.len() - ri,
    {
        let row_len: usize = maze[ri].len();
        let mut row: Vec<char> = Vec::new();
        let mut ci: usize = 0;
        while ci < row_len
            invariant
                ci <= row_len,
                ri < maze.len(),
                g == rows_view(maze@),
                row_len == g[ri as int].len(),
                row@.len() == ci,
                forall|c: int| 0 <= c < ci ==> row@[c] == cell_to_char(#[trigger] g[ri as int][c]),
            decreases row_len - ci,
        {
            row.push(char_of_cell(maze[ri][ci]));
            ci = ci + 1;
        }
        out.push(row);
        ri = ri + 1;
    }
    out
}

} // verus!
