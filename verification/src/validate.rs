//! The validation pass: normalization of the wall alias, the fixed-priority
//! well-formedness checks, and the conversion of a validated character grid
//! into the cell model.

use vstd::prelude::*;
use crate::cell::{Cell, char_to_cell};
use crate::errors::Error;
use crate::grid::{inb, rows_view, same_dims};

verus! {

/// Some cell of the grid holds this character.
pub open spec fn has_char(g: Seq<Seq<char>>, ch: char) -> bool {
    exists|r: int, c: int| inb(g, r, c) && #[trigger] g[r][c] == ch
}

/// Every row is as long as the first.
pub open spec fn rows_equal(g: Seq<Seq<char>>) -> bool {
    forall|i: int| 0 <= i < g.len() ==> (#[trigger] g[i]).len() == g[0].len()
}

/// The character is one of the four a normalized input may contain.
pub open spec fn valid_char(ch: char) -> bool {
    ch == 'A' || ch == 'B' || ch == '█' || ch == ' '
}

/// Every cell of the grid holds a recognized character.
pub open spec fn all_chars_valid(g: Seq<Seq<char>>) -> bool {
    forall|r: int, c: int| inb(g, r, c) ==> valid_char(#[trigger] g[r][c])
}

/// The outcome validation owes a grid: the first applicable failure in the
/// fixed priority order, or success.
pub open spec fn validation_of(g: Seq<Seq<char>>) -> Result<(), Error> {
    if g.len() == 0 {
        Err(Error::EmptyGrid)
    } else if !rows_equal(g) {
        Err(Error::MangledRows)
    } else if !has_char(g, 'A') {
        Err(Error::StartNotFound)
    } else if !has_char(g, 'B') {
        Err(Error::EndNotFound)
    } else if !all_chars_valid(g) {
        Err(Error::InvalidCharacter)
    } else {
        Ok(())
    }
}

fn find_char(maze: &Vec<Vec<char>>, target: char) -> (r: bool)
    ensures
        r == has_char(rows_view(maze@), target),
{
    let ghost g = rows_view(maze@);
    let mut ri: usize = 0;
    while ri < maze.len()
        invariant
            ri <= maze.len(),
            g == rows_view(maze@),
            forall|qr: int, qc: int| inb(g, qr, qc) && qr < ri ==> #[trigger] g[qr][qc] != target,
        decreases maze.len() - ri,
    {
        let row_len: usize = maze[ri].len();
        let mut ci: usize = 0;
        while ci < row_len
            invariant
                ci <= row_len,
                ri < maze.len(),
                row_len == g[ri as int].len(),
                g == rows_view(maze@),
                forall|qr: int, qc: int|
                    inb(g, qr, qc) && qr < ri ==> #[trigger] g[qr][qc] != target,
                forall|qc: int| 0 <= qc < ci ==> #[trigger] g[ri as int][qc] != target,
            decreases row_len - ci,
        {
            if maze[ri][ci] == target {
                return true;
            }
            ci = ci + 1;
        }
        ri = ri + 1;
    }
    false
}

fn rows_all_equal(maze: &Vec<Vec<char>>) -> (r: bool)
    requires
        maze@.len() > 0,
    ensures
        r == rows_equal(rows_view(maze@)),
{
    let ghost g = rows_view(maze@);
    let first_len: usize = maze[0].len();
    let mut ri: usize = 0;
    while ri < maze.len()
        invariant
            ri <= maze.len(),
            maze@.len() > 0,
            g == rows_view(maze@),
            first_len == g[0].len(),
            forall|i: int| 0 <= i < ri ==> (#[trigger] g[i]).len() == g[0].len(),
        decreases maze.len() - ri,
    {
        if maze[ri].len() != first_len {
            proof {
                assert(g[ri as int].len() != g[0].len());
            }
            return false;
        }
        ri = ri + 1;
    }
    true
}

fn chars_all_valid(maze: &Vec<Vec<char>>) -> (r: bool)
    ensures
        r == all_chars_valid(rows_view(maze@)),
{
    let ghost g = rows_view(maze@);
    let mut ri: usize = 0;
    while ri < maze.len()
        invariant
            ri <= maze.len(),
            g == rows_view(maze@),
            forall|qr: int, qc: int| inb(g, qr, qc) && qr < ri ==> valid_char(#[trigger] g[qr][qc]),
        decreases maze.len() - ri,
    {
        let row_len: usize = maze[ri].len();
        let mut ci: usize = 0;
        while ci < row_len
            invariant
                ci <= row_len,
                ri < maze.len(),
                row_len == g[ri as int].len(),
                g == rows_view(maze@),
                forall|qr: int, qc: int|
                    inb(g, qr, qc) && qr < ri ==> valid_char(#[trigger] g[qr][qc]),
                forall|qc: int| 0 <= qc < ci ==> valid_char(#[trigger] g[ri as int][qc]),
            decreases row_len - ci,
        {
            let ch = maze[ri][ci];
            if !(ch == 'A' || ch == 'B' || ch == '█' || ch == ' ') {
                return false;
            }
            ci = ci + 1;
        }
        ri = ri + 1;
    }
    true
}

/// Replace every `#` with the wall block, touching nothing else.
pub fn normalize(maze: &mut Vec<Vec<char>>)
    ensures
        same_dims(rows_view(old(maze)@), rows_view(final(maze)@)),
        forall|r: int, c: int|
            inb(rows_view(old(maze)@), r, c) ==> rows_view(final(maze)@)[r][c] == (if (
            #[trigger] rows_view(old(maze)@)[r][c]) == '#' {
                '█'
            } else {
                rows_view(old(maze)@)[r][c]
            }),
{
    let ghost g0 = rows_view(old(maze)@);
    let mut ri: usize = 0;
    while ri < maze.len()
        invariant
            ri <= maze@.len(),
            maze@.len() == g0.len(),
            forall|i: int| 0 <= i < g0.len() ==> (#[trigger] maze@[i])@.len() == g0[i].len(),
            forall|r: int, c: int|
                inb(g0, r, c) && r < ri ==> maze@[r]@[c] == (if (#[trigger] g0[r][c]) == '#' {
                    '█'
                } else {
                    g0[r][c]
                }),
            forall|r: int, c: int| inb(g0, r, c) && r >= ri ==> maze@[r]@[c] == #[trigger] g0[r][c],
        decreases maze.len() - ri,
    {
        let row_len: usize = maze[ri].len();
        let mut ci: usize = 0;
        while ci < row_len
            invariant
                ci <= row_len,
                ri < maze@.len(),
                maze@.len() == g0.len(),
                row_len == g0[ri as int].len(),
                forall|i: int| 0 <= i < g0.len() ==> (#[trigger] maze@[i])@.len() == g0[i].len(),
                forall|r: int, c: int|
                    inb(g0, r, c) && r < ri ==> maze@[r]@[c] == (if (#[trigger] g0[r][c]) == '#' {
                        '█'
                    } else {
                        g0[r][c]
                    }),
                forall|c: int|
                    0 <= c < ci ==> maze@[ri as int]@[c] == (if (#[trigger] g0[ri as int][c])
                        == '#' {
                        '█'
                    } else {
                        g0[ri as int][c]
                    }),
                forall|c: int|
                    ci <= c < row_len ==> maze@[ri as int]@[c] == #[trigger] g0[ri as int][c],
                forall|r: int, c: int|
                    inb(g0, r, c) && r > ri ==> maze@[r]@[c] == #[trigger] g0[r][c],
            decreases row_len - ci,
        {
            if maze[ri][ci] == '#' {
                maze[ri][ci] = '█';
            }
            ci = ci + 1;
        }
        ri = ri + 1;
    }
}

/// Run the fixed-priority checks and report success or the first failure.
pub fn is_maze_valid(maze: &Vec<Vec<char>>) -> (r: Result<(), Error>)
    ensures
        r == validation_of(rows_view(maze@)),
{
    if maze.len() == 0 {
        Err(Error::EmptyGrid)
    } else if !rows_all_equal(maze) {
        Err(Error::MangledRows)
    } else if !find_char(maze, 'A') {
        Err(Error::StartNotFound)
    } else if !find_char(maze, 'B') {
        Err(Error::EndNotFound)
    } else if !chars_all_valid(maze) {
        Err(Error::InvalidCharacter)
    } else {
        Ok(())
    }
}

/// A grid that passes validation and carries its markers at most once — as
/// the data model demands — has exactly one start and exactly one end cell.
pub proof fn lemma_validation_unique_markers(g: Seq<Seq<char>>)
    requires
        validation_of(g) == Ok::<(), Error>(()),
        forall|r1: int, c1: int, r2: int, c2: int|
            inb(g, r1, c1) && inb(g, r2, c2) && (#[trigger] g[r1][c1]) == 'A' && (
            #[trigger] g[r2][c2]) == 'A' ==> r1 == r2 && c1 == c2,
        forall|r1: int, c1: int, r2: int, c2: int|
            inb(g, r1, c1) && inb(g, r2, c2) && (#[trigger] g[r1][c1]) == 'B' && (
            #[trigger] g[r2][c2]) == 'B' ==> r1 == r2 && c1 == c2,
    ensures
        exists|r: int, c: int|
            inb(g, r, c) && (#[trigger] g[r][c]) == 'A' && forall|r2: int, c2: int|
                inb(g, r2, c2) && (#[trigger] g[r2][c2]) == 'A' ==> r2 == r && c2 == c,
        exists|r: int, c: int|
            inb(g, r, c) && (#[trigger] g[r][c]) == 'B' && forall|r2: int, c2: int|
                inb(g, r2, c2) && (#[trigger] g[r2][c2]) == 'B' ==> r2 == r && c2 == c,
{
    assert(has_char(g, 'A'));
    assert(has_char(g, 'B'));
    let (ra, ca) = choose|r: int, c: int| inb(g, r, c) && #[trigger] g[r][c] == 'A';
    assert(inb(g, ra, ca) && g[ra][ca] == 'A' && forall|r2: int, c2: int|
        inb(g, r2, c2) && (#[trigger] g[r2][c2]) == 'A' ==> r2 == ra && c2 == ca);
    let (rb, cb) = choose|r: int, c: int| inb(g, r, c) && #[trigger] g[r][c] == 'B';
    assert(inb(g, rb, cb) && g[rb][cb] == 'B' && forall|r2: int, c2: int|
        inb(g, r2, c2) && (#[trigger] g[r2][c2]) == 'B' ==> r2 == rb && c2 == cb);
}

/// Convert a validated character grid into cells, preserving its shape and
/// reading each character as the cell it denotes.
pub fn to_cells(maze: &Vec<Vec<char>>) -> (out: Vec<Vec<Cell>>)
    requires
        all_chars_valid(rows_view(maze@)),
    ensures
        same_dims(rows_view(maze@), rows_view(out@)),
        forall|r: int, c: int|
            inb(rows_view(maze@), r, c) ==> Some(rows_view(out@)[r][c]) == char_to_cell(
                #[trigger] rows_view(maze@)[r][c],
            ),
{
    let ghost g = rows_view(maze@);
    let mut out: Vec<Vec<Cell>> = Vec::new();
    let mut ri: usize = 0;
    while ri < maze.len()
        invariant
            ri <= maze.len(),
            g == rows_view(maze@),
            all_chars_valid(g),
            out@.len() == ri,
            forall|i: int| 0 <= i < ri ==> (#[trigger] out@[i])@.len() == g[i].len(),
            forall|r: int, c: int|
                0 <= r < ri && 0 <= c < g[r].len() ==> Some(out@[r]@[c]) == char_to_cell(
                    #[trigger] g[r][c],
                ),
        decreases maze.len() - ri,
    {
        let row_len: usize = maze[ri].len();
        let mut row: Vec<Cell> = Vec::new();
        let mut ci: usize = 0;
        while ci < row_len
            invariant
                ci <= row_len,
                ri < maze.len(),
                g == rows_view(maze@),
                all_chars_valid(g),
                row_len == g[ri as int].len(),
                row@.len() == ci,
                forall|c: int|
                    0 <= c < ci ==> Some(row@[c]) == char_to_cell(#[trigger] g[ri as int][c]),
            decreases row_len - ci,
        {
            let ch = maze[ri][ci];
            let cell = if ch == 'A' {
                Cell::Start
            } else if ch == 'B' {
                Cell::End
            } else if ch == '█' {
                Cell::Wall
            } else {
                Cell::Open
            };
            row.push(cell);
            ci = ci + 1;
        }
        out.push(row);
        ri = ri + 1;
    }
    out
}

} // verus!
