//! The cell model: each grid position holds one tagged variant rather than a
//! raw character, with the mapping between variants and the textual symbols.

use vstd::prelude::*;

verus! {

/// One grid cell. `Visited` and `Path` are annotations produced by a search;
/// they never appear in a freshly validated grid.
#[derive(Clone, Copy, Debug, PartialEq, Eq, Structural)]
pub enum Cell {
    Wall,
    Open,
    Start,
    End,
    Visited,
    Path,
}

/// The symbol a cell is rendered as: walls as a full block, open floor as a
/// space, start and end as their markers, visited cells as `@`, path cells
/// as `*`.
pub open spec fn cell_to_char(c: Cell) -> char {
    match c {
        Cell::Wall => '█',
        Cell::Open => ' ',
        Cell::Start => 'A',
        Cell::End => 'B',
        Cell::Visited => '@',
        Cell::Path => '*',
    }
}

/// The cell a validated input symbol denotes. `#` is an accepted alias for
/// the wall block; `@` and `*` are output-only and not valid input.
pub open spec fn char_to_cell(ch: char) -> Option<Cell> {
    if ch == 'A' {
        Some(Cell::Start)
    } else if ch == 'B' {
        Some(Cell::End)
    } else if ch == '█' || ch == '#' {
        Some(Cell::Wall)
    } else if ch == ' ' {
        Some(Cell::Open)
    } else {
        None
    }
}

/// Render one cell as its output symbol.
pub fn char_of_cell(c: Cell) -> (r: char)
    ensures
        r == cell_to_char(c),
{
    match c {
        Cell::Wall => '█',
        Cell::Open => ' ',
        Cell::Start => 'A',
        Cell::End => 'B',
        Cell::Visited => '@',
        Cell::Path => '*',
    }
}

/// Read one input symbol as a cell, or `None` if it is not recognized.
pub fn cell_of_char(ch: char) -> (r: Option<Cell>)
    ensures
        r == char_to_cell(ch),
{
    if ch == 'A' {
        Some(Cell::Start)
    } else if ch == 'B' {
        Some(Cell::End)
    } else if ch == '█' || ch == '#' {
        Some(Cell::Wall)
    } else if ch == ' ' {
        Some(Cell::Open)
    } else {
        None
    }
}

} // verus!
