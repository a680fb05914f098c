use maze_solver::cell::{Cell, cell_of_char, char_of_cell};
use maze_solver::errors::Error;
use maze_solver::grid::{get_end, get_start, render};
use maze_solver::validate::{is_maze_valid, normalize, to_cells};

fn rows(lines: &[&str]) -> Vec<Vec<char>> {
    lines.iter().map(|l| l.chars().collect()).collect()
}

#[test]
fn empty_grid_rejected() {
    let g = rows(&[]);
    assert_eq!(is_maze_valid(&g), Err(Error::EmptyGrid));
}

#[test]
fn mangled_rows_rejected_before_search() {
    let g = rows(&["A ", "B"]);
    assert_eq!(is_maze_valid(&g), Err(Error::MangledRows));
}

#[test]
fn missing_start_rejected() {
    let g = rows(&[" B"]);
    assert_eq!(is_maze_valid(&g), Err(Error::StartNotFound));
}

#[test]
fn missing_end_rejected() {
    let g = rows(&["A "]);
    assert_eq!(is_maze_valid(&g), Err(Error::EndNotFound));
}

#[test]
fn invalid_character_rejected() {
    let g = rows(&["AxB"]);
    assert_eq!(is_maze_valid(&g), Err(Error::InvalidCharacter));
}

#[test]
fn mangled_rows_wins_over_missing_markers() {
    let g = rows(&["  ", "   "]);
    assert_eq!(is_maze_valid(&g), Err(Error::MangledRows));
}

#[test]
fn valid_grid_accepted() {
    let g = rows(&["A █", "  B"]);
    assert_eq!(is_maze_valid(&g), Ok(()));
}

#[test]
fn hash_normalized_to_wall_block() {
    let mut g = rows(&["A#B"]);
    normalize(&mut g);
    assert_eq!(g, rows(&["A█B"]));
    assert_eq!(is_maze_valid(&g), Ok(()));
}

#[test]
fn cells_round_trip_through_symbols() {
    for cell in [Cell::Wall, Cell::Open, Cell::Start, Cell::End] {
        assert_eq!(cell_of_char(char_of_cell(cell)), Some(cell));
    }
    assert_eq!(char_of_cell(Cell::Visited), '@');
    assert_eq!(char_of_cell(Cell::Path), '*');
    assert_eq!(cell_of_char('@'), None);
    assert_eq!(cell_of_char('*'), None);
    assert_eq!(cell_of_char('#'), Some(Cell::Wall));
}

#[test]
fn conversion_reads_each_symbol() {
    let g = rows(&["A█", " B"]);
    let cells = to_cells(&g);
    assert_eq!(cells[0][0], Cell::Start);
    assert_eq!(cells[0][1], Cell::Wall);
    assert_eq!(cells[1][0], Cell::Open);
    assert_eq!(cells[1][1], Cell::End);
    assert_eq!(render(&cells), g);
}

#[test]
fn locate_returns_first_in_row_major_order() {
    let cells = vec![
        vec![Cell::Open, Cell::Start, Cell::End],
        vec![Cell::Start, Cell::End, Cell::Open],
    ];
    assert_eq!(get_start(&cells), Some((0, 1)));
    assert_eq!(get_end(&cells), Some((0, 2)));
    let no_markers = vec![vec![Cell::Open, Cell::Wall]];
    assert_eq!(get_start(&no_markers), None);
    assert_eq!(get_end(&no_markers), None);
}
