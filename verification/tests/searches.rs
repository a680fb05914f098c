use maze_solver::cell::Cell;
use maze_solver::errors::Error;
use maze_solver::grid::{get_end, get_start, render};
use maze_solver::search::{a_star, bfs, greedy_best_first_search, manhattan_dist};
use maze_solver::solver::{Algorithm, maze_solver, parse_algorithm};
use maze_solver::validate::{is_maze_valid, to_cells};
use maze_solver::visited::fresh_ledger;
use maze_solver::dfs::dfs;

fn grid(lines: &[&str]) -> Vec<Vec<Cell>> {
    let chars: Vec<Vec<char>> = lines.iter().map(|l| l.chars().collect()).collect();
    assert_eq!(is_maze_valid(&chars), Ok(()));
    to_cells(&chars)
}

fn run(algorithm: Algorithm, maze: &Vec<Vec<Cell>>, display_visited: bool) -> (bool, Vec<Vec<Cell>>) {
    let mut work = maze.clone();
    let start = get_start(&work).unwrap();
    let end = get_end(&work).unwrap();
    let found = match algorithm {
        Algorithm::DFS => {
            let mut vis = fresh_ledger(&work);
            dfs(&mut work, start, display_visited, &mut vis)
        }
        Algorithm::BFS => bfs(&mut work, start, display_visited),
        Algorithm::GreedyBestFirst => greedy_best_first_search(&mut work, start, end, display_visited),
        Algorithm::AStar => a_star(&mut work, start, end, display_visited),
    };
    (found, work)
}

fn count_path_cells(maze: &Vec<Vec<Cell>>) -> usize {
    maze.iter().map(|row| row.iter().filter(|c| **c == Cell::Path).count()).sum()
}

fn path_cells(maze: &Vec<Vec<Cell>>) -> Vec<(usize, usize)> {
    let mut out = Vec::new();
    for (r, row) in maze.iter().enumerate() {
        for (c, cell) in row.iter().enumerate() {
            if *cell == Cell::Path {
                out.push((r, c));
            }
        }
    }
    out
}

const ALL: [Algorithm; 4] =
    [Algorithm::DFS, Algorithm::BFS, Algorithm::GreedyBestFirst, Algorithm::AStar];

#[test]
fn small_bend_found_by_bfs_and_dfs() {
    let maze = grid(&["A ", " █", " B"]);
    let (bfs_found, bfs_grid) = run(Algorithm::BFS, &maze, false);
    assert!(bfs_found);
    assert_eq!(render(&bfs_grid), vec![
        "A ".chars().collect::<Vec<char>>(),
        "*█".chars().collect::<Vec<char>>(),
        "*B".chars().collect::<Vec<char>>(),
    ]);
    let (dfs_found, _) = run(Algorithm::DFS, &maze, false);
    assert!(dfs_found);
}

#[test]
fn unique_path_grid_pinned_for_all_algorithms() {
    let maze = grid(&["A ", " █", " B"]);
    let expected = vec![
        "A ".chars().collect::<Vec<char>>(),
        "*█".chars().collect::<Vec<char>>(),
        "*B".chars().collect::<Vec<char>>(),
    ];
    for alg in ALL {
        let (found, annotated) = run(alg, &maze, false);
        assert!(found);
        assert_eq!(render(&annotated), expected);
    }
}

#[test]
fn enclosed_end_fails_for_all_algorithms_without_marks() {
    let maze = grid(&["A    ", " ███ ", " █B█ ", " ███ "]);
    for alg in ALL {
        let (found, annotated) = run(alg, &maze, false);
        assert!(!found);
        assert_eq!(count_path_cells(&annotated), 0);
        for row in render(&annotated) {
            assert!(!row.contains(&'*'));
        }
    }
}

#[test]
fn outcome_is_algorithm_independent_on_solvable_grid() {
    let maze = grid(&["A  ", " █ ", "  B"]);
    for alg in ALL {
        let (found, _) = run(alg, &maze, false);
        assert!(found);
    }
}

#[test]
fn bfs_and_a_star_report_equal_shortest_path_length() {
    let maze = grid(&["A   ", " ██ ", "    ", "███ ", "B   "]);
    let (bfs_found, bfs_grid) = run(Algorithm::BFS, &maze, false);
    let (astar_found, astar_grid) = run(Algorithm::AStar, &maze, false);
    let (gbfs_found, gbfs_grid) = run(Algorithm::GreedyBestFirst, &maze, false);
    let (dfs_found, dfs_grid) = run(Algorithm::DFS, &maze, false);
    assert!(bfs_found && astar_found && gbfs_found && dfs_found);
    let shortest = count_path_cells(&bfs_grid);
    assert_eq!(count_path_cells(&astar_grid), shortest);
    assert!(count_path_cells(&gbfs_grid) >= shortest);
    assert!(count_path_cells(&dfs_grid) >= shortest);
}

#[test]
fn marked_path_is_a_4_adjacent_chain_between_markers() {
    let maze = grid(&["A  ", " █ ", "  B"]);
    for alg in ALL {
        let (found, annotated) = run(alg, &maze, false);
        assert!(found);
        assert_eq!(annotated[0][0], Cell::Start);
        assert_eq!(annotated[2][2], Cell::End);
        let mut cells = path_cells(&annotated);
        cells.push((0, 0));
        cells.push((2, 2));
        for &(r, c) in &cells {
            let neighbors = cells
                .iter()
                .filter(|&&(nr, nc)| {
                    (nr == r && (nc + 1 == c || c + 1 == nc)) || (nc == c && (nr + 1 == r || r + 1 == nr))
                })
                .count();
            assert!(neighbors >= 1);
        }
    }
}

#[test]
fn visited_flag_changes_only_visited_marks() {
    let maze = grid(&["A  ", " █ ", "  B"]);
    for alg in ALL {
        let (plain_found, plain) = run(alg, &maze, false);
        let (marked_found, marked) = run(alg, &maze, true);
        assert_eq!(plain_found, marked_found);
        assert_eq!(path_cells(&plain), path_cells(&marked));
        for row in &plain {
            assert!(!row.contains(&Cell::Visited));
        }
        for r in 0..plain.len() {
            for c in 0..plain[r].len() {
                if marked[r][c] != plain[r][c] {
                    assert_eq!(plain[r][c], Cell::Open);
                    assert_eq!(marked[r][c], Cell::Visited);
                }
            }
        }
    }
}

#[test]
fn visited_marks_appear_when_requested() {
    let maze = grid(&["A  ", "█ █", "  B"]);
    let (found, annotated) = run(Algorithm::BFS, &maze, true);
    assert!(found);
    let visited: usize =
        annotated.iter().map(|row| row.iter().filter(|c| **c == Cell::Visited).count()).sum();
    assert!(visited > 0);
}

#[test]
fn solver_dispatch_annotates_in_place() {
    for alg in ALL {
        let mut maze = grid(&["A ", " █", " B"]);
        maze_solver(&mut maze, alg, false);
        assert!(count_path_cells(&maze) > 0);
        assert_eq!(maze[0][0], Cell::Start);
        assert_eq!(maze[2][1], Cell::End);
    }
}

#[test]
fn manhattan_distance_formula() {
    assert_eq!(manhattan_dist((0, 0), (2, 3)), 5);
    assert_eq!(manhattan_dist((2, 3), (0, 0)), 5);
    assert_eq!(manhattan_dist((4, 4), (4, 4)), 0);
    assert_eq!(manhattan_dist((7, 1), (2, 9)), 13);
}

#[test]
fn algorithm_tokens_parse_exactly() {
    assert_eq!(parse_algorithm(&"A*".chars().collect()), Ok(Algorithm::AStar));
    assert_eq!(parse_algorithm(&"BFS".chars().collect()), Ok(Algorithm::BFS));
    assert_eq!(parse_algorithm(&"DFS".chars().collect()), Ok(Algorithm::DFS));
    assert_eq!(parse_algorithm(&"GBFS".chars().collect()), Ok(Algorithm::GreedyBestFirst));
    assert_eq!(parse_algorithm(&"bfs".chars().collect()), Err(Error::InvalidAlgorithm));
    assert_eq!(parse_algorithm(&"".chars().collect()), Err(Error::InvalidAlgorithm));
    assert_eq!(parse_algorithm(&"A**".chars().collect()), Err(Error::InvalidAlgorithm));
}
