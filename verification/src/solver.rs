//! Algorithm selection and the top-level dispatch that runs one search over
//! a validated grid.

use vstd::prelude::*;
use crate::cell::Cell;
use crate::dfs::{dfs, dfs_cell_change, dfs_marked, dfs_state, spine_fresh};
use crate::errors::Error;
use crate::grid::{get_end, get_start, grid_wf, inb, input_cells_only, row_major_le, rows_view};
use crate::reach::{adjacent, cell_reachable, closed_set, lemma_closed_set_covers, reaches_end};
use crate::search::{a_star, bfs, greedy_best_first_search, interior_contains, ipair, marks_path, path_marked, search_outcome};
use crate::visited::fresh_ledger;

verus! {

/// The four interchangeable traversal strategies.
#[derive(Clone, Copy, Debug, PartialEq, Eq, Structural)]
pub enum Algorithm {
    DFS,
    BFS,
    GreedyBestFirst,
    AStar,
}

/// `s` is the first start-marker cell in row-major scan order.
pub open spec fn is_first_start(g: Seq<Seq<Cell>>, s: (int, int)) -> bool {
    &&& inb(g, s.0, s.1)
    &&& g[s.0][s.1] is Start
    &&& forall|qr: int, qc: int|
        inb(g, qr, qc) && (#[trigger] g[qr][qc]) is Start ==> row_major_le(s.0, s.1, qr, qc)
}

/// A validated grid: non-empty, rectangular, only input cells, with a start
/// and an end marker present.
pub open spec fn solvable_input(g: Seq<Seq<Cell>>) -> bool {
    &&& grid_wf(g)
    &&& input_cells_only(g)
    &&& exists|r: int, c: int| inb(g, r, c) && (#[trigger] g[r][c]) is Start
    &&& exists|r: int, c: int| inb(g, r, c) && (#[trigger] g[r][c]) is End
}

/// Run the selected search over a validated grid, annotating it in place.
/// Whatever the strategy, the annotated grid obeys the shared search
/// contract for the row-major-first start cell, with the outcome equal to
/// reachability — which does not depend on the strategy or the flag.
pub fn maze_solver(maze: &mut Vec<Vec<Cell>>, algorithm: Algorithm, display_visited: bool)
    requires
        solvable_input(rows_view(old(maze)@)),
    ensures
        exists|s: (int, int)|
            #[trigger] is_first_start(rows_view(old(maze)@), s) && search_outcome(
                rows_view(old(maze)@),
                rows_view(final(maze)@),
                s,
                display_visited,
                reaches_end(rows_view(old(maze)@), s),
            ),
{
    let ghost g0 = rows_view(old(maze)@);
    let start = get_start(maze).unwrap();
    let ghost s = ipair(start);
    match algorithm {
        Algorithm::DFS => {
            let mut vis = fresh_ledger(maze);
            let ghost v0 = rows_view(vis@);
            proof {
                assert(dfs_state(g0, v0));
            }
            let res = dfs(maze, start, display_visited, &mut vis);
            proof {
                let gf = rows_view(maze@);
                let vf = rows_view(vis@);
                assert(res == reaches_end(g0, s));
                assert forall|r: int, c: int| inb(g0, r, c) implies (#[trigger] gf[r][c])
                    == g0[r][c] || (g0[r][c] is Open && ((display_visited && gf[r][c] is Visited)
                    || (res && gf[r][c] is Path))) by {
                    assert(dfs_cell_change(
                        g0[r][c],
                        gf[r][c],
                        v0[r][c],
                        vf[r][c],
                        display_visited,
                        res,
                    ));
                }
                if res {
                    let ch = choose|ch: Seq<(int, int)>|
                        dfs_marked(g0, gf, s, ch) && spine_fresh(v0, vf, ch);
                    assert(path_marked(g0, gf, s, ch)) by {
                        assert forall|r: int, c: int| inb(g0, r, c) implies ((#[trigger] gf[r][c])
                            is Path <==> g0[r][c] is Open && interior_contains(ch, r, c)) by {
                            if g0[r][c] is Open && (exists|j: int|
                                0 <= j < ch.len() - 1 && #[trigger] ch[j] == (r, c)) {
                                let j = choose|j: int|
                                    0 <= j < ch.len() - 1 && #[trigger] ch[j] == (r, c);
                                assert(j != 0);
                                assert(interior_contains(ch, r, c));
                            }
                            if interior_contains(ch, r, c) {
                                let j = choose|j: int|
                                    1 <= j < ch.len() - 1 && #[trigger] ch[j] == (r, c);
                                assert(0 <= j < ch.len() - 1);
                            }
                        }
                    }
                    assert(marks_path(g0, gf, s));
                } else {
                    assert forall|r: int, c: int| inb(g0, r, c) implies !((#[trigger] gf[r][c])
                        is Path) by {
                        assert(dfs_state(gf, vf));
                    }
                }
                assert forall|r: int, c: int|
                    inb(g0, r, c) && (#[trigger] gf[r][c]) is Visited implies g0[r][c] is Open
                        && display_visited && cell_reachable(g0, s, (r, c)) by {
                    assert(dfs_cell_change(
                        g0[r][c],
                        gf[r][c],
                        v0[r][c],
                        vf[r][c],
                        display_visited,
                        res,
                    ));
                }
                if !res && display_visited {
                    let blocked = Set::new(|q: (int, int)| inb(g0, q.0, q.1) && vf[q.0][q.1]);
                    assert(blocked.contains(s));
                    assert(closed_set(g0, blocked)) by {
                        assert forall|q: (int, int), n: (int, int)|
                            #[trigger] blocked.contains(q) && #[trigger] adjacent(q, n) && inb(
                                g0,
                                n.0,
                                n.1,
                            ) && !(g0[n.0][n.1] is Wall) implies blocked.contains(n) by {
                            assert(vf[q.0][q.1] && !v0[q.0][q.1]);
                            assert(vf[n.0][n.1]);
                        }
                    }
                    assert forall|r: int, c: int|
                        inb(g0, r, c) implies ((#[trigger] gf[r][c]) is Visited <==> g0[r][c]
                        is Open && cell_reachable(g0, s, (r, c))) by {
                        if g0[r][c] is Open && cell_reachable(g0, s, (r, c)) {
                            lemma_closed_set_covers(g0, s, blocked, (r, c));
                            assert(vf[r][c] && !v0[r][c]);
                        }
                    }
                }
                assert(search_outcome(g0, gf, s, display_visited, res));
            }
        },
        Algorithm::BFS => {
            let _ = bfs(maze, start, display_visited);
        },
        Algorithm::GreedyBestFirst => {
            let end = get_end(maze).unwrap();
            let _ = greedy_best_first_search(maze, start, end, display_visited);
        },
        Algorithm::AStar => {
            let end = get_end(maze).unwrap();
            let _ = a_star(maze, start, end, display_visited);
        },
    }
    proof {
        assert(is_first_start(g0, s));
        assert(search_outcome(g0, rows_view(maze@), s, display_visited, reaches_end(g0, s)));
    }
}

/// Read an algorithm token: `A*`, `BFS`, `DFS` or `GBFS`, anything else
/// being an invalid-algorithm error.
pub fn parse_algorithm(token: &Vec<char>) -> (r: Result<Algorithm, Error>)
    ensures
        token@ == seq!['A', '*'] ==> r == Ok::<Algorithm, Error>(Algorithm::AStar),
        token@ == seq!['B', 'F', 'S'] ==> r == Ok::<Algorithm, Error>(Algorithm::BFS),
        token@ == seq!['D', 'F', 'S'] ==> r == Ok::<Algorithm, Error>(Algorithm::DFS),
        token@ == seq!['G', 'B', 'F', 'S'] ==> r == Ok::<Algorithm, Error>(
            Algorithm::GreedyBestFirst,
        ),
        token@ != seq!['A', '*'] && token@ != seq!['B', 'F', 'S'] && token@ != seq!['D', 'F', 'S']
            && token@ != seq!['G', 'B', 'F', 'S'] ==> r == Err::<Algorithm, Error>(
            Error::InvalidAlgorithm,
        ),
{
    if token.len() == 2 && token[0] == 'A' && token[1] == '*' {
        proof {
            assert(token@ =~= seq!['A', '*']);
        }
        Ok(Algorithm::AStar)
    } else if token.len() == 3 && token[0] == 'B' && token[1] == 'F' && token[2] == 'S' {
        proof {
            assert(token@ =~= seq!['B', 'F', 'S']);
        }
        Ok(Algorithm::BFS)
    } else if token.len() == 3 && token[0] == 'D' && token[1] == 'F' && token[2] == 'S' {
        proof {
            assert(token@ =~= seq!['D', 'F', 'S']);
        }
        Ok(Algorithm::DFS)
    } else if token.len() == 4 && token[0] == 'G' && token[1] == 'B' && token[2] == 'F' && token[3]
        == 'S' {
        proof {
            assert(token@ =~= seq!['G', 'B', 'F', 'S']);
        }
        Ok(Algorithm::GreedyBestFirst)
    } else {
        Err(Error::InvalidAlgorithm)
    }
}

} // verus!
