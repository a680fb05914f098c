//! The frontier-based searches: breadth-first, greedy best-first and A*.
//! All three share one loop that differs only in which frontier entry is
//! taken next; every contract states the result as grid reachability and
//! pins down exactly how the grid is annotated.

use vstd::prelude::*;
use crate::cell::Cell;
use crate::grid::{grid_wf, inb, input_cells_only, rows_view, same_dims};
use crate::reach::{adjacent, cell_reachable, chain_ok, closed_set, distinct_chain, lemma_closed_set_covers, lemma_closed_set_unreachable, reaches_end};
use crate::solver::Algorithm;
use crate::visited::{fresh_ledger, grid_unvisited, lemma_grid_monotone, lemma_grid_update};

verus! {

/// Distance of two coordinates in one dimension.
pub open spec fn abs_diff(a: int, b: int) -> int {
    if a > b {
        a - b
    } else {
        b - a
    }
}

/// Manhattan distance: the sum of the absolute row and column differences.
pub open spec fn manhattan(p1: (int, int), p2: (int, int)) -> int {
    abs_diff(p1.0, p2.0) + abs_diff(p1.1, p2.1)
}

/// An unsigned coordinate pair as its mathematical counterpart.
pub open spec fn ipair(q: (usize, usize)) -> (int, int) {
    (q.0 as int, q.1 as int)
}

/// A sequence of unsigned coordinate pairs as mathematical coordinates.
pub open spec fn ipath(p: Seq<(usize, usize)>) -> Seq<(int, int)> {
    p.map_values(|q: (usize, usize)| ipair(q))
}

/// Manhattan distance, the heuristic the informed searches order their
/// frontiers by: non-negative, symmetric, zero exactly on equal coordinates.
pub fn manhattan_dist(p1: (usize, usize), p2: (usize, usize)) -> (r: usize)
    requires
        manhattan(ipair(p1), ipair(p2)) <= usize::MAX,
    ensures
        r == manhattan(ipair(p1), ipair(p2)),
{
    (if p1.0 > p2.0 {
        p1.0 - p2.0
    } else {
        p2.0 - p1.0
    }) + (if p1.1 > p2.1 {
        p1.1 - p2.1
    } else {
        p2.1 - p1.1
    })
}

/// One frontier entry: a coordinate, the priority key it was enqueued with,
/// and the whole path taken from the start to reach it (start inclusive,
/// the entry's own coordinate exclusive).
struct Entry {
    row: usize,
    col: usize,
    key: u128,
    path: Vec<(usize, usize)>,
}

spec fn entry_coord(e: Entry) -> (int, int) {
    (e.row as int, e.col as int)
}

spec fn entry_chain(e: Entry) -> Seq<(int, int)> {
    ipath(e.path@).push(entry_coord(e))
}

/// The entry is sound for start `s`: its carried path extended by its own
/// coordinate is a real simple path of the grid beginning at `s`, every
/// carried cell has already been expanded, and every cell of it sits in the
/// visited ledger — which is what keeps the chains duplicate-free.
spec fn entry_ok(
    g0: Seq<Seq<Cell>>,
    s: (int, int),
    x: Set<(int, int)>,
    vv: Seq<Seq<bool>>,
    e: Entry,
) -> bool {
    let ch = entry_chain(e);
    &&& chain_ok(g0, ch)
    &&& ch[0] == s
    &&& distinct_chain(ch)
    &&& forall|i: int| 0 <= i < ch.len() - 1 ==> x.contains(#[trigger] ch[i])
    &&& forall|i: int| 0 <= i < ch.len() ==> vv[(#[trigger] ch[i]).0][ch[i].1]
}

/// The chain positions strictly between start and end contain (r, c).
pub open spec fn interior_contains(ch: Seq<(int, int)>, r: int, c: int) -> bool {
    exists|i: int| 1 <= i < ch.len() - 1 && #[trigger] ch[i] == (r, c)
}

/// The final grid is the original with the interior of one simple (repeat-
/// free) start-to-end path written as path markers — and nothing else
/// marked as path.
pub open spec fn path_marked(
    g0: Seq<Seq<Cell>>,
    gf: Seq<Seq<Cell>>,
    s: (int, int),
    ch: Seq<(int, int)>,
) -> bool {
    &&& chain_ok(g0, ch)
    &&& distinct_chain(ch)
    &&& ch[0] == s
    &&& g0[ch.last().0][ch.last().1] is End
    &&& forall|r: int, c: int|
        inb(g0, r, c) ==> ((#[trigger] gf[r][c]) is Path <==> g0[r][c] is Open && interior_contains(
            ch,
            r,
            c,
        ))
}

/// Some start-to-end path has its interior marked in the final grid.
pub open spec fn marks_path(g0: Seq<Seq<Cell>>, gf: Seq<Seq<Cell>>, s: (int, int)) -> bool {
    exists|ch: Seq<(int, int)>| path_marked(g0, gf, s, ch)
}

/// The full contract every search obeys: the result reports exactly whether
/// an end cell is reachable from the start; cells change only from open
/// floor to a visited marker (when requested) or a path marker (on
/// success); on success the interior of a discovered simple path is marked,
/// on failure nothing is, and a failed search without visited display
/// leaves the grid untouched. Visited markers appear only on open cells the
/// search actually reached, and a failed search with the display flag set
/// marks exactly the open region reachable from the start.
pub open spec fn search_outcome(
    g0: Seq<Seq<Cell>>,
    gf: Seq<Seq<Cell>>,
    s: (int, int),
    dv: bool,
    res: bool,
) -> bool {
    &&& same_dims(g0, gf)
    &&& forall|r: int, c: int|
        inb(g0, r, c) ==> (#[trigger] gf[r][c]) == g0[r][c] || (g0[r][c] is Open && ((dv
            && gf[r][c] is Visited) || (res && gf[r][c] is Path)))
    &&& res == reaches_end(g0, s)
    &&& (res ==> marks_path(g0, gf, s))
    &&& (!res ==> forall|r: int, c: int| inb(g0, r, c) ==> !((#[trigger] gf[r][c]) is Path))
    &&& (!res && !dv ==> forall|r: int, c: int|
        inb(g0, r, c) ==> (#[trigger] gf[r][c]) == g0[r][c])
    &&& forall|r: int, c: int|
        inb(g0, r, c) && (#[trigger] gf[r][c]) is Visited ==> g0[r][c] is Open && dv
            && cell_reachable(g0, s, (r, c))
    &&& (!res && dv ==> forall|r: int, c: int|
        inb(g0, r, c) ==> ((#[trigger] gf[r][c]) is Visited <==> g0[r][c] is Open
            && cell_reachable(g0, s, (r, c))))
}

/// Some entry of the frontier sits at coordinate `q`.
spec fn in_frontier(f: Seq<Entry>, q: (int, int)) -> bool {
    exists|k: int| 0 <= k < f.len() && entry_coord(#[trigger] f[k]) == q
}

proof fn lemma_in_frontier_remove(f: Seq<Entry>, idx: int, q: (int, int))
    requires
        0 <= idx < f.len(),
        in_frontier(f, q),
    ensures
        q == entry_coord(f[idx]) || in_frontier(f.remove(idx), q),
{
    let k = choose|k: int| 0 <= k < f.len() && entry_coord(#[trigger] f[k]) == q;
    if k != idx {
        if k < idx {
            assert(entry_coord(f.remove(idx)[k]) == q);
        } else {
            assert(entry_coord(f.remove(idx)[k - 1]) == q);
        }
    }
}

proof fn lemma_in_frontier_push(f: Seq<Entry>, e: Entry, q: (int, int))
    requires
        in_frontier(f, q) || entry_coord(e) == q,
    ensures
        in_frontier(f.push(e), q),
{
    if entry_coord(e) == q {
        assert(entry_coord(f.push(e)[f.len() as int]) == q);
    } else {
        let k = choose|k: int| 0 <= k < f.len() && entry_coord(#[trigger] f[k]) == q;
        assert(entry_coord(f.push(e)[k]) == q);
    }
}

/// Reachability is a property of the grid alone, so any two runs that obey
/// the shared search contract — whatever their strategy, and whether or not
/// either displays visited cells — report the same success or failure.
/// A failed search moreover leaves a fully determined grid: two failed runs
/// with the same display flag end with identical cells.
pub proof fn lemma_outcome_strategy_independent(
    g0: Seq<Seq<Cell>>,
    gf1: Seq<Seq<Cell>>,
    gf2: Seq<Seq<Cell>>,
    s: (int, int),
    dv1: bool,
    dv2: bool,
    r1: bool,
    r2: bool,
)
    requires
        search_outcome(g0, gf1, s, dv1, r1),
        search_outcome(g0, gf2, s, dv2, r2),
    ensures
        r1 == r2,
        !r1 && dv1 == dv2 ==> forall|r: int, c: int|
            inb(g0, r, c) ==> (#[trigger] gf1[r][c]) == gf2[r][c],
{
    if !r1 && dv1 == dv2 {
        assert forall|r: int, c: int| inb(g0, r, c) implies (#[trigger] gf1[r][c])
            == gf2[r][c] by {
            if dv1 {
                if g0[r][c] is Open && cell_reachable(g0, s, (r, c)) {
                    assert(gf1[r][c] is Visited && gf2[r][c] is Visited);
                } else {
                    assert(!(gf1[r][c] is Visited) && !(gf2[r][c] is Visited));
                    assert(gf1[r][c] == g0[r][c] && gf2[r][c] == g0[r][c]);
                }
            }
        }
    }
}

/// Annotating never rewrites the start or end markers, and on success the
/// marked cells are exactly the interior of one chain whose consecutive
/// coordinates are 4-adjacent.
pub proof fn lemma_annotation_shape(
    g0: Seq<Seq<Cell>>,
    gf: Seq<Seq<Cell>>,
    s: (int, int),
    dv: bool,
    res: bool,
)
    requires
        search_outcome(g0, gf, s, dv, res),
    ensures
        forall|r: int, c: int|
            inb(g0, r, c) && (#[trigger] g0[r][c]) is Start ==> gf[r][c] is Start,
        forall|r: int, c: int| inb(g0, r, c) && (#[trigger] g0[r][c]) is End ==> gf[r][c] is End,
        res ==> exists|ch: Seq<(int, int)>| path_marked(g0, gf, s, ch),
{
}

fn copy_coords(v: &Vec<(usize, usize)>) -> (out: Vec<(usize, usize)>)
    ensures
        out@ == v@,
{
    let mut out: Vec<(usize, usize)> = Vec::new();
    let mut i: usize = 0;
    while i < v.len()
        invariant
            i <= v@.len(),
            out@ == v@.take(i as int),
        decreases v@.len() - i,
    {
        out.push(v[i]);
        i = i + 1;
    }
    proof {
        assert(v@.take(v@.len() as int) =~= v@);
    }
    out
}

/// The priority key an entry at `pos` is enqueued with after `steps` steps:
/// breadth-first ignores keys, greedy best-first orders by the heuristic
/// alone, A* by the heuristic plus the path length so far.
fn step_key(alg: Algorithm, pos: (usize, usize), end: (usize, usize), steps: usize) -> (k: u128)
    ensures
        alg is GreedyBestFirst ==> k == manhattan(ipair(pos), ipair(end)),
        alg is AStar ==> k == manhattan(ipair(pos), ipair(end)) + steps,
{
    let dr: usize = if pos.0 > end.0 {
        pos.0 - end.0
    } else {
        end.0 - pos.0
    };
    let dc: usize = if pos.1 > end.1 {
        pos.1 - end.1
    } else {
        end.1 - pos.1
    };
    match alg {
        Algorithm::GreedyBestFirst => dr as u128 + dc as u128,
        Algorithm::AStar => dr as u128 + dc as u128 + steps as u128,
        _ => 0,
    }
}

fn min_key_index(frontier: &Vec<Entry>) -> (idx: usize)
    requires
        frontier@.len() > 0,
    ensures
        idx < frontier@.len(),
        forall|j: int| 0 <= j < frontier@.len() ==> frontier@[idx as int].key <= #[trigger] frontier@[j].key,
{
    let mut idx: usize = 0;
    let mut j: usize = 1;
    while j < frontier.len()
        invariant
            idx < j <= frontier@.len(),
            forall|k: int| 0 <= k < j ==> frontier@[idx as int].key <= #[trigger] frontier@[k].key,
        decreases frontier@.len() - j,
    {
        if frontier[j].key < frontier[idx].key {
            idx = j;
        }
        j = j + 1;
    }
    idx
}

/// Schedule one neighbor cell: if it is in bounds, not a wall and not yet in
/// the visited ledger, mark it visited and enqueue it with the path through
/// `base`.
fn enqueue_neighbor(
    maze: &Vec<Vec<Cell>>,
    vis: &mut Vec<Vec<bool>>,
    frontier: &mut Vec<Entry>,
    nr: usize,
    nc: usize,
    base: &Vec<(usize, usize)>,
    end: (usize, usize),
    alg: Algorithm,
    Ghost(g0): Ghost<Seq<Seq<Cell>>>,
    Ghost(s): Ghost<(int, int)>,
    Ghost(expanded): Ghost<Set<(int, int)>>,
)
    requires
        same_dims(g0, rows_view(maze@)),
        same_dims(g0, rows_view(old(vis)@)),
        forall|r: int, c: int|
            inb(g0, r, c) ==> (#[trigger] rows_view(maze@)[r][c]) == g0[r][c] || (g0[r][c] is Open
                && rows_view(maze@)[r][c] is Visited),
        ipath(base@).len() > 0,
        chain_ok(g0, ipath(base@)),
        ipath(base@)[0] == s,
        distinct_chain(ipath(base@)),
        forall|i: int| 0 <= i < ipath(base@).len() ==> expanded.contains(#[trigger] ipath(base@)[i]),
        forall|i: int|
            0 <= i < ipath(base@).len() ==> rows_view(old(vis)@)[(#[trigger] ipath(
                base@,
            )[i]).0][ipath(base@)[i].1],
        adjacent(ipath(base@).last(), (nr as int, nc as int)),
        forall|k: int|
            0 <= k < old(frontier)@.len() ==> entry_ok(
                g0,
                s,
                expanded,
                rows_view(old(vis)@),
                #[trigger] old(frontier)@[k],
            ),
    ensures
        same_dims(g0, rows_view(final(vis)@)),
        forall|r: int, c: int|
            inb(g0, r, c) ==> (#[trigger] rows_view(final(vis)@)[r][c]) == rows_view(old(vis)@)[r][c]
                || ((r, c) == (nr as int, nc as int) && rows_view(final(vis)@)[r][c]),
        forall|r: int, c: int|
            inb(g0, r, c) && (#[trigger] rows_view(old(vis)@)[r][c]) ==> rows_view(
                final(vis)@,
            )[r][c],
        !inb(g0, nr as int, nc as int) || g0[nr as int][nc as int] is Wall || rows_view(
            final(vis)@,
        )[nr as int][nc as int],
        forall|k: int|
            0 <= k < final(frontier)@.len() ==> entry_ok(
                g0,
                s,
                expanded,
                rows_view(final(vis)@),
                #[trigger] final(frontier)@[k],
            ),
        forall|q: (int, int)|
            in_frontier(old(frontier)@, q) ==> in_frontier(final(frontier)@, q),
        forall|q: (int, int)|
            in_frontier(final(frontier)@, q) ==> in_frontier(old(frontier)@, q) || q == (
                nr as int,
                nc as int,
            ),
        forall|r: int, c: int|
            inb(g0, r, c) && (#[trigger] rows_view(final(vis)@)[r][c]) && !rows_view(
                old(vis)@,
            )[r][c] ==> in_frontier(final(frontier)@, (r, c)),
        grid_unvisited(rows_view(final(vis)@)) <= grid_unvisited(rows_view(old(vis)@)),
        final(frontier)@.len() > old(frontier)@.len() ==> grid_unvisited(rows_view(final(vis)@))
            < grid_unvisited(rows_view(old(vis)@)),
        final(frontier)@.len() >= old(frontier)@.len(),
        final(frontier)@.len() == old(frontier)@.len() ==> rows_view(final(vis)@) == rows_view(
            old(vis)@,
        ),
{
    if nr < maze.len() && nc < maze[nr].len() && maze[nr][nc] != Cell::Wall && !vis[nr][nc] {
        proof {
            lemma_grid_update(rows_view(vis@), nr as int, nc as int);
        }
        let ghost vpre = rows_view(vis@);
        vis[nr][nc] = true;
        proof {
            assert(rows_view(vis@) =~= vpre.update(
                nr as int,
                vpre[nr as int].update(nc as int, true),
            ));
        }
        let k = step_key(alg, (nr, nc), end, base.len());
        let np = copy_coords(base);
        let entry = Entry { row: nr, col: nc, key: k, path: np };
        proof {
            let chb = ipath(base@);
            let chn = entry_chain(entry);
            assert(ipath(entry.path@) =~= chb);
            assert forall|i: int|
                0 <= i < chn.len() implies inb(g0, (#[trigger] chn[i]).0, chn[i].1) && !(
            g0[chn[i].0][chn[i].1] is Wall) by {
                if i < chb.len() {
                    assert(chn[i] == chb[i]);
                } else {
                    assert(chn[i] == (nr as int, nc as int));
                }
            }
            assert forall|i: int| 0 < i < chn.len() implies adjacent(
                #[trigger] chn[i - 1],
                chn[i],
            ) by {
                if i < chb.len() {
                    assert(chn[i - 1] == chb[i - 1] && chn[i] == chb[i]);
                } else {
                    assert(chn[i - 1] == chb.last() && chn[i] == (nr as int, nc as int));
                }
            }
            assert(chain_ok(g0, chn));
            assert(chn[0] == chb[0]);
            assert forall|i: int| 0 <= i < chn.len() - 1 implies expanded.contains(
                #[trigger] chn[i],
            ) by {
                assert(chn[i] == chb[i]);
            }
            assert forall|i: int, j: int| 0 <= i < j < chn.len() implies #[trigger] chn[i]
                != #[trigger] chn[j] by {
                if j < chb.len() {
                    assert(chn[i] == chb[i] && chn[j] == chb[j]);
                } else {
                    assert(chn[i] == chb[i] && chn[j] == (nr as int, nc as int));
                    assert(vpre[chb[i].0][chb[i].1]);
                    assert(!vpre[nr as int][nc as int]);
                }
            }
            assert forall|i: int| 0 <= i < chn.len() implies rows_view(
                vis@,
            )[(#[trigger] chn[i]).0][chn[i].1] by {
                if i < chb.len() {
                    assert(chn[i] == chb[i]);
                    assert(vpre[chb[i].0][chb[i].1]);
                } else {
                    assert(chn[i] == (nr as int, nc as int));
                }
            }
            assert(entry_ok(g0, s, expanded, rows_view(vis@), entry));
            assert forall|k2: int| 0 <= k2 < frontier@.len() implies entry_ok(
                g0,
                s,
                expanded,
                rows_view(vis@),
                #[trigger] frontier@[k2],
            ) by {
                assert(entry_ok(g0, s, expanded, rows_view(old(vis)@), frontier@[k2]));
                let ch2 = entry_chain(frontier@[k2]);
                assert forall|i: int| 0 <= i < ch2.len() implies rows_view(
                    vis@,
                )[(#[trigger] ch2[i]).0][ch2[i].1] by {
                    assert(rows_view(old(vis)@)[ch2[i].0][ch2[i].1]);
                }
            }
        }
        let ghost fpre = frontier@;
        frontier.push(entry);
        proof {
            assert forall|q: (int, int)| in_frontier(fpre, q) implies in_frontier(
                frontier@,
                q,
            ) by {
                lemma_in_frontier_push(fpre, entry, q);
            }
            assert(in_frontier(frontier@, (nr as int, nc as int))) by {
                lemma_in_frontier_push(fpre, entry, (nr as int, nc as int));
            }
            assert forall|q: (int, int)| in_frontier(frontier@, q) implies in_frontier(fpre, q)
                || q == (nr as int, nc as int) by {
                let k2 = choose|k2: int|
                    0 <= k2 < frontier@.len() && entry_coord(#[trigger] frontier@[k2]) == q;
                if k2 < fpre.len() {
                    assert(entry_coord(fpre[k2]) == q);
                }
            }
        }
    }
}

/// The shared frontier loop. Entries are taken first-in-first-out for
/// breadth-first search and by minimal key for the informed searches; in
/// either discipline the loop expands each cell at most once, stops with
/// success as soon as an end cell is taken from the frontier, and otherwise
/// runs the frontier dry, which proves no end cell reachable.
fn search_core(
    maze: &mut Vec<Vec<Cell>>,
    start: (usize, usize),
    end: (usize, usize),
    display_visited: bool,
    alg: Algorithm,
) -> (res: bool)
    requires
        grid_wf(rows_view(old(maze)@)),
        input_cells_only(rows_view(old(maze)@)),
        inb(rows_view(old(maze)@), start.0 as int, start.1 as int),
        rows_view(old(maze)@)[start.0 as int][start.1 as int] is Start,
    ensures
        search_outcome(
            rows_view(old(maze)@),
            rows_view(final(maze)@),
            ipair(start),
            display_visited,
            res,
        ),
{
    let ghost g0 = rows_view(old(maze)@);
    let ghost s = ipair(start);
    let mut vis: Vec<Vec<bool>> = fresh_ledger(maze);
    let ghost vinit = rows_view(vis@);
    vis[start.0][start.1] = true;
    proof {
        assert(rows_view(vis@) =~= vinit.update(
            s.0,
            vinit[s.0].update(s.1, true),
        ));
    }
    let mut frontier: Vec<Entry> = Vec::new();
    let seed_key = step_key(alg, start, end, 0);
    frontier.push(Entry { row: start.0, col: start.1, key: seed_key, path: Vec::new() });
    let ghost mut expanded: Set<(int, int)> = Set::empty();
    proof {
        let seed = frontier@[0];
        assert(entry_chain(seed) =~= Seq::empty().push(s));
        assert(entry_ok(g0, s, expanded, rows_view(vis@), seed));
        assert(in_frontier(frontier@, s));
    }
    while frontier.len() > 0
        invariant
            g0 == rows_view(old(maze)@),
            s == ipair(start),
            grid_wf(g0),
            input_cells_only(g0),
            inb(g0, s.0, s.1),
            g0[s.0][s.1] is Start,
            same_dims(g0, rows_view(maze@)),
            same_dims(g0, rows_view(vis@)),
            forall|r: int, c: int|
                inb(g0, r, c) ==> (#[trigger] rows_view(maze@)[r][c]) == g0[r][c] || (g0[r][c]
                    is Open && display_visited && rows_view(maze@)[r][c] is Visited
                    && expanded.contains((r, c))),
            forall|k: int|
                0 <= k < frontier@.len() ==> entry_ok(
                    g0,
                    s,
                    expanded,
                    rows_view(vis@),
                    #[trigger] frontier@[k],
                ),
            forall|r: int, c: int|
                inb(g0, r, c) && (#[trigger] rows_view(vis@)[r][c]) ==> expanded.contains((r, c))
                    || in_frontier(frontier@, (r, c)),
            forall|q: (int, int)|
                #[trigger] expanded.contains(q) ==> inb(g0, q.0, q.1) && !(g0[q.0][q.1] is Wall)
                    && !(g0[q.0][q.1] is End) && cell_reachable(g0, s, q),
            display_visited ==> forall|q: (int, int)|
                #[trigger] expanded.contains(q) && g0[q.0][q.1] is Open ==> rows_view(
                    maze@,
                )[q.0][q.1] is Visited,
            forall|q: (int, int), n: (int, int)|
                #[trigger] expanded.contains(q) && #[trigger] adjacent(q, n) && inb(g0, n.0, n.1)
                    && !(g0[n.0][n.1] is Wall) ==> rows_view(vis@)[n.0][n.1],
            expanded.contains(s) || in_frontier(frontier@, s),
        decreases grid_unvisited(rows_view(vis@)), frontier@.len(),
    {
        let idx: usize = if matches!(alg, Algorithm::BFS) {
            0
        } else {
            min_key_index(&frontier)
        };
        let ghost fpre = frontier@;
        let e = frontier.remove(idx);
        let ghost che = entry_chain(e);
        let row = e.row;
        let col = e.col;
        proof {
            assert(entry_ok(g0, s, expanded, rows_view(vis@), e));
            assert(inb(g0, (#[trigger] che[che.len() - 1]).0, che[che.len() - 1].1) && !(
            g0[che.last().0][che.last().1] is Wall));
            assert forall|q: (int, int)|
                in_frontier(fpre, q) implies q == (row as int, col as int) || in_frontier(
                frontier@,
                q,
            ) by {
                lemma_in_frontier_remove(fpre, idx as int, q);
            }
        }
        if maze[row][col] == Cell::End {
            proof {
                assert(g0[row as int][col as int] is End);
                assert(reaches_end(g0, s)) by {
                    assert(chain_ok(g0, che) && che[0] == s && g0[che.last().0][che.last().1]
                        is End);
                }
            }
            let ghost gpre = rows_view(maze@);
            let path = e.path;
            proof {
                assert(che.len() == path@.len() + 1);
                assert forall|j: int| 0 <= j < path@.len() implies che[j] == ipair(
                    #[trigger] path@[j],
                ) by {}
                assert forall|r: int, c: int|
                    inb(g0, r, c) && (#[trigger] gpre[r][c]) is Visited implies g0[r][c] is Open
                        && display_visited && cell_reachable(g0, s, (r, c)) by {
                    assert(expanded.contains((r, c)));
                }
            }
            let mut i: usize = 1;
            while i < path.len()
                invariant
                    1 <= i <= path@.len() || (path@.len() == 0 && i == 1),
                    che.len() == path@.len() + 1,
                    forall|j: int| 0 <= j < path@.len() ==> che[j] == ipair(#[trigger] path@[j]),
                    chain_ok(g0, che),
                    distinct_chain(che),
                    che[0] == s,
                    g0[che.last().0][che.last().1] is End,
                    reaches_end(g0, s),
                    input_cells_only(g0),
                    same_dims(g0, gpre),
                    same_dims(g0, rows_view(maze@)),
                    forall|r: int, c: int|
                        inb(g0, r, c) ==> (#[trigger] gpre[r][c]) == g0[r][c] || (g0[r][c] is Open
                            && display_visited && gpre[r][c] is Visited),
                    forall|r: int, c: int|
                        inb(g0, r, c) && (#[trigger] gpre[r][c]) is Visited ==> g0[r][c] is Open
                            && display_visited && cell_reachable(g0, s, (r, c)),
                    forall|r: int, c: int|
                        inb(g0, r, c) ==> (#[trigger] rows_view(maze@)[r][c]) == (if (g0[r][c]
                            is Open && exists|j: int| 1 <= j < i && #[trigger] che[j] == (r, c)) {
                            Cell::Path
                        } else {
                            gpre[r][c]
                        }),
                decreases path@.len() - i,
            {
                let (pr, pc) = path[i];
                proof {
                    assert(che[i as int] == ipair(path@[i as int]));
                    assert(inb(g0, pr as int, pc as int) && !(g0[pr as int][pc as int] is Wall));
                }
                let cur = maze[pr][pc];
                if cur != Cell::Start && cur != Cell::End {
                    let ghost mpre = rows_view(maze@);
                    maze[pr][pc] = Cell::Path;
                    proof {
                        assert(rows_view(maze@) =~= mpre.update(
                            pr as int,
                            mpre[pr as int].update(pc as int, Cell::Path),
                        ));
                        assert(g0[pr as int][pc as int] is Open);
                    }
                }
                i = i + 1;
            }
            proof {
                assert(path_marked(g0, rows_view(maze@), s, che)) by {
                    assert forall|r: int, c: int| inb(g0, r, c) implies ((#[trigger] rows_view(
                        maze@,
                    )[r][c]) is Path <==> g0[r][c] is Open && interior_contains(che, r, c)) by {
                        assert(!(gpre[r][c] is Path));
                    }
                }
                assert forall|r: int, c: int|
                    inb(g0, r, c) && (#[trigger] rows_view(maze@)[r][c]) is Visited implies
                    g0[r][c] is Open && display_visited && cell_reachable(g0, s, (r, c)) by {
                    assert(gpre[r][c] is Visited);
                }
            }
            return true;
        }
        proof {
            let xpre = expanded;
            expanded = expanded.insert((row as int, col as int));
            assert(!(g0[row as int][col as int] is End));
            assert(cell_reachable(g0, s, (row as int, col as int))) by {
                assert(chain_ok(g0, che) && che[0] == s && che.last() == (
                    row as int,
                    col as int,
                ));
            }
            assert forall|k: int| 0 <= k < frontier@.len() implies entry_ok(
                g0,
                s,
                expanded,
                rows_view(vis@),
                #[trigger] frontier@[k],
            ) by {
                assert(entry_ok(g0, s, xpre, rows_view(vis@), frontier@[k]));
            }
        }
        if display_visited && maze[row][col] != Cell::Start {
            let ghost mpre = rows_view(maze@);
            maze[row][col] = Cell::Visited;
            proof {
                assert(rows_view(maze@) =~= mpre.update(
                    row as int,
                    mpre[row as int].update(col as int, Cell::Visited),
                ));
                assert(g0[row as int][col as int] is Open);
            }
        }
        let n_rows = maze.len();
        let row_len = maze[row].len();
        proof {
            assert(row < n_rows && col < row_len);
        }
        let mut base = copy_coords(&e.path);
        base.push((row, col));
        proof {
            assert(ipath(base@) =~= che);
        }
        let ghost vis0 = rows_view(vis@);
        if row > 0 {
            enqueue_neighbor(
                maze,
                &mut vis,
                &mut frontier,
                row - 1,
                col,
                &base,
                end,
                alg,
                Ghost(g0),
                Ghost(s),
                Ghost(expanded),
            );
        }
        if col > 0 {
            enqueue_neighbor(
                maze,
                &mut vis,
                &mut frontier,
                row,
                col - 1,
                &base,
                end,
                alg,
                Ghost(g0),
                Ghost(s),
                Ghost(expanded),
            );
        }
        enqueue_neighbor(
            maze,
            &mut vis,
            &mut frontier,
            row + 1,
            col,
            &base,
            end,
            alg,
            Ghost(g0),
            Ghost(s),
            Ghost(expanded),
        );
        enqueue_neighbor(
            maze,
            &mut vis,
            &mut frontier,
            row,
            col + 1,
            &base,
            end,
            alg,
            Ghost(g0),
            Ghost(s),
            Ghost(expanded),
        );
        proof {
            let q0 = (row as int, col as int);
            assert forall|q: (int, int), n: (int, int)|
                #[trigger] expanded.contains(q) && #[trigger] adjacent(q, n) && inb(g0, n.0, n.1)
                    && !(g0[n.0][n.1] is Wall) implies rows_view(vis@)[n.0][n.1] by {
                if q == q0 {
                    assert(n == (q0.0 - 1, q0.1) || n == (q0.0 + 1, q0.1) || n == (q0.0, q0.1 - 1)
                        || n == (q0.0, q0.1 + 1));
                } else {
                    assert(vis0[n.0][n.1]);
                }
            }
        }
    }
    proof {
        assert(!in_frontier(frontier@, s)) by {
            assert(frontier@.len() == 0);
        }
        assert(closed_set(g0, expanded)) by {
            assert forall|q: (int, int), n: (int, int)|
                #[trigger] expanded.contains(q) && #[trigger] adjacent(q, n) && inb(g0, n.0, n.1)
                    && !(g0[n.0][n.1] is Wall) implies expanded.contains(n) by {
                assert(rows_view(vis@)[n.0][n.1]);
                assert(!in_frontier(frontier@, (n.0, n.1)));
            }
        }
        lemma_closed_set_unreachable(g0, s, expanded);
        assert forall|r: int, c: int|
            inb(g0, r, c) && (#[trigger] rows_view(maze@)[r][c]) is Visited implies g0[r][c]
            is Open && display_visited && cell_reachable(g0, s, (r, c)) by {
            assert(expanded.contains((r, c)));
        }
        if display_visited {
            assert forall|r: int, c: int|
                inb(g0, r, c) && g0[r][c] is Open && cell_reachable(g0, s, (r, c)) implies
                rows_view(maze@)[r][c] is Visited by {
                lemma_closed_set_covers(g0, s, expanded, (r, c));
            }
        }
    }
    false
}

/// Breadth-first search from `start`: level-order exploration with a
/// first-in-first-out frontier, annotating the grid in place.
pub fn bfs(maze: &mut Vec<Vec<Cell>>, start: (usize, usize), display_visited: bool) -> (res: bool)
    requires
        grid_wf(rows_view(old(maze)@)),
        input_cells_only(rows_view(old(maze)@)),
        inb(rows_view(old(maze)@), start.0 as int, start.1 as int),
        rows_view(old(maze)@)[start.0 as int][start.1 as int] is Start,
    ensures
        search_outcome(
            rows_view(old(maze)@),
            rows_view(final(maze)@),
            ipair(start),
            display_visited,
            res,
        ),
{
    search_core(maze, start, (0, 0), display_visited, Algorithm::BFS)
}

/// Greedy best-first search from `start` toward `end`: the frontier is
/// ordered by ascending Manhattan distance to `end` alone.
pub fn greedy_best_first_search(
    maze: &mut Vec<Vec<Cell>>,
    start: (usize, usize),
    end: (usize, usize),
    display_visited: bool,
) -> (res: bool)
    requires
        grid_wf(rows_view(old(maze)@)),
        input_cells_only(rows_view(old(maze)@)),
        inb(rows_view(old(maze)@), start.0 as int, start.1 as int),
        rows_view(old(maze)@)[start.0 as int][start.1 as int] is Start,
    ensures
        search_outcome(
            rows_view(old(maze)@),
            rows_view(final(maze)@),
            ipair(start),
            display_visited,
            res,
        ),
{
    search_core(maze, start, end, display_visited, Algorithm::GreedyBestFirst)
}

/// A* search from `start` toward `end`: the frontier is ordered by the
/// Manhattan heuristic plus the number of steps taken so far.
pub fn a_star(
    maze: &mut Vec<Vec<Cell>>,
    start: (usize, usize),
    end: (usize, usize),
    display_visited: bool,
) -> (res: bool)
    requires
        grid_wf(rows_view(old(maze)@)),
        input_cells_only(rows_view(old(maze)@)),
        inb(rows_view(old(maze)@), start.0 as int, start.1 as int),
        rows_view(old(maze)@)[start.0 as int][start.1 as int] is Start,
    ensures
        search_outcome(
            rows_view(old(maze)@),
            rows_view(final(maze)@),
            ipair(start),
            display_visited,
            res,
        ),
{
    search_core(maze, start, end, display_visited, Algorithm::AStar)
}

} // verus!
