//! Depth-first search: a recursive walk in the fixed neighbor order (up,
//! left, down, right) with a separate visited ledger, temporary in-progress
//! marks on the grid, and backtracking that reverts dead ends or relabels
//! the successful spine as the path.

use vstd::prelude::*;
use crate::cell::Cell;
use crate::grid::{grid_wf, inb, input_cells_only, rows_view, same_dims};
use crate::reach::{adjacent, cell_reachable, chain_ok, distinct_chain, lemma_closed_set_unreachable, lemma_reachable_prepend, lemma_reachable_same_walls, reaches_end};
use crate::search::ipair;
use crate::visited::{grid_unvisited, lemma_grid_monotone, lemma_grid_update};

verus! {

/// The state the walk maintains between calls: a well-formed grid without
/// path marks whose in-progress marks are all in the ledger, and a ledger
/// that never holds an end or wall cell.
pub open spec fn dfs_state(g: Seq<Seq<Cell>>, vis: Seq<Seq<bool>>) -> bool {
    &&& grid_wf(g)
    &&& same_dims(g, vis)
    &&& forall|r: int, c: int| inb(g, r, c) ==> !((#[trigger] g[r][c]) is Path)
    &&& forall|r: int, c: int| inb(g, r, c) && (#[trigger] g[r][c]) is Visited ==> vis[r][c]
    &&& forall|r: int, c: int|
        inb(g, r, c) && (#[trigger] vis[r][c]) ==> !(g[r][c] is End) && !(g[r][c] is Wall)
}

/// On success the grid's path marks are exactly the open cells of one
/// discovered simple (repeat-free) chain from `s` to an end cell, the end
/// itself excluded.
pub open spec fn dfs_marked(
    g0: Seq<Seq<Cell>>,
    gf: Seq<Seq<Cell>>,
    s: (int, int),
    ch: Seq<(int, int)>,
) -> bool {
    &&& chain_ok(g0, ch)
    &&& distinct_chain(ch)
    &&& ch[0] == s
    &&& g0[ch.last().0][ch.last().1] is End
    &&& forall|r: int, c: int|
        inb(g0, r, c) ==> ((#[trigger] gf[r][c]) is Path <==> (g0[r][c] is Open && exists|j: int|
            0 <= j < ch.len() - 1 && #[trigger] ch[j] == (r, c)))
}

/// The marked spine consists of cells this very walk discovered: none was
/// in the ledger before the call and all are in it afterwards.
pub open spec fn spine_fresh(v0: Seq<Seq<bool>>, vf: Seq<Seq<bool>>, ch: Seq<(int, int)>) -> bool {
    forall|j: int|
        0 <= j < ch.len() - 1 ==> !v0[(#[trigger] ch[j]).0][ch[j].1] && vf[ch[j].0][ch[j].1]
}

/// How one cell may differ after a call: untouched, or newly visited open
/// floor that now carries the in-progress mark (kept only when visited cells
/// are displayed), was reverted to open floor, or lies on the successful
/// path.
pub open spec fn dfs_cell_change(
    g0c: Cell,
    gfc: Cell,
    was_vis: bool,
    now_vis: bool,
    dv: bool,
    res: bool,
) -> bool {
    gfc == g0c || (!was_vis && now_vis && g0c is Open && ((gfc is Visited && dv) || (gfc is Open
        && !dv) || (gfc is Path && res)))
}

/// Two successive admissible cell changes compose into one, and an
/// unchanged ledger entry pins the cell itself: the walk only ever layers
/// its marks on open floor.
proof fn lemma_cell_compose(
    a: Cell,
    b: Cell,
    cc: Cell,
    va: bool,
    vb: bool,
    vc: bool,
    dv: bool,
    r1: bool,
    r2: bool,
)
    requires
        !(a is Path),
        dfs_cell_change(a, b, va, vb, dv, r1),
        dfs_cell_change(b, cc, vb, vc, dv, r2),
        r1 ==> r2,
        va ==> vb,
        vb ==> vc,
    ensures
        dfs_cell_change(a, cc, va, vc, dv, r2),
        !vc ==> cc == a,
        cc is Open ==> a is Open,
        cc is End <==> a is End,
        cc is Wall <==> a is Wall,
        cc is Path ==> (r2 && a is Open),
{
}

/// A marked chain stays a marked chain when the base grid is replaced by an
/// earlier one that agrees on every cell outside the ledger, because the
/// spine itself is outside the ledger.
proof fn lemma_marked_rebase(
    g0: Seq<Seq<Cell>>,
    gpre: Seq<Seq<Cell>>,
    gpost: Seq<Seq<Cell>>,
    v0: Seq<Seq<bool>>,
    wpre: Seq<Seq<bool>>,
    wpost: Seq<Seq<bool>>,
    cp: (int, int),
    chj: Seq<(int, int)>,
)
    requires
        same_dims(g0, gpre),
        same_dims(g0, gpost),
        same_dims(g0, v0),
        same_dims(g0, wpre),
        same_dims(g0, wpost),
        forall|r: int, c: int| inb(g0, r, c) && (#[trigger] v0[r][c]) ==> wpre[r][c],
        forall|r: int, c: int|
            inb(g0, r, c) && !(#[trigger] wpre[r][c]) ==> gpre[r][c] == g0[r][c],
        forall|r: int, c: int|
            inb(g0, r, c) ==> ((#[trigger] gpre[r][c]) is Open ==> g0[r][c] is Open) && (
            gpre[r][c] is End <==> g0[r][c] is End) && (gpre[r][c] is Wall <==> g0[r][c] is Wall),
        dfs_marked(gpre, gpost, cp, chj),
        spine_fresh(wpre, wpost, chj),
    ensures
        dfs_marked(g0, gpost, cp, chj),
        spine_fresh(v0, wpost, chj),
{
    assert forall|i: int| 0 <= i < chj.len() implies inb(g0, (#[trigger] chj[i]).0, chj[i].1) && !(
    g0[chj[i].0][chj[i].1] is Wall) by {
        assert(inb(gpre, chj[i].0, chj[i].1) && !(gpre[chj[i].0][chj[i].1] is Wall));
    }
    assert(chain_ok(g0, chj));
    assert(gpre[chj.last().0][chj.last().1] is End);
    assert(g0[chj.last().0][chj.last().1] is End);
    assert forall|j: int| 0 <= j < chj.len() - 1 implies !v0[(#[trigger] chj[j]).0][chj[j].1]
        && wpost[chj[j].0][chj[j].1] by {
        assert(!wpre[chj[j].0][chj[j].1] && wpost[chj[j].0][chj[j].1]);
        assert(inb(g0, chj[j].0, chj[j].1));
    }
    assert forall|r: int, c: int| inb(g0, r, c) implies ((#[trigger] gpost[r][c]) is Path <==> (
    g0[r][c] is Open && exists|j: int| 0 <= j < chj.len() - 1 && #[trigger] chj[j] == (r, c))) by {
        if gpost[r][c] is Path {
            assert(gpre[r][c] is Open);
            let j = choose|j: int| 0 <= j < chj.len() - 1 && #[trigger] chj[j] == (r, c);
            assert(!wpre[r][c]);
            assert(gpre[r][c] == g0[r][c]);
        }
        if g0[r][c] is Open && (exists|j: int|
            0 <= j < chj.len() - 1 && #[trigger] chj[j] == (r, c)) {
            let j = choose|j: int| 0 <= j < chj.len() - 1 && #[trigger] chj[j] == (r, c);
            assert(!wpre[r][c]);
            assert(gpre[r][c] == g0[r][c]);
            assert(gpost[r][c] is Path);
        }
    }
}

/// Gluing one successful child walk onto the frame that called it: the
/// frame's own cell prepended to the child's chain is a marked chain of the
/// frame, provided the grid seen by the child differs from the frame's
/// original only at the frame's own cell.
#[verifier::rlimit(60)]
proof fn lemma_dfs_success_compose(
    g0: Seq<Seq<Cell>>,
    gpre: Seq<Seq<Cell>>,
    gpost: Seq<Seq<Cell>>,
    gf: Seq<Seq<Cell>>,
    v0: Seq<Seq<bool>>,
    wpre: Seq<Seq<bool>>,
    wpost: Seq<Seq<bool>>,
    wfin: Seq<Seq<bool>>,
    s: (int, int),
    cp: (int, int),
    chj: Seq<(int, int)>,
    entered_open: bool,
)
    requires
        same_dims(g0, gpre),
        same_dims(g0, gpost),
        same_dims(g0, gf),
        same_dims(g0, v0),
        same_dims(g0, wpre),
        same_dims(g0, wpost),
        same_dims(g0, wfin),
        inb(g0, s.0, s.1),
        !(g0[s.0][s.1] is Wall),
        g0[s.0][s.1] is Open || g0[s.0][s.1] is Start,
        entered_open == !(g0[s.0][s.1] is Start),
        adjacent(s, cp),
        !v0[s.0][s.1],
        wpre[s.0][s.1],
        wfin[s.0][s.1],
        !(gpre[s.0][s.1] is End),
        forall|r: int, c: int| inb(g0, r, c) && (#[trigger] v0[r][c]) ==> wpre[r][c],
        forall|r: int, c: int| inb(g0, r, c) && (#[trigger] wpost[r][c]) ==> wfin[r][c],
        forall|r: int, c: int|
            inb(g0, r, c) && (r, c) != s && !(#[trigger] wpre[r][c]) ==> gpre[r][c] == g0[r][c],
        forall|r: int, c: int|
            inb(g0, r, c) ==> ((#[trigger] gpre[r][c]) is Open ==> g0[r][c] is Open) && (
            gpre[r][c] is End <==> g0[r][c] is End) && (gpre[r][c] is Wall <==> g0[r][c] is Wall),
        forall|r: int, c: int| inb(g0, r, c) ==> !((#[trigger] g0[r][c]) is Path),
        dfs_marked(gpre, gpost, cp, chj),
        spine_fresh(wpre, wpost, chj),
        forall|r: int, c: int|
            inb(g0, r, c) && (r, c) != s ==> (#[trigger] gf[r][c]) == gpost[r][c],
        gf[s.0][s.1] == (if entered_open {
            Cell::Path
        } else {
            g0[s.0][s.1]
        }),
    ensures
        dfs_marked(g0, gf, s, seq![s] + chj) && spine_fresh(v0, wfin, seq![s] + chj),
        reaches_end(g0, s),
{
    let ch = seq![s] + chj;
    assert(ch[0] == s);
    assert(ch.len() == 1 + chj.len());
    assert forall|i: int| 0 <= i < ch.len() implies inb(g0, (#[trigger] ch[i]).0, ch[i].1) && !(
    g0[ch[i].0][ch[i].1] is Wall) by {
        if i > 0 {
            assert(ch[i] == chj[i - 1]);
            assert(inb(gpre, chj[i - 1].0, chj[i - 1].1) && !(gpre[chj[i - 1].0][chj[i - 1].1]
                is Wall));
        }
    }
    assert forall|i: int| 0 < i < ch.len() implies adjacent(#[trigger] ch[i - 1], ch[i]) by {
        if i == 1 {
            assert(ch[0] == s && ch[1] == chj[0] && chj[0] == cp);
        } else {
            assert(ch[i - 1] == chj[i - 2] && ch[i] == chj[i - 1]);
        }
    }
    assert(chain_ok(g0, ch));
    assert(ch.last() == chj.last());
    assert(g0[ch.last().0][ch.last().1] is End);
    assert forall|i: int, j: int| 0 <= i < j < ch.len() implies #[trigger] ch[i]
        != #[trigger] ch[j] by {
        if i == 0 {
            assert(ch[0] == s && ch[j] == chj[j - 1]);
            if j < ch.len() - 1 {
                assert(!wpre[chj[j - 1].0][chj[j - 1].1]);
            } else {
                assert(gpre[chj[j - 1].0][chj[j - 1].1] is End);
            }
        } else {
            assert(ch[i] == chj[i - 1] && ch[j] == chj[j - 1]);
        }
    }
    assert(distinct_chain(ch));
    assert forall|j: int| 0 <= j < ch.len() - 1 implies !v0[(#[trigger] ch[j]).0][ch[j].1]
        && wfin[ch[j].0][ch[j].1] by {
        if j > 0 {
            assert(ch[j] == chj[j - 1]);
            assert(!wpre[chj[j - 1].0][chj[j - 1].1] && wpost[chj[j - 1].0][chj[j - 1].1]);
            assert(inb(g0, chj[j - 1].0, chj[j - 1].1));
        }
    }
    assert(spine_fresh(v0, wfin, ch));
    assert forall|r: int, c: int| inb(g0, r, c) implies ((#[trigger] gf[r][c]) is Path <==> (
    g0[r][c] is Open && exists|j: int| 0 <= j < ch.len() - 1 && #[trigger] ch[j] == (r, c))) by {
        if (r, c) == s {
            if g0[r][c] is Open {
                assert(gf[r][c] is Path);
                assert(ch[0] == (r, c) && 0 < ch.len() - 1);
            } else {
                assert(!(gf[r][c] is Path));
            }
        } else {
            if gf[r][c] is Path {
                assert(gpost[r][c] is Path);
                assert(gpre[r][c] is Open);
                let j = choose|j: int| 0 <= j < chj.len() - 1 && #[trigger] chj[j] == (r, c);
                assert(ch[j + 1] == (r, c) && 0 <= j + 1 < ch.len() - 1);
            }
            if g0[r][c] is Open && (exists|j: int|
                0 <= j < ch.len() - 1 && #[trigger] ch[j] == (r, c)) {
                let j = choose|j: int| 0 <= j < ch.len() - 1 && #[trigger] ch[j] == (r, c);
                assert(j >= 1);
                assert(chj[j - 1] == (r, c));
                assert(!wpre[r][c]);
                assert(gpre[r][c] == g0[r][c]);
                assert(gpost[r][c] is Path);
            }
        }
    }
    assert(dfs_marked(g0, gf, s, ch));
    assert(reaches_end(g0, s));
}

/// The two neighbors one half-step of the walk tries: up and left for the
/// first half, down and right for the second.
pub open spec fn half_nbr(p: (int, int), first: bool, n: (int, int)) -> bool {
    if first {
        n == (p.0 - 1, p.1) || n == (p.0, p.1 - 1)
    } else {
        n == (p.0 + 1, p.1) || n == (p.0, p.1 + 1)
    }
}

/// Walk two of the four neighbors of an already-ledgered cell in the fixed
/// order, stopping at the first success. On failure both neighbors are
/// ruled out and every discovered cell keeps its neighbors exhausted.
#[verifier::rlimit(100)]
fn dfs_half(
    maze: &mut Vec<Vec<Cell>>,
    row: usize,
    col: usize,
    display_visited: bool,
    vis: &mut Vec<Vec<bool>>,
    first: bool,
) -> (res: bool)
    requires
        dfs_state(rows_view(old(maze)@), rows_view(old(vis)@)),
        inb(rows_view(old(maze)@), row as int, col as int),
        rows_view(old(vis)@)[row as int][col as int],
    ensures
        same_dims(rows_view(old(maze)@), rows_view(final(maze)@)),
        same_dims(rows_view(old(vis)@), rows_view(final(vis)@)),
        forall|r: int, c: int|
            inb(rows_view(old(maze)@), r, c) && (#[trigger] rows_view(old(vis)@)[r][c])
                ==> rows_view(final(vis)@)[r][c],
        forall|r: int, c: int|
            inb(rows_view(old(maze)@), r, c) ==> dfs_cell_change(
                rows_view(old(maze)@)[r][c],
                #[trigger] rows_view(final(maze)@)[r][c],
                rows_view(old(vis)@)[r][c],
                rows_view(final(vis)@)[r][c],
                display_visited,
                res,
            ),
        !res ==> dfs_state(rows_view(final(maze)@), rows_view(final(vis)@)),
        !res ==> forall|n: (int, int)|
            #[trigger] half_nbr((row as int, col as int), first, n) && inb(
                rows_view(old(maze)@),
                n.0,
                n.1,
            ) && !(rows_view(old(maze)@)[n.0][n.1] is Wall) ==> rows_view(final(vis)@)[n.0][n.1],
        !res ==> forall|r: int, c: int, n: (int, int)|
            inb(rows_view(old(maze)@), r, c) && (#[trigger] rows_view(final(vis)@)[r][c])
                && !rows_view(old(vis)@)[r][c] && #[trigger] adjacent((r, c), n) && inb(
                rows_view(old(maze)@),
                n.0,
                n.1,
            ) && !(rows_view(old(maze)@)[n.0][n.1] is Wall) ==> rows_view(final(vis)@)[n.0][n.1],
        forall|r: int, c: int|
            inb(rows_view(old(maze)@), r, c) && (#[trigger] rows_view(final(vis)@)[r][c])
                && !rows_view(old(vis)@)[r][c] ==> cell_reachable(
                rows_view(old(maze)@),
                (row as int, col as int),
                (r, c),
            ),
        !res && display_visited ==> forall|r: int, c: int|
            inb(rows_view(old(maze)@), r, c) && (#[trigger] rows_view(final(vis)@)[r][c])
                && !rows_view(old(vis)@)[r][c] && rows_view(old(maze)@)[r][c] is Open
                ==> rows_view(final(maze)@)[r][c] is Visited,
        res ==> exists|cp: (int, int), ch: Seq<(int, int)>|
            half_nbr((row as int, col as int), first, cp) && #[trigger] dfs_marked(
                rows_view(old(maze)@),
                rows_view(final(maze)@),
                cp,
                ch,
            ) && spine_fresh(rows_view(old(vis)@), rows_view(final(vis)@), ch),
    decreases grid_unvisited(rows_view(vis@)), 1int,
{
    let ghost g0 = rows_view(old(maze)@);
    let ghost v0 = rows_view(old(vis)@);
    let ghost p0 = (row as int, col as int);
    let n_rows = maze.len();
    let rlen = maze[row].len();
    proof {
        assert(row < n_rows && col < rlen);
    }
    let mut res = false;
    let a_ok: bool = if first {
        row > 0
    } else {
        true
    };
    if a_ok {
        let ar: usize = if first {
            row - 1
        } else {
            row + 1
        };
        res = dfs(maze, (ar, col), display_visited, vis);
        proof {
            assert(ipair((ar, col)) == (if first {
                (p0.0 - 1, p0.1)
            } else {
                (p0.0 + 1, p0.1)
            }));
        }
    }
    let ghost g1 = rows_view(maze@);
    let ghost w1 = rows_view(vis@);
    let ghost res1 = res;
    let b_ok: bool = if first {
        col > 0
    } else {
        true
    };
    if !res && b_ok {
        proof {
            lemma_grid_monotone(v0, w1);
        }
        let bc: usize = if first {
            col - 1
        } else {
            col + 1
        };
        res = dfs(maze, (row, bc), display_visited, vis);
        proof {
            assert(ipair((row, bc)) == (if first {
                (p0.0, p0.1 - 1)
            } else {
                (p0.0, p0.1 + 1)
            }));
        }
    }
    let ghost g2 = rows_view(maze@);
    let ghost w2 = rows_view(vis@);
    let ghost res2 = res;
    proof {
        assert(res1 ==> res2);
        assert(same_dims(g0, g1) && same_dims(g0, g2));
        assert(same_dims(v0, w1));
        assert(same_dims(v0, w2));
        assert forall|r: int, c: int| inb(g0, r, c) && #[trigger] w1[r][c] implies w2[r][c] by {
            assert(inb(g1, r, c));
        }
        assert forall|r: int, c: int| inb(g0, r, c) && #[trigger] v0[r][c] implies w1[r][c] by {
            assert(inb(g0, r, c));
        }
        assert forall|r: int, c: int| inb(g0, r, c) && #[trigger] v0[r][c] implies w2[r][c] by {
            assert(w1[r][c]);
            assert(inb(g1, r, c));
        }
        assert forall|r: int, c: int| inb(g0, r, c) implies ((!w1[r][c] ==> g1[r][c] == g0[r][c])
            && ((#[trigger] g1[r][c]) is Open ==> g0[r][c] is Open) && (g1[r][c] is End
            <==> g0[r][c] is End) && (g1[r][c] is Wall <==> g0[r][c] is Wall)) by {
            assert(dfs_cell_change(
                g0[r][c],
                g1[r][c],
                v0[r][c],
                w1[r][c],
                display_visited,
                res1,
            ));
        }
        assert forall|r: int, c: int| inb(g0, r, c) implies ((!w2[r][c] ==> g2[r][c] == g0[r][c])
            && ((#[trigger] g2[r][c]) is Open ==> g0[r][c] is Open) && (g2[r][c] is End
            <==> g0[r][c] is End) && (g2[r][c] is Wall <==> g0[r][c] is Wall) && dfs_cell_change(
            g0[r][c],
            g2[r][c],
            v0[r][c],
            w2[r][c],
            display_visited,
            res2,
        )) by {
            assert(inb(g1, r, c));
            assert(w1[r][c] ==> w2[r][c]);
            assert(dfs_cell_change(
                g0[r][c],
                g1[r][c],
                v0[r][c],
                w1[r][c],
                display_visited,
                res1,
            ));
            assert(dfs_cell_change(
                g1[r][c],
                g2[r][c],
                w1[r][c],
                w2[r][c],
                display_visited,
                res2,
            ));
            lemma_cell_compose(
                g0[r][c],
                g1[r][c],
                g2[r][c],
                v0[r][c],
                w1[r][c],
                w2[r][c],
                display_visited,
                res1,
                res2,
            );
        }
        let apos = (if first {
            (p0.0 - 1, p0.1)
        } else {
            (p0.0 + 1, p0.1)
        });
        let bpos = (if first {
            (p0.0, p0.1 - 1)
        } else {
            (p0.0, p0.1 + 1)
        });
        assert(!(g0[p0.0][p0.1] is Wall));
        assert forall|r: int, c: int|
            inb(g0, r, c) && (#[trigger] w2[r][c]) && !v0[r][c] implies cell_reachable(
            g0,
            p0,
            (r, c),
        ) by {
            if w1[r][c] {
                assert(inb(g0, r, c));
                assert(cell_reachable(g0, apos, (r, c)));
                lemma_reachable_prepend(g0, p0, apos, (r, c));
            } else {
                assert(inb(g1, r, c));
                assert(cell_reachable(g1, bpos, (r, c)));
                lemma_reachable_same_walls(g1, g0, bpos, (r, c));
                lemma_reachable_prepend(g0, p0, bpos, (r, c));
            }
        }
        if !res && display_visited {
            assert forall|r: int, c: int|
                inb(g0, r, c) && (#[trigger] w2[r][c]) && !v0[r][c] && g0[r][c]
                    is Open implies g2[r][c] is Visited by {
                if w1[r][c] {
                    assert(inb(g1, r, c));
                    assert(g1[r][c] is Visited);
                    assert(dfs_cell_change(
                        g1[r][c],
                        g2[r][c],
                        w1[r][c],
                        w2[r][c],
                        display_visited,
                        res2,
                    ));
                } else {
                    assert(inb(g1, r, c));
                    assert(g1[r][c] == g0[r][c]);
                    assert(g2[r][c] is Visited);
                }
            }
        }
        if !res {
            assert forall|n: (int, int)|
                #[trigger] half_nbr(p0, first, n) && inb(g0, n.0, n.1) && !(g0[n.0][n.1]
                    is Wall) implies w2[n.0][n.1] by {
                if n == (if first {
                    (p0.0 - 1, p0.1)
                } else {
                    (p0.0 + 1, p0.1)
                }) {
                    assert(a_ok);
                    assert(w1[n.0][n.1]);
                } else {
                    assert(b_ok);
                    assert(inb(g1, n.0, n.1));
                    assert(!(g1[n.0][n.1] is Wall));
                    assert(w2[n.0][n.1]);
                }
            }
            assert forall|r: int, c: int, n: (int, int)|
                inb(g0, r, c) && (#[trigger] w2[r][c]) && !v0[r][c] && #[trigger] adjacent(
                    (r, c),
                    n,
                ) && inb(g0, n.0, n.1) && !(g0[n.0][n.1] is Wall) implies w2[n.0][n.1] by {
                if w1[r][c] {
                    assert(inb(g0, r, c) && inb(g0, n.0, n.1));
                    assert(w1[n.0][n.1]);
                } else {
                    assert(inb(g1, r, c) && inb(g1, n.0, n.1));
                    assert(!(g1[n.0][n.1] is Wall));
                    assert(w2[n.0][n.1]);
                }
            }
        } else {
            if res1 {
                let (cp, chj) = choose|cp: (int, int), ch: Seq<(int, int)>|
                    cp == (if first {
                        (p0.0 - 1, p0.1)
                    } else {
                        (p0.0 + 1, p0.1)
                    }) && #[trigger] dfs_marked(g0, g1, cp, ch) && spine_fresh(v0, w1, ch);
                assert(g2 == g1 && w2 == w1);
                assert(half_nbr(p0, first, cp));
                assert(dfs_marked(g0, g2, cp, chj) && spine_fresh(v0, w2, chj));
            } else {
                let cp = (if first {
                    (p0.0, p0.1 - 1)
                } else {
                    (p0.0, p0.1 + 1)
                });
                let chj = choose|ch: Seq<(int, int)>|
                    #[trigger] dfs_marked(g1, g2, cp, ch) && spine_fresh(w1, w2, ch);
                assert(half_nbr(p0, first, cp));
                lemma_marked_rebase(g0, g1, g2, v0, w1, w2, cp, chj);
            }
        }
    }
    res
}

/// Walk the four neighbors of an already-ledgered cell in the fixed order
/// (up, left, down, right), stopping at the first success. On failure every
/// neighbor of the cell is ruled out, and every cell the walks discovered
/// keeps its neighbors exhausted too.
#[verifier::rlimit(100)]
fn dfs_children(
    maze: &mut Vec<Vec<Cell>>,
    row: usize,
    col: usize,
    display_visited: bool,
    vis: &mut Vec<Vec<bool>>,
) -> (res: bool)
    requires
        dfs_state(rows_view(old(maze)@), rows_view(old(vis)@)),
        inb(rows_view(old(maze)@), row as int, col as int),
        rows_view(old(vis)@)[row as int][col as int],
    ensures
        same_dims(rows_view(old(maze)@), rows_view(final(maze)@)),
        same_dims(rows_view(old(vis)@), rows_view(final(vis)@)),
        forall|r: int, c: int|
            inb(rows_view(old(maze)@), r, c) && (#[trigger] rows_view(old(vis)@)[r][c])
                ==> rows_view(final(vis)@)[r][c],
        forall|r: int, c: int|
            inb(rows_view(old(maze)@), r, c) ==> dfs_cell_change(
                rows_view(old(maze)@)[r][c],
                #[trigger] rows_view(final(maze)@)[r][c],
                rows_view(old(vis)@)[r][c],
                rows_view(final(vis)@)[r][c],
                display_visited,
                res,
            ),
        !res ==> dfs_state(rows_view(final(maze)@), rows_view(final(vis)@)),
        !res ==> forall|n: (int, int)|
            #[trigger] adjacent((row as int, col as int), n) && inb(
                rows_view(old(maze)@),
                n.0,
                n.1,
            ) && !(rows_view(old(maze)@)[n.0][n.1] is Wall) ==> rows_view(final(vis)@)[n.0][n.1],
        !res ==> forall|r: int, c: int, n: (int, int)|
            inb(rows_view(old(maze)@), r, c) && (#[trigger] rows_view(final(vis)@)[r][c])
                && !rows_view(old(vis)@)[r][c] && #[trigger] adjacent((r, c), n) && inb(
                rows_view(old(maze)@),
                n.0,
                n.1,
            ) && !(rows_view(old(maze)@)[n.0][n.1] is Wall) ==> rows_view(final(vis)@)[n.0][n.1],
        forall|r: int, c: int|
            inb(rows_view(old(maze)@), r, c) && (#[trigger] rows_view(final(vis)@)[r][c])
                && !rows_view(old(vis)@)[r][c] ==> cell_reachable(
                rows_view(old(maze)@),
                (row as int, col as int),
                (r, c),
            ),
        !res && display_visited ==> forall|r: int, c: int|
            inb(rows_view(old(maze)@), r, c) && (#[trigger] rows_view(final(vis)@)[r][c])
                && !rows_view(old(vis)@)[r][c] && rows_view(old(maze)@)[r][c] is Open
                ==> rows_view(final(maze)@)[r][c] is Visited,
        res ==> exists|cp: (int, int), ch: Seq<(int, int)>|
            adjacent((row as int, col as int), cp) && #[trigger] dfs_marked(
                rows_view(old(maze)@),
                rows_view(final(maze)@),
                cp,
                ch,
            ) && spine_fresh(rows_view(old(vis)@), rows_view(final(vis)@), ch),
    decreases grid_unvisited(rows_view(vis@)), 2int,
{
    let ghost g0 = rows_view(old(maze)@);
    let ghost v0 = rows_view(old(vis)@);
    let ghost p0 = (row as int, col as int);
    let mut res = dfs_half(maze, row, col, display_visited, vis, true);
    let ghost g1 = rows_view(maze@);
    let ghost w1 = rows_view(vis@);
    let ghost res1 = res;
    if !res {
        proof {
            lemma_grid_monotone(v0, w1);
        }
        res = dfs_half(maze, row, col, display_visited, vis, false);
    }
    let ghost g2 = rows_view(maze@);
    let ghost w2 = rows_view(vis@);
    let ghost res2 = res;
    proof {
        assert(res1 ==> res2);
        assert(same_dims(g0, g1) && same_dims(g0, g2));
        assert(same_dims(v0, w1));
        assert(same_dims(v0, w2));
        assert forall|r: int, c: int| inb(g0, r, c) && #[trigger] w1[r][c] implies w2[r][c] by {
            assert(inb(g1, r, c));
        }
        assert forall|r: int, c: int| inb(g0, r, c) && #[trigger] v0[r][c] implies w1[r][c] by {
            assert(inb(g0, r, c));
        }
        assert forall|r: int, c: int| inb(g0, r, c) && #[trigger] v0[r][c] implies w2[r][c] by {
            assert(w1[r][c]);
            assert(inb(g1, r, c));
        }
        assert forall|r: int, c: int| inb(g0, r, c) implies ((!w1[r][c] ==> g1[r][c] == g0[r][c])
            && ((#[trigger] g1[r][c]) is Open ==> g0[r][c] is Open) && (g1[r][c] is End
            <==> g0[r][c] is End) && (g1[r][c] is Wall <==> g0[r][c] is Wall)) by {
            assert(dfs_cell_change(
                g0[r][c],
                g1[r][c],
                v0[r][c],
                w1[r][c],
                display_visited,
                res1,
            ));
        }
        assert forall|r: int, c: int| inb(g0, r, c) implies ((!w2[r][c] ==> g2[r][c] == g0[r][c])
            && ((#[trigger] g2[r][c]) is Open ==> g0[r][c] is Open) && (g2[r][c] is End
            <==> g0[r][c] is End) && (g2[r][c] is Wall <==> g0[r][c] is Wall) && dfs_cell_change(
            g0[r][c],
            g2[r][c],
            v0[r][c],
            w2[r][c],
            display_visited,
            res2,
        )) by {
            assert(inb(g1, r, c));
            assert(w1[r][c] ==> w2[r][c]);
            assert(dfs_cell_change(
                g0[r][c],
                g1[r][c],
                v0[r][c],
                w1[r][c],
                display_visited,
                res1,
            ));
            assert(dfs_cell_change(
                g1[r][c],
                g2[r][c],
                w1[r][c],
                w2[r][c],
                display_visited,
                res2,
            ));
            lemma_cell_compose(
                g0[r][c],
                g1[r][c],
                g2[r][c],
                v0[r][c],
                w1[r][c],
                w2[r][c],
                display_visited,
                res1,
                res2,
            );
        }
        assert(!(g0[p0.0][p0.1] is Wall));
        assert forall|r: int, c: int|
            inb(g0, r, c) && (#[trigger] w2[r][c]) && !v0[r][c] implies cell_reachable(
            g0,
            p0,
            (r, c),
        ) by {
            if w1[r][c] {
                assert(inb(g0, r, c));
                assert(cell_reachable(g0, p0, (r, c)));
            } else {
                assert(inb(g1, r, c));
                assert(cell_reachable(g1, p0, (r, c)));
                lemma_reachable_same_walls(g1, g0, p0, (r, c));
            }
        }
        if !res && display_visited {
            assert forall|r: int, c: int|
                inb(g0, r, c) && (#[trigger] w2[r][c]) && !v0[r][c] && g0[r][c]
                    is Open implies g2[r][c] is Visited by {
                if w1[r][c] {
                    assert(inb(g1, r, c));
                    assert(g1[r][c] is Visited);
                    assert(dfs_cell_change(
                        g1[r][c],
                        g2[r][c],
                        w1[r][c],
                        w2[r][c],
                        display_visited,
                        res2,
                    ));
                } else {
                    assert(inb(g1, r, c));
                    assert(g1[r][c] == g0[r][c]);
                    assert(g2[r][c] is Visited);
                }
            }
        }
        if !res {
            assert forall|n: (int, int)|
                #[trigger] adjacent(p0, n) && inb(g0, n.0, n.1) && !(g0[n.0][n.1]
                    is Wall) implies w2[n.0][n.1] by {
                if n == (p0.0 - 1, p0.1) || n == (p0.0, p0.1 - 1) {
                    assert(half_nbr(p0, true, n));
                    assert(w1[n.0][n.1]);
                } else {
                    assert(half_nbr(p0, false, n));
                    assert(inb(g1, n.0, n.1));
                    assert(!(g1[n.0][n.1] is Wall));
                    assert(w2[n.0][n.1]);
                }
            }
            assert forall|r: int, c: int, n: (int, int)|
                inb(g0, r, c) && (#[trigger] w2[r][c]) && !v0[r][c] && #[trigger] adjacent(
                    (r, c),
                    n,
                ) && inb(g0, n.0, n.1) && !(g0[n.0][n.1] is Wall) implies w2[n.0][n.1] by {
                if w1[r][c] {
                    assert(inb(g0, r, c) && inb(g0, n.0, n.1));
                    assert(w1[n.0][n.1]);
                } else {
                    assert(inb(g1, r, c) && inb(g1, n.0, n.1));
                    assert(!(g1[n.0][n.1] is Wall));
                    assert(w2[n.0][n.1]);
                }
            }
        } else {
            if res1 {
                let (cp, chj) = choose|cp: (int, int), ch: Seq<(int, int)>|
                    half_nbr(p0, true, cp) && #[trigger] dfs_marked(g0, g1, cp, ch)
                        && spine_fresh(v0, w1, ch);
                assert(g2 == g1 && w2 == w1);
                assert(adjacent(p0, cp));
                assert(dfs_marked(g0, g2, cp, chj) && spine_fresh(v0, w2, chj));
            } else {
                let (cp, chj) = choose|cp: (int, int), ch: Seq<(int, int)>|
                    half_nbr(p0, false, cp) && #[trigger] dfs_marked(g1, g2, cp, ch)
                        && spine_fresh(w1, w2, ch);
                assert(adjacent(p0, cp));
                lemma_marked_rebase(g0, g1, g2, v0, w1, w2, cp, chj);
            }
        }
    }
    res
}

/// Recursive depth-first walk from `pos`. Returns whether an end cell was
/// reached; on success the spine of the walk is relabeled as the path, on
/// failure every newly visited cell's neighbors are exhausted, so a walk
/// started on a fresh ledger proves the end unreachable.
#[verifier::rlimit(100)]
pub fn dfs(
    maze: &mut Vec<Vec<Cell>>,
    pos: (usize, usize),
    display_visited: bool,
    vis: &mut Vec<Vec<bool>>,
) -> (res: bool)
    requires
        dfs_state(rows_view(old(maze)@), rows_view(old(vis)@)),
    ensures
        same_dims(rows_view(old(maze)@), rows_view(final(maze)@)),
        same_dims(rows_view(old(vis)@), rows_view(final(vis)@)),
        forall|r: int, c: int|
            inb(rows_view(old(maze)@), r, c) && (#[trigger] rows_view(old(vis)@)[r][c])
                ==> rows_view(final(vis)@)[r][c],
        forall|r: int, c: int|
            inb(rows_view(old(maze)@), r, c) ==> dfs_cell_change(
                rows_view(old(maze)@)[r][c],
                #[trigger] rows_view(final(maze)@)[r][c],
                rows_view(old(vis)@)[r][c],
                rows_view(final(vis)@)[r][c],
                display_visited,
                res,
            ),
        !res ==> dfs_state(rows_view(final(maze)@), rows_view(final(vis)@)),
        !res ==> !inb(rows_view(old(maze)@), pos.0 as int, pos.1 as int) || rows_view(
            old(maze)@,
        )[pos.0 as int][pos.1 as int] is Wall || rows_view(final(vis)@)[pos.0 as int][pos.1 as int],
        !res ==> forall|r: int, c: int, n: (int, int)|
            inb(rows_view(old(maze)@), r, c) && (#[trigger] rows_view(final(vis)@)[r][c])
                && !rows_view(old(vis)@)[r][c] && #[trigger] adjacent((r, c), n) && inb(
                rows_view(old(maze)@),
                n.0,
                n.1,
            ) && !(rows_view(old(maze)@)[n.0][n.1] is Wall) ==> rows_view(final(vis)@)[n.0][n.1],
        forall|r: int, c: int|
            inb(rows_view(old(maze)@), r, c) && (#[trigger] rows_view(final(vis)@)[r][c])
                && !rows_view(old(vis)@)[r][c] ==> cell_reachable(
                rows_view(old(maze)@),
                ipair(pos),
                (r, c),
            ),
        !res && display_visited ==> forall|r: int, c: int|
            inb(rows_view(old(maze)@), r, c) && (#[trigger] rows_view(final(vis)@)[r][c])
                && !rows_view(old(vis)@)[r][c] && rows_view(old(maze)@)[r][c] is Open
                ==> rows_view(final(maze)@)[r][c] is Visited,
        res ==> exists|ch: Seq<(int, int)>|
            dfs_marked(rows_view(old(maze)@), rows_view(final(maze)@), ipair(pos), ch)
                && spine_fresh(rows_view(old(vis)@), rows_view(final(vis)@), ch),
        res ==> reaches_end(rows_view(old(maze)@), ipair(pos)),
        !res && (forall|r: int, c: int|
            inb(rows_view(old(maze)@), r, c) ==> !(#[trigger] rows_view(old(vis)@)[r][c])) && inb(
            rows_view(old(maze)@),
            pos.0 as int,
            pos.1 as int,
        ) && !(rows_view(old(maze)@)[pos.0 as int][pos.1 as int] is Wall) ==> !reaches_end(
            rows_view(old(maze)@),
            ipair(pos),
        ),
    decreases grid_unvisited(rows_view(vis@)), 0int,
{
    let ghost g0 = rows_view(old(maze)@);
    let ghost v0 = rows_view(old(vis)@);
    let ghost s = ipair(pos);
    let (row, col) = pos;
    if row >= maze.len() {
        return false;
    }
    let rlen = maze[row].len();
    if col >= rlen {
        return false;
    }
    let cur = maze[row][col];
    if cur == Cell::Visited || cur == Cell::Wall {
        return false;
    }
    if vis[row][col] {
        return false;
    }
    if cur == Cell::End {
        proof {
            let ch = seq![s];
            assert(chain_ok(g0, ch));
            assert(dfs_marked(g0, rows_view(maze@), s, ch));
            assert(spine_fresh(v0, rows_view(vis@), ch));
            assert(reaches_end(g0, s));
        }
        return true;
    }
    proof {
        assert(cur is Open || cur is Start);
        lemma_grid_update(rows_view(vis@), row as int, col as int);
    }
    vis[row][col] = true;
    proof {
        assert(rows_view(vis@) =~= v0.update(row as int, v0[row as int].update(col as int, true)));
    }
    let entered_open = cur != Cell::Start;
    if entered_open {
        let ghost mpre = rows_view(maze@);
        maze[row][col] = Cell::Visited;
        proof {
            assert(rows_view(maze@) =~= mpre.update(
                row as int,
                mpre[row as int].update(col as int, Cell::Visited),
            ));
        }
    }
    let ghost g1 = rows_view(maze@);
    let ghost w1 = rows_view(vis@);
    proof {
        assert(dfs_state(g1, w1));
        assert(grid_unvisited(w1) + 1 == grid_unvisited(v0));
        assert(same_dims(g0, g1));
        assert(same_dims(v0, w1));
        assert(inb(g1, row as int, col as int));
    }
    let res = dfs_children(maze, row, col, display_visited, vis);
    let ghost g2 = rows_view(maze@);
    let ghost w2 = rows_view(vis@);
    if !display_visited && entered_open {
        let ghost mpre = rows_view(maze@);
        maze[row][col] = Cell::Open;
        proof {
            assert(rows_view(maze@) =~= mpre.update(
                row as int,
                mpre[row as int].update(col as int, Cell::Open),
            ));
        }
    }
    if res && entered_open {
        let ghost mpre = rows_view(maze@);
        maze[row][col] = Cell::Path;
        proof {
            assert(rows_view(maze@) =~= mpre.update(
                row as int,
                mpre[row as int].update(col as int, Cell::Path),
            ));
        }
    }
    let ghost gf = rows_view(maze@);
    proof {
        let p0 = (row as int, col as int);
        assert(same_dims(g0, g2) && same_dims(g0, gf));
        assert(same_dims(v0, w2));
        assert(g2[p0.0][p0.1] == g1[p0.0][p0.1]) by {
            assert(dfs_cell_change(
                g1[p0.0][p0.1],
                g2[p0.0][p0.1],
                w1[p0.0][p0.1],
                w2[p0.0][p0.1],
                display_visited,
                res,
            ));
        }
        assert(gf[p0.0][p0.1] == (if res && entered_open {
            Cell::Path
        } else if !display_visited && entered_open {
            Cell::Open
        } else {
            g1[p0.0][p0.1]
        }));
        assert forall|r: int, c: int| inb(g0, r, c) && #[trigger] v0[r][c] implies w2[r][c] by {
            assert(w1[r][c]);
            assert(inb(g1, r, c));
        }
        assert forall|r: int, c: int| inb(g0, r, c) implies dfs_cell_change(
            g0[r][c],
            #[trigger] gf[r][c],
            v0[r][c],
            w2[r][c],
            display_visited,
            res,
        ) by {
            if (r, c) != p0 {
                assert(gf[r][c] == g2[r][c]);
                assert(g1[r][c] == g0[r][c] && w1[r][c] == v0[r][c]);
                assert(inb(g1, r, c));
                assert(dfs_cell_change(
                    g1[r][c],
                    g2[r][c],
                    w1[r][c],
                    w2[r][c],
                    display_visited,
                    res,
                ));
            }
        }
        assert forall|r: int, c: int| inb(g0, r, c) implies ((#[trigger] g1[r][c]) is Wall
            <==> g0[r][c] is Wall) by {
            if (r, c) != p0 {
                assert(g1[r][c] == g0[r][c]);
            }
        }
        assert forall|r: int, c: int|
            inb(g0, r, c) && (#[trigger] w2[r][c]) && !v0[r][c] implies cell_reachable(
            g0,
            s,
            (r, c),
        ) by {
            if (r, c) == (p0.0, p0.1) {
                assert(chain_ok(g0, seq![s]) && seq![s][0] == s && seq![s].last() == s);
                assert(cell_reachable(g0, s, s));
            } else {
                assert(!w1[r][c]);
                assert(inb(g1, r, c));
                assert(cell_reachable(g1, s, (r, c)));
                lemma_reachable_same_walls(g1, g0, s, (r, c));
            }
        }
        if !res {
            assert(dfs_state(gf, w2)) by {
                assert(dfs_state(g2, w2));
                assert forall|r: int, c: int|
                    inb(g0, r, c) && (r, c) != p0 implies gf[r][c] == g2[r][c] by {}
            }
            if display_visited {
                assert forall|r: int, c: int|
                    inb(g0, r, c) && (#[trigger] w2[r][c]) && !v0[r][c] && g0[r][c]
                        is Open implies gf[r][c] is Visited by {
                    if (r, c) == (p0.0, p0.1) {
                        assert(entered_open);
                        assert(g1[p0.0][p0.1] is Visited);
                        assert(gf[p0.0][p0.1] == g1[p0.0][p0.1]);
                    } else {
                        assert(inb(g1, r, c));
                        assert(g1[r][c] == g0[r][c]);
                        assert(g2[r][c] is Visited);
                        assert(gf[r][c] == g2[r][c]);
                    }
                }
            }
            assert forall|r: int, c: int, n: (int, int)|
                inb(g0, r, c) && (#[trigger] w2[r][c]) && !v0[r][c] && #[trigger] adjacent(
                    (r, c),
                    n,
                ) && inb(g0, n.0, n.1) && !(g0[n.0][n.1] is Wall) implies w2[n.0][n.1] by {
                if (r, c) == p0 {
                    assert(adjacent(p0, n));
                    assert(inb(g1, n.0, n.1));
                    assert(g1[n.0][n.1] == g0[n.0][n.1]);
                } else {
                    assert(!w1[r][c]);
                    assert(inb(g1, r, c) && inb(g1, n.0, n.1));
                    assert(n == p0 || g1[n.0][n.1] == g0[n.0][n.1]);
                    assert(!(g1[n.0][n.1] is Wall));
                    assert(w2[n.0][n.1]);
                }
            }
            if (forall|r: int, c: int| inb(g0, r, c) ==> !(#[trigger] v0[r][c])) && !(
            g0[p0.0][p0.1] is Wall) {
                let blocked = Set::new(|q: (int, int)| inb(g0, q.0, q.1) && w2[q.0][q.1]);
                assert(blocked.contains(s));
                assert forall|q: (int, int), n: (int, int)|
                    #[trigger] blocked.contains(q) && #[trigger] adjacent(q, n) && inb(
                        g0,
                        n.0,
                        n.1,
                    ) && !(g0[n.0][n.1] is Wall) implies blocked.contains(n) by {
                    assert(w2[q.0][q.1] && !v0[q.0][q.1]);
                    assert(w2[n.0][n.1]);
                }
                assert forall|q: (int, int)|
                    #[trigger] blocked.contains(q) && inb(g0, q.0, q.1) implies !(g0[q.0][q.1]
                    is End) by {
                    assert(!(g2[q.0][q.1] is End));
                    if q == p0 {
                        assert(!(cur is End));
                    } else {
                        assert(inb(g1, q.0, q.1));
                        assert(g1[q.0][q.1] == g0[q.0][q.1]);
                        assert(dfs_cell_change(
                            g1[q.0][q.1],
                            g2[q.0][q.1],
                            w1[q.0][q.1],
                            w2[q.0][q.1],
                            display_visited,
                            res,
                        ));
                    }
                }
                lemma_closed_set_unreachable(g0, s, blocked);
            }
        } else {
            let (cp, chj) = choose|cp: (int, int), ch: Seq<(int, int)>|
                adjacent(p0, cp) && #[trigger] dfs_marked(g1, g2, cp, ch) && spine_fresh(
                    w1,
                    w2,
                    ch,
                );
            assert(!(g1[p0.0][p0.1] is End));
            lemma_dfs_success_compose(
                g0,
                g1,
                g2,
                gf,
                v0,
                w1,
                w2,
                w2,
                s,
                cp,
                chj,
                entered_open,
            );
        }
    }
    res
}

} // verus!
