//! Reachability over the implicit 4-connected grid graph: what it means for a
//! coordinate chain to be a path, when an end cell is reachable from the
//! start, and the closure argument that turns an exhausted search into a
//! proof of unreachability.

use vstd::prelude::*;
use crate::cell::Cell;
use crate::grid::inb;

verus! {

/// Two coordinates are 4-adjacent: they differ by one in exactly one
/// component.
pub open spec fn adjacent(a: (int, int), b: (int, int)) -> bool {
    (a.0 == b.0 && (a.1 == b.1 + 1 || a.1 + 1 == b.1)) || (a.1 == b.1 && (a.0 == b.0 + 1 || a.0
        + 1 == b.0))
}

/// A non-empty coordinate chain whose cells are all in bounds and not walls,
/// with consecutive elements 4-adjacent.
pub open spec fn chain_ok(g: Seq<Seq<Cell>>, p: Seq<(int, int)>) -> bool {
    p.len() > 0 && (forall|i: int|
        0 <= i < p.len() ==> inb(g, (#[trigger] p[i]).0, p[i].1) && !(g[p[i].0][p[i].1] is Wall))
        && (forall|i: int| 0 < i < p.len() ==> adjacent(#[trigger] p[i - 1], p[i]))
}

/// No coordinate occurs twice in the chain: it is a simple path.
pub open spec fn distinct_chain(p: Seq<(int, int)>) -> bool {
    forall|i: int, j: int| 0 <= i < j < p.len() ==> #[trigger] p[i] != #[trigger] p[j]
}

/// Some end cell is reachable from `s` through in-bounds, non-wall cells.
pub open spec fn reaches_end(g: Seq<Seq<Cell>>, s: (int, int)) -> bool {
    exists|p: Seq<(int, int)>|
        chain_ok(g, p) && p[0] == s && g[(#[trigger] p.last()).0][p.last().1] is End
}

/// Coordinate `q` is reachable from `s` through in-bounds, non-wall cells.
pub open spec fn cell_reachable(g: Seq<Seq<Cell>>, s: (int, int), q: (int, int)) -> bool {
    exists|p: Seq<(int, int)>| chain_ok(g, p) && p[0] == s && #[trigger] p.last() == q
}

/// A set of coordinates is closed when no step of the grid graph leaves it:
/// every in-bounds, non-wall neighbor of a member is a member.
pub open spec fn closed_set(g: Seq<Seq<Cell>>, blocked: Set<(int, int)>) -> bool {
    forall|q: (int, int), n: (int, int)|
        #[trigger] blocked.contains(q) && #[trigger] adjacent(q, n) && inb(g, n.0, n.1) && !(
        g[n.0][n.1] is Wall) ==> blocked.contains(n)
}

proof fn lemma_chain_stays_blocked(
    g: Seq<Seq<Cell>>,
    p: Seq<(int, int)>,
    blocked: Set<(int, int)>,
    i: int,
)
    requires
        chain_ok(g, p),
        blocked.contains(p[0]),
        closed_set(g, blocked),
        0 <= i < p.len(),
    ensures
        blocked.contains(p[i]),
    decreases i,
{
    if i > 0 {
        lemma_chain_stays_blocked(g, p, blocked, i - 1);
        assert(adjacent(p[i - 1], p[i]));
    }
}

/// Whatever is reachable from a neighbor is reachable from the cell itself,
/// provided the cell is in bounds and not a wall.
pub proof fn lemma_reachable_prepend(
    g: Seq<Seq<Cell>>,
    s: (int, int),
    a: (int, int),
    q: (int, int),
)
    requires
        inb(g, s.0, s.1),
        !(g[s.0][s.1] is Wall),
        adjacent(s, a),
        cell_reachable(g, a, q),
    ensures
        cell_reachable(g, s, q),
{
    let p = choose|p: Seq<(int, int)>| chain_ok(g, p) && p[0] == a && #[trigger] p.last() == q;
    let p2 = seq![s] + p;
    assert forall|i: int| 0 <= i < p2.len() implies inb(g, (#[trigger] p2[i]).0, p2[i].1) && !(
    g[p2[i].0][p2[i].1] is Wall) by {
        if i > 0 {
            assert(p2[i] == p[i - 1]);
        }
    }
    assert forall|i: int| 0 < i < p2.len() implies adjacent(#[trigger] p2[i - 1], p2[i]) by {
        if i == 1 {
            assert(p2[0] == s && p2[1] == p[0]);
        } else {
            assert(p2[i - 1] == p[i - 2] && p2[i] == p[i - 1]);
        }
    }
    assert(chain_ok(g, p2) && p2[0] == s && p2.last() == q);
}

/// Reachability between fixed coordinates only reads wall placement and the
/// shape, so it carries over to a grid that agrees on those.
pub proof fn lemma_reachable_same_walls(
    g1: Seq<Seq<Cell>>,
    g2: Seq<Seq<Cell>>,
    a: (int, int),
    q: (int, int),
)
    requires
        g1.len() == g2.len(),
        forall|i: int| 0 <= i < g1.len() ==> (#[trigger] g1[i]).len() == g2[i].len(),
        forall|r: int, c: int|
            inb(g1, r, c) ==> ((#[trigger] g1[r][c]) is Wall <==> g2[r][c] is Wall),
        cell_reachable(g1, a, q),
    ensures
        cell_reachable(g2, a, q),
{
    let p = choose|p: Seq<(int, int)>| chain_ok(g1, p) && p[0] == a && #[trigger] p.last() == q;
    assert forall|i: int| 0 <= i < p.len() implies inb(g2, (#[trigger] p[i]).0, p[i].1) && !(
    g2[p[i].0][p[i].1] is Wall) by {
        assert(inb(g1, p[i].0, p[i].1) && !(g1[p[i].0][p[i].1] is Wall));
    }
    assert(chain_ok(g2, p) && p[0] == a && p.last() == q);
}

/// A closed set that contains the start contains everything reachable from
/// it.
pub proof fn lemma_closed_set_covers(
    g: Seq<Seq<Cell>>,
    s: (int, int),
    blocked: Set<(int, int)>,
    q: (int, int),
)
    requires
        blocked.contains(s),
        closed_set(g, blocked),
        cell_reachable(g, s, q),
    ensures
        blocked.contains(q),
{
    let p = choose|p: Seq<(int, int)>| chain_ok(g, p) && p[0] == s && #[trigger] p.last() == q;
    lemma_chain_stays_blocked(g, p, blocked, p.len() - 1);
}

/// A closed set that contains the start but no end cell witnesses that no
/// end cell is reachable from the start.
pub proof fn lemma_closed_set_unreachable(
    g: Seq<Seq<Cell>>,
    s: (int, int),
    blocked: Set<(int, int)>,
)
    requires
        blocked.contains(s),
        closed_set(g, blocked),
        forall|q: (int, int)|
            #[trigger] blocked.contains(q) && inb(g, q.0, q.1) ==> !(g[q.0][q.1] is End),
    ensures
        !reaches_end(g, s),
{
    if reaches_end(g, s) {
        let p = choose|p: Seq<(int, int)>|
            chain_ok(g, p) && p[0] == s && g[(#[trigger] p.last()).0][p.last().1] is End;
        lemma_chain_stays_blocked(g, p, blocked, p.len() - 1);
    }
}

} // verus!
