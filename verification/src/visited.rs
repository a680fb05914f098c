//! The visited ledger: a boolean grid mirroring the maze, with the count of
//! still-unvisited cells that every search uses as its termination measure.

use vstd::prelude::*;
use crate::grid::{inb, rows_view, same_dims};

verus! {

/// How many entries of one row are still false.
pub open spec fn row_unvisited(r: Seq<bool>) -> nat
    decreases r.len(),
{
    if r.len() == 0 {
        0
    } else {
        row_unvisited(r.drop_last()) + if r.last() {
            0nat
        } else {
            1nat
        }
    }
}

/// How many cells of the whole ledger are still false.
pub open spec fn grid_unvisited(v: Seq<Seq<bool>>) -> nat
    decreases v.len(),
{
    if v.len() == 0 {
        0
    } else {
        grid_unvisited(v.drop_last()) + row_unvisited(v.last())
    }
}

proof fn lemma_row_update(r: Seq<bool>, j: int)
    requires
        0 <= j < r.len(),
        !r[j],
    ensures
        row_unvisited(r.update(j, true)) + 1 == row_unvisited(r),
    decreases r.len(),
{
    let r2 = r.update(j, true);
    if j == r.len() - 1 {
        assert(r2.drop_last() =~= r.drop_last());
    } else {
        assert(r2.drop_last() =~= r.drop_last().update(j, true));
        lemma_row_update(r.drop_last(), j);
    }
}

/// Setting one still-false cell true lowers the unvisited count by one.
pub proof fn lemma_grid_update(v: Seq<Seq<bool>>, i: int, j: int)
    requires
        0 <= i < v.len(),
        0 <= j < v[i].len(),
        !v[i][j],
    ensures
        grid_unvisited(v.update(i, v[i].update(j, true))) + 1 == grid_unvisited(v),
    decreases v.len(),
{
    let v2 = v.update(i, v[i].update(j, true));
    if i == v.len() - 1 {
        assert(v2.drop_last() =~= v.drop_last());
        assert(v2.last() =~= v.last().update(j, true));
        lemma_row_update(v.last(), j);
    } else {
        assert(v2.drop_last() =~= v.drop_last().update(i, v[i].update(j, true)));
        assert(v2.last() =~= v.last());
        lemma_grid_update(v.drop_last(), i, j);
    }
}

proof fn lemma_row_monotone(r1: Seq<bool>, r2: Seq<bool>)
    requires
        r1.len() == r2.len(),
        forall|j: int| 0 <= j < r1.len() && #[trigger] r1[j] ==> r2[j],
    ensures
        row_unvisited(r2) <= row_unvisited(r1),
    decreases r1.len(),
{
    if r1.len() > 0 {
        lemma_row_monotone(r1.drop_last(), r2.drop_last());
    }
}

/// Visiting more cells never raises the unvisited count.
pub proof fn lemma_grid_monotone(v1: Seq<Seq<bool>>, v2: Seq<Seq<bool>>)
    requires
        v1.len() == v2.len(),
        forall|i: int| 0 <= i < v1.len() ==> (#[trigger] v1[i]).len() == v2[i].len(),
        forall|i: int, j: int|
            0 <= i < v1.len() && 0 <= j < v1[i].len() && #[trigger] v1[i][j] ==> v2[i][j],
    ensures
        grid_unvisited(v2) <= grid_unvisited(v1),
    decreases v1.len(),
{
    if v1.len() > 0 {
        lemma_grid_monotone(v1.drop_last(), v2.drop_last());
        lemma_row_monotone(v1.last(), v2.last());
    }
}

/// A ledger of the maze's shape with every cell unvisited.
pub fn fresh_ledger<T>(maze: &Vec<Vec<T>>) -> (vis: Vec<Vec<bool>>)
    ensures
        same_dims(rows_view(maze@), rows_view(vis@)),
        forall|r: int, c: int|
            inb(rows_view(vis@), r, c) ==> !(#[trigger] rows_view(vis@)[r][c]),
{
    let mut vis: Vec<Vec<bool>> = Vec::new();
    let mut ri: usize = 0;
    while ri < maze.len()
        invariant
            ri <= maze.len(),
            vis@.len() == ri,
            forall|i: int| 0 <= i < ri ==> (#[trigger] vis@[i])@.len() == maze@[i]@.len(),
            forall|r: int, c: int| 0 <= r < ri && 0 <= c < vis@[r]@.len() ==> !(#[trigger] vis@[r]@[c]),
        decreases maze.len() - ri,
    {
        let row_len: usize = maze[ri].len();
        let mut row: Vec<bool> = Vec::new();
        let mut ci: usize = 0;
        while ci < row_len
            invariant
                ci <= row_len,
                row@.len() == ci,
                forall|c: int| 0 <= c < ci ==> !(#[trigger] row@[c]),
            decreases row_len - ci,
        {
            row.push(false);
            ci = ci + 1;
        }
        vis.push(row);
        ri = ri + 1;
    }
    vis
}

} // verus!
