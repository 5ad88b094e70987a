use vstd::prelude::*;

use crate::coord::Position;
use crate::grid::{flat_index, random_below, Grid};
use crate::route::SearchError;

verus! {

/// The cell that a draw from `0..5` stands for: blocked (`$`) on 4, passable
/// (`.`) otherwise, so that about one cell in five is blocked.
pub fn cell_for_draw(d: usize) -> (r: char)
    ensures
        r == (if d == 4 { '$' } else { '.' }),
{
    if d != 4 {
        '.'
    } else {
        '$'
    }
}

/// A random cell, passable or blocked.
pub fn gen_random_char() -> (r: char)
    ensures
        r == '.' || r == '$',
{
    cell_for_draw(random_below(5))
}

/// `width * height` random cells, row by row.
pub fn gen_map(width: usize, height: usize) -> (r: Vec<char>)
    requires
        width * height <= usize::MAX,
    ensures
        r@.len() == width * height,
        forall|i: int| 0 <= i < r@.len() ==> #[trigger] r@[i] == '.' || r@[i] == '$',
{
    let n = width * height;
    let mut map: Vec<char> = Vec::new();
    let mut i: usize = 0;
    while i < n
        invariant
            i <= n,
            map@.len() == i,
            forall|k: int| 0 <= k < i ==> #[trigger] map@[k] == '.' || map@[k] == '$',
        decreases n - i,
    {
        map.push(gen_random_char());
        i = i + 1;
    }
    map
}

/// A random position inside a grid `width` cells wide and `height` high.
pub fn random_position(width: usize, height: usize) -> (r: Position)
    requires
        width > 0,
        height > 0,
    ensures
        r.x < width,
        r.y < height,
{
    Position::new(random_below(width), random_below(height))
}

/// Marks each position of `path` on `grid` with `marker`, leaving every other
/// cell as it was.
pub fn mark_path(grid: &mut Grid<char>, path: &Vec<Position>, marker: char)
    requires
        old(grid).wf(),
        forall|k: int| 0 <= k < path@.len() ==> old(grid).contains(#[trigger] path@[k]),
    ensures
        final(grid).wf(),
        final(grid).cols() == old(grid).cols(),
        final(grid).rows() == old(grid).rows(),
        forall|k: int| 0 <= k < path@.len() ==> final(grid).cell(#[trigger] path@[k]) == marker,
        forall|p: Position|
            final(grid).contains(p) && !path@.contains(p) ==> #[trigger] final(grid).cell(p) == old(grid).cell(p),
{
    let ghost g0 = *grid;
    let mut k: usize = 0;
    proof {
        crate::frontier::lemma_grid_layout(g0);
    }
    while k < path.len()
        invariant
            grid.wf(),
            grid.cols() == g0.cols(),
            grid.rows() == g0.rows(),
            crate::frontier::layout_ok(g0.cols(), g0.rows()),
            k <= path@.len(),
            forall|m: int| 0 <= m < path@.len() ==> g0.contains(#[trigger] path@[m]),
            forall|m: int| 0 <= m < k ==> grid.cell(#[trigger] path@[m]) == marker,
            forall|p: Position|
                grid.contains(p) && !path@.subrange(0, k as int).contains(p) ==> #[trigger] grid.cell(p)
                    == g0.cell(p),
        decreases path@.len() - k,
    {
        let p = path[k];
        let ghost before = *grid;
        grid.set(p, marker);
        proof {
            assert forall|m: int| 0 <= m < k + 1 implies grid.cell(#[trigger] path@[m]) == marker by {
                if path@[m] != p {
                    assert(flat_index(g0.cols(), path@[m]) != flat_index(g0.cols(), p));
                    assert(0 <= flat_index(g0.cols(), path@[m]) < g0.cols() * g0.rows());
                    assert(before.cell(path@[m]) == marker);
                }
            }
            assert forall|q: Position|
                grid.contains(q) && !path@.subrange(0, k + 1).contains(q) implies #[trigger] grid.cell(q)
                == g0.cell(q) by {
                assert(q != p) by {
                    assert(path@.subrange(0, k + 1)[k as int] == p);
                }
                assert(flat_index(g0.cols(), q) != flat_index(g0.cols(), p));
                assert(0 <= flat_index(g0.cols(), q) < g0.cols() * g0.rows());
                if path@.subrange(0, k as int).contains(q) {
                    let i = choose|i: int| 0 <= i < k && path@.subrange(0, k as int)[i] == q;
                    assert(path@.subrange(0, k + 1)[i] == q);
                }
                assert(before.contains(q));
                assert(before.cell(q) == g0.cell(q));
            }
        }
        k = k + 1;
    }
    assert(path@.subrange(0, path@.len() as int) =~= path@);
}

/// The route that `result` holds, or no position at all where the search
/// failed.
pub fn route_or_empty(result: Result<Vec<Position>, SearchError>) -> (r: Vec<Position>)
    ensures
        match result {
            Ok(path) => r@ == path@,
            Err(_) => r@.len() == 0,
        },
{
    match result {
        Ok(path) => path,
        Err(_) => Vec::new(),
    }
}

} // verus!
