use vstd::prelude::*;

use crate::coord::{adjacent, dist, neighbor_seq, sq_dist, Position};
use crate::grid::{flat_index, lemma_flat_index_bounds, Grid};
use crate::frontier::{
    expanded_ok, frontier_ok, layout_ok, lemma_expanded_grows, lemma_expansion_done, lemma_frontier_facts,
    lemma_frontier_shape, lemma_search_discover, lemma_search_exhausted, lemma_search_found, lemma_search_pop,
    lemma_search_start,
};
use crate::model::{
    expand, expand_upto, greedy_fails, greedy_route, initial_state, is_nearest, lemma_nearest_unique, run,
    search_run, SearchState,
};
use crate::route::{is_route, passable, reachable, walk_outcome, SearchError};

verus! {

impl Position {
    /// Index of the member of `points` nearest to `self`; among equally near
    /// members the one that comes first.
    pub fn nearest_index(&self, points: &Vec<Position>) -> (r: usize)
        requires
            points@.len() > 0,
            forall|k: int| 0 <= k < points@.len() ==> sq_dist(#[trigger] points@[k], *self) <= usize::MAX,
        ensures
            is_nearest(points@, *self, r as int),
    {
        let mut best: usize = 0;
        let mut best_dist: usize = points[0].distance(self);
        let mut k: usize = 1;
        while k < points.len()
            invariant
                1 <= k <= points@.len(),
                best < k,
                best_dist == dist(points@[best as int], *self),
                forall|m: int| 0 <= m < points@.len() ==> sq_dist(#[trigger] points@[m], *self) <= usize::MAX,
                forall|m: int| 0 <= m < k ==> best_dist <= dist(#[trigger] points@[m], *self),
                forall|m: int| 0 <= m < best ==> best_dist < dist(#[trigger] points@[m], *self),
            decreases points@.len() - k,
        {
            let d = points[k].distance(self);
            if d < best_dist {
                best = k;
                best_dist = d;
            }
            k = k + 1;
        }
        best
    }
}

/// Expands `current`: every neighbour inside the grid that is passable and not
/// yet discovered joins the frontier, with `current` as its predecessor.
#[verifier::rlimit(40)]
fn expand_neighbors(
    grid: &Grid<char>,
    start: Position,
    goal: Position,
    current: Position,
    open_set: &mut Vec<Position>,
    closed: &Vec<bool>,
    seen: &mut Vec<bool>,
    came_from: &mut Vec<Option<Position>>,
    Ghost(rank0): Ghost<Seq<int>>,
    Ghost(nc): Ghost<nat>,
) -> (rank_out: Ghost<Seq<int>>)
    requires
        frontier_ok(*grid, start, goal, old(open_set)@, closed@, old(seen)@, old(came_from)@, rank0, nc),
        expanded_ok(*grid, closed@, old(seen)@, Some(current)),
        grid.contains(current),
        current.x < usize::MAX,
        current.y < usize::MAX,
        closed@[flat_index(grid.cols(), current)],
        rank0[flat_index(grid.cols(), current)] < nc,
    ensures
        frontier_ok(*grid, start, goal, final(open_set)@, closed@, final(seen)@, final(came_from)@, rank_out@, nc),
        expanded_ok(*grid, closed@, final(seen)@, None),
        (SearchState { open: final(open_set)@, closed: closed@, seen: final(seen)@, came_from: final(came_from)@ })
            == expand(
            *grid,
            current,
            SearchState { open: old(open_set)@, closed: closed@, seen: old(seen)@, came_from: old(came_from)@ },
        ),
{
    let ghost g = *grid;
    let ghost gw = g.cols();
    let ghost mut rank = rank0;
    let ghost st0 = SearchState { open: open_set@, closed: closed@, seen: seen@, came_from: came_from@ };
    proof {
        lemma_frontier_shape(g, start, goal, open_set@, closed@, seen@, came_from@, rank, nc);
    }
    let w = grid.width();
    let nbrs = current.neighbors();
    let mut j: usize = 0;
    while j < nbrs.len()
        invariant
            g == *grid,
            gw == g.cols(),
            w == g.cols(),
            g.wf(),
            layout_ok(gw, g.rows()),
            frontier_ok(g, start, goal, open_set@, closed@, seen@, came_from@, rank, nc),
            expanded_ok(g, closed@, seen@, Some(current)),
            closed@.len() == g.cols() * g.rows(),
            seen@.len() == closed@.len(),
            came_from@.len() == closed@.len(),
            rank.len() == closed@.len(),
            j <= nbrs@.len(),
            nbrs@ == neighbor_seq(current),
            forall|m: int| 0 <= m < nbrs@.len() ==> adjacent(current, #[trigger] nbrs@[m]),
            g.contains(current),
            current.x < usize::MAX,
            current.y < usize::MAX,
            closed@[flat_index(gw, current)],
            rank[flat_index(gw, current)] < nc,
            forall|m: int|
                0 <= m < j && passable(g, #[trigger] nbrs@[m]) ==> seen@[flat_index(gw, nbrs@[m])],
            (SearchState { open: open_set@, closed: closed@, seen: seen@, came_from: came_from@ }) == expand_upto(
                g,
                current,
                nbrs@,
                j as nat,
                st0,
            ),
        decreases nbrs@.len() - j,
    {
        let nb = nbrs[j];
        if grid.in_bounds(nb) {
            proof {
                lemma_flat_index_bounds(gw, g.rows(), nb);
            }
            let ni = nb.y * w + nb.x;
            if !seen[ni] {
                let is_open = match grid.get(nb) {
                    Some(c) => *c == '.',
                    None => false,
                };
                if is_open {
                    proof {
                        lemma_search_discover(g, start, goal, open_set@, closed@, seen@, came_from@, rank, nc, current, nb);
                        lemma_expanded_grows(g, closed@, seen@, ni as int, Some(current));
                        rank = rank.update(ni as int, nc as int);
                    }
                    open_set.push(nb);
                    seen.set(ni, true);
                    came_from.set(ni, Some(current));
                }
            }
        }
        j = j + 1;
    }
    proof {
        lemma_expansion_done(g, closed@, seen@, current, nbrs@);
    }
    Ghost(rank)
}

/// Gives the route found once the goal has been taken off the frontier.
fn walk_back_from_goal(
    grid: &Grid<char>,
    start: Position,
    goal: Position,
    came_from: &Vec<Option<Position>>,
    Ghost(open): Ghost<Seq<Position>>,
    Ghost(closed): Ghost<Seq<bool>>,
    Ghost(seen): Ghost<Seq<bool>>,
    Ghost(rank): Ghost<Seq<int>>,
    Ghost(nc): Ghost<nat>,
) -> (r: Result<Vec<Position>, SearchError>)
    requires
        frontier_ok(*grid, start, goal, open, closed, seen, came_from@, rank, nc),
        seen[flat_index(grid.cols(), goal)],
    ensures
        r matches Ok(path) && is_route(*grid, start, goal, path@),
        reachable(*grid, start, goal),
        walk_outcome(came_from@, grid.cols(), goal, r),
{
    proof {
        lemma_frontier_shape(*grid, start, goal, open, closed, seen, came_from@, rank, nc);
        reveal(frontier_ok);
        lemma_flat_index_bounds(grid.cols(), grid.rows(), goal);
    }
    let res = Position::reconstruct_path(came_from, grid.width(), goal);
    proof {
        lemma_search_found(*grid, start, goal, open, closed, seen, came_from@, rank, nc, res);
    }
    res
}

impl Position {
    /// Searches a route from `self` to `goal` over the passable (`.`) cells of
    /// `grid`, greedily: it always expands the frontier member nearest to
    /// `goal`, the earliest discovered among equally near ones, and records
    /// for each newly discovered cell the cell that discovered it. On success
    /// the route is given from `goal` back to `self`; when `self` is `goal` it
    /// is that one position.
    #[verifier::rlimit(40)]
    pub fn path_between(&self, goal: Position, grid: &Grid<char>) -> (r: Result<Vec<Position>, SearchError>)
        requires
            grid.wf(),
            grid.contains(*self),
            grid.contains(goal),
            grid.cols() * grid.cols() + grid.rows() * grid.rows() <= usize::MAX,
        ensures
            r is Ok <==> reachable(*grid, *self, goal),
            r matches Ok(path) ==> is_route(*grid, *self, goal, path@),
            r matches Err(e) ==> e == SearchError::NoPathFound,
            *self == goal ==> (r matches Ok(path) && path@ == seq![goal]),
            r matches Ok(path) ==> greedy_route(*grid, *self, goal, path@),
            r is Err ==> greedy_fails(*grid, *self, goal),
    {
        let start = *self;
        if start == goal {
            let path: Vec<Position> = vec![start];
            proof {
                assert(path@ =~= seq![start]);
                assert(is_route(*grid, start, goal, path@));
            }
            return Ok(path);
        }
        let ghost g = *grid;
        let ghost gw = g.cols();
        let w = grid.width();
        let h = grid.height();
        let n = w * h;
        let mut closed: Vec<bool> = Vec::new();
        let mut seen: Vec<bool> = Vec::new();
        let mut came_from: Vec<Option<Position>> = Vec::new();
        let mut i: usize = 0;
        while i < n
            invariant
                i <= n,
                closed@.len() == i,
                seen@.len() == i,
                came_from@.len() == i,
                forall|m: int| 0 <= m < i ==> !(#[trigger] closed@[m]),
                forall|m: int| 0 <= m < i ==> !(#[trigger] seen@[m]),
                forall|m: int| 0 <= m < i ==> (#[trigger] came_from@[m]) is None,
            decreases n - i,
        {
            closed.push(false);
            seen.push(false);
            came_from.push(None);
            i = i + 1;
        }
        proof {
            lemma_flat_index_bounds(gw, g.rows(), start);
        }
        let si = start.y * w + start.x;
        seen.set(si, true);
        let mut open_set: Vec<Position> = Vec::new();
        open_set.push(start);
        let ghost mut rank: Seq<int> = Seq::new(n as nat, |m: int| 0);
        let ghost mut nc: nat = 0;
        proof {
            assert(open_set@ =~= seq![start]);
            assert(closed@ =~= initial_state(g, start).closed);
            assert(seen@ =~= initial_state(g, start).seen);
            assert(came_from@ =~= initial_state(g, start).came_from);
            lemma_search_start(g, start, goal, closed@, seen@, came_from@, rank);
        }
        while open_set.len() > 0
            invariant
                g == *grid,
                gw == g.cols(),
                w == g.cols(),
                h == g.rows(),
                n == w * h,
                g.cols() * g.cols() + g.rows() * g.rows() <= usize::MAX,
                start != goal,
                start == *self,
                g.wf(),
                frontier_ok(g, start, goal, open_set@, closed@, seen@, came_from@, rank, nc),
                expanded_ok(g, closed@, seen@, None),
                nc <= n,
                run(
                    g,
                    goal,
                    SearchState { open: open_set@, closed: closed@, seen: seen@, came_from: came_from@ },
                    (n + 1 - nc) as nat,
                ) == search_run(g, start, goal),
            decreases n - nc,
        {
            proof {
                lemma_frontier_facts(g, start, goal, open_set@, closed@, seen@, came_from@, rank, nc);
            }
            let idx = goal.nearest_index(&open_set);
            proof {
                lemma_search_pop(g, start, goal, open_set@, closed@, seen@, came_from@, rank, nc, idx as int);
            }
            let ghost old_open = open_set@;
            let ghost old_closed = closed@;
            proof {
                lemma_nearest_unique(open_set@, goal, idx as int);
            }
            let current = open_set.remove(idx);
            let ci = current.y * w + current.x;
            closed.set(ci, true);
            if current == goal {
                let res = walk_back_from_goal(
                    grid,
                    start,
                    goal,
                    &came_from,
                    Ghost(old_open),
                    Ghost(old_closed),
                    Ghost(seen@),
                    Ghost(rank),
                    Ghost(nc),
                );
                return res;
            }
            proof {
                nc = nc + 1;
            }
            let new_rank = expand_neighbors(
                grid,
                start,
                goal,
                current,
                &mut open_set,
                &closed,
                &mut seen,
                &mut came_from,
                Ghost(rank),
                Ghost(nc),
            );
            proof {
                rank = new_rank@;
            }
        }
        proof {
            lemma_search_exhausted(g, start, goal, open_set@, closed@, seen@, came_from@, rank, nc);
        }
        Err(SearchError::NoPathFound)
    }
}

} // verus!
