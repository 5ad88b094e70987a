use vstd::prelude::*;

use crate::coord::{dist, neighbor_seq, Position};
use crate::grid::{flat_index, Grid};
use crate::route::walk;

verus! {

/// What the search holds between steps: the frontier, the expanded and the
/// discovered cells, and the predecessor table, the last three indexed by
/// flat index.
pub struct SearchState {
    pub open: Seq<Position>,
    pub closed: Seq<bool>,
    pub seen: Seq<bool>,
    pub came_from: Seq<Option<Position>>,
}

/// The state in which the search from `start` begins.
pub open spec fn initial_state(g: Grid<char>, start: Position) -> SearchState {
    let n = g.cols() * g.rows();
    SearchState {
        open: seq![start],
        closed: Seq::new(n, |m: int| false),
        seen: Seq::new(n, |m: int| m == flat_index(g.cols(), start)),
        came_from: Seq::new(n, |m: int| None),
    }
}

/// `i` is the index of the frontier member nearest to `goal`, the first
/// among equally near ones.
pub open spec fn is_nearest(open: Seq<Position>, goal: Position, i: int) -> bool {
    &&& 0 <= i < open.len()
    &&& forall|k: int| 0 <= k < open.len() ==> dist(open[i], goal) <= dist(#[trigger] open[k], goal)
    &&& forall|k: int| 0 <= k < i ==> dist(open[i], goal) < dist(#[trigger] open[k], goal)
}

/// The index that the search takes off a non-empty frontier.
pub open spec fn nearest(open: Seq<Position>, goal: Position) -> int {
    choose|i: int| is_nearest(open, goal, i)
}

/// Discovering `nb` from `cur`: a passable cell not yet discovered joins the
/// frontier with `cur` as its predecessor; any other leaves the state as it is.
pub open spec fn discover(g: Grid<char>, cur: Position, st: SearchState, nb: Position) -> SearchState {
    let i = flat_index(g.cols(), nb);
    if g.contains(nb) && !st.seen[i] && g.cell(nb) == '.' {
        SearchState {
            open: st.open.push(nb),
            closed: st.closed,
            seen: st.seen.update(i, true),
            came_from: st.came_from.update(i, Some(cur)),
        }
    } else {
        st
    }
}

/// The state after discovering the first `j` members of `nbrs` from `cur`.
pub open spec fn expand_upto(g: Grid<char>, cur: Position, nbrs: Seq<Position>, j: nat, st: SearchState) -> SearchState
    decreases j,
{
    if j == 0 {
        st
    } else {
        discover(g, cur, expand_upto(g, cur, nbrs, (j - 1) as nat, st), nbrs[j - 1])
    }
}

/// The state after expanding `cur`.
pub open spec fn expand(g: Grid<char>, cur: Position, st: SearchState) -> SearchState {
    expand_upto(g, cur, neighbor_seq(cur), neighbor_seq(cur).len(), st)
}

/// The state after taking the nearest member off the frontier and marking it
/// expanded.
pub open spec fn pop(st: SearchState, goal: Position, w: nat) -> SearchState {
    let i = nearest(st.open, goal);
    SearchState {
        open: st.open.remove(i),
        closed: st.closed.update(flat_index(w, st.open[i]), true),
        seen: st.seen,
        came_from: st.came_from,
    }
}

/// Runs the search for at most `fuel` steps: the final state, and whether
/// the goal was taken off the frontier.
pub open spec fn run(g: Grid<char>, goal: Position, st: SearchState, fuel: nat) -> (SearchState, bool)
    decreases fuel,
{
    if fuel == 0 || st.open.len() == 0 {
        (st, false)
    } else {
        let cur = st.open[nearest(st.open, goal)];
        let st2 = pop(st, goal, g.cols());
        if cur == goal {
            (st2, true)
        } else {
            run(g, goal, expand(g, cur, st2), (fuel - 1) as nat)
        }
    }
}

/// The whole search from `start`: it expands each cell at most once, so as
/// many steps as the grid has cells, and one more, are enough.
pub open spec fn search_run(g: Grid<char>, start: Position, goal: Position) -> (SearchState, bool) {
    run(g, goal, initial_state(g, start), g.cols() * g.rows() + 1)
}

/// `path` is the route that the greedy search gives from `start` to `goal`:
/// the walk back from `goal` through the predecessors that it recorded.
pub open spec fn greedy_route(g: Grid<char>, start: Position, goal: Position, path: Seq<Position>) -> bool {
    if start == goal {
        path == seq![start]
    } else {
        let table = search_run(g, start, goal).0.came_from;
        &&& search_run(g, start, goal).1
        &&& path.len() >= 1
        &&& forall|k: int| 0 <= k < path.len() ==> walk(table, g.cols(), goal, k as nat) == Some(#[trigger] path[k])
        &&& walk(table, g.cols(), goal, path.len()) is None
    }
}

/// The greedy search from `start` runs out of frontier before reaching `goal`.
pub open spec fn greedy_fails(g: Grid<char>, start: Position, goal: Position) -> bool {
    start != goal && !search_run(g, start, goal).1
}

/// The search is repeatable: the route it gives is determined by the grid
/// and the two endpoints, and it never both succeeds and fails.
pub proof fn lemma_search_repeatable(
    g: Grid<char>,
    start: Position,
    goal: Position,
    p1: Seq<Position>,
    p2: Seq<Position>,
)
    requires
        greedy_route(g, start, goal, p1),
        greedy_route(g, start, goal, p2),
    ensures
        p1 == p2,
        !greedy_fails(g, start, goal),
{
    if start != goal {
        let table = search_run(g, start, goal).0.came_from;
        if p1.len() < p2.len() {
            assert(walk(table, g.cols(), goal, p1.len()) == Some(p2[p1.len() as int]));
        } else if p2.len() < p1.len() {
            assert(walk(table, g.cols(), goal, p2.len()) == Some(p1[p2.len() as int]));
        }
        assert forall|k: int| 0 <= k < p1.len() implies p1[k] == p2[k] by {
            assert(walk(table, g.cols(), goal, k as nat) == Some(p1[k]));
            assert(walk(table, g.cols(), goal, k as nat) == Some(p2[k]));
        }
        assert(p1 =~= p2);
    }
}

/// There is only one nearest index.
pub(crate) proof fn lemma_nearest_unique(open: Seq<Position>, goal: Position, i: int)
    requires
        is_nearest(open, goal, i),
    ensures
        nearest(open, goal) == i,
{
    let j = nearest(open, goal);
    assert(is_nearest(open, goal, j));
    if j < i {
        assert(dist(open[i], goal) < dist(open[j], goal));
    } else if i < j {
        assert(dist(open[j], goal) < dist(open[i], goal));
    }
}

} // verus!
