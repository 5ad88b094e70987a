use vstd::prelude::*;

use crate::coord::{adjacent, Position};
use crate::grid::{flat_index, Grid};

verus! {

/// Why a search or a path reconstruction gave no path.
#[derive(Clone, Copy, Debug, PartialEq, Eq, Structural)]
pub enum SearchError {
    /// The frontier ran out before the goal was reached.
    NoPathFound,
    /// The walk back reached a position recorded as its own predecessor.
    SelfLoopInPredecessor,
    /// The walk back went on for more steps than the table has entries.
    PredecessorCycle,
}

/// The predecessor that `table` records for `p`, in a table laid out row by row
/// for a grid `w` cells wide.
pub open spec fn pred_of(table: Seq<Option<Position>>, w: nat, p: Position) -> Option<Position> {
    table[flat_index(w, p)]
}

/// The position reached from `p` after following `k` predecessor links, or
/// `None` once a position without one has been passed.
pub open spec fn walk(table: Seq<Option<Position>>, w: nat, p: Position, k: nat) -> Option<Position>
    decreases k,
{
    if k == 0 {
        Some(p)
    } else {
        match walk(table, w, p, (k - 1) as nat) {
            Some(q) => pred_of(table, w, q),
            None => None,
        }
    }
}

/// Every entry of `table` names a position whose own entry lies in `table`.
pub open spec fn table_closed(table: Seq<Option<Position>>, w: nat) -> bool {
    forall|i: int|
        0 <= i < table.len() && (#[trigger] table[i]) is Some ==> {
            let q = table[i]->Some_0;
            q.x < w && 0 <= flat_index(w, q) < table.len()
        }
}

/// A cell that a path may cross: inside the grid and marked `.`.
pub open spec fn passable(g: Grid<char>, p: Position) -> bool {
    g.contains(p) && g.cell(p) == '.'
}

/// `path` leads, read from its end to its start, from `start` to `goal` by
/// single axis steps, and every position on it but `start` is passable.
pub open spec fn is_route(g: Grid<char>, start: Position, goal: Position, path: Seq<Position>) -> bool {
    &&& path.len() >= 1
    &&& path[0] == goal
    &&& path.last() == start
    &&& forall|k: int|
        0 <= k < path.len() - 1 ==> adjacent(#[trigger] path[k], path[k + 1]) && passable(g, path[k])
}

/// Some route leads from `start` to `goal`.
pub open spec fn reachable(g: Grid<char>, start: Position, goal: Position) -> bool {
    exists|path: Seq<Position>| is_route(g, start, goal, path)
}

/// A set of positions that holds `start` and is closed under steps onto
/// passable cells holds the end of every route from `start`.
pub(crate) proof fn lemma_route_stays_in(
    g: Grid<char>,
    start: Position,
    goal: Position,
    path: Seq<Position>,
    inside: spec_fn(Position) -> bool,
    k: int,
)
    requires
        is_route(g, start, goal, path),
        0 <= k < path.len(),
        inside(start),
        forall|p: Position, q: Position|
            #![trigger inside(p), adjacent(p, q)]
            inside(p) && adjacent(p, q) && passable(g, q) ==> inside(q),
    ensures
        inside(path[k]),
    decreases path.len() - k,
{
    if k < path.len() - 1 {
        lemma_route_stays_in(g, start, goal, path, inside, k + 1);
        assert(adjacent(path[k], path[k + 1]));
        assert(adjacent(path[k + 1], path[k]));
    }
}

/// With every cell blocked but `start` and `goal`, which are distinct and not
/// adjacent, no route leads from `start` to `goal`; the search between them
/// therefore ends in `NoPathFound`.
pub proof fn lemma_walled_in_has_no_route(g: Grid<char>, start: Position, goal: Position)
    requires
        start != goal,
        !adjacent(start, goal),
        forall|p: Position| g.contains(p) && p != start && p != goal ==> g.cell(p) != '.',
    ensures
        !reachable(g, start, goal),
{
    if reachable(g, start, goal) {
        let path = choose|path: Seq<Position>| is_route(g, start, goal, path);
        assert(path.len() >= 2);
        assert(adjacent(path[0], path[1]));
        if path.len() > 2 {
            assert(passable(g, path[1]));
        }
    }
}

/// What walking back from `current` through `table` gives: the positions met,
/// or the reason the walk failed.
pub open spec fn walk_outcome(
    table: Seq<Option<Position>>,
    w: nat,
    current: Position,
    r: Result<Vec<Position>, SearchError>,
) -> bool {
    match r {
        Ok(path) => {
            &&& path@.len() >= 1
            &&& path@.len() <= table.len() + 1
            &&& forall|k: int|
                0 <= k < path@.len() ==> walk(table, w, current, k as nat)
                    == Some(#[trigger] path@[k])
            &&& walk(table, w, current, path@.len()) is None
            &&& forall|k: int|
                0 <= k < path@.len() - 1 ==> #[trigger] path@[k] != path@[k + 1]
        },
        Err(SearchError::SelfLoopInPredecessor) => exists|k: nat|
            k <= table.len() && {
                let q = #[trigger] walk(table, w, current, k);
                q is Some && pred_of(table, w, q->Some_0) == q
            },
        Err(SearchError::PredecessorCycle) => walk(
            table,
            w,
            current,
            (table.len() + 1) as nat,
        ) is Some,
        Err(SearchError::NoPathFound) => false,
    }
}

impl Position {
    /// Walks back from `current` through the predecessor table `came_from`,
    /// laid out row by row for a grid `width` cells wide, and gives the
    /// positions met, `current` first. The walk stops at a position without a
    /// predecessor; it fails at a position recorded as its own predecessor, or
    /// when it has taken as many steps as the table has entries.
    pub fn reconstruct_path(came_from: &Vec<Option<Position>>, width: usize, current: Position) -> (r:
        Result<Vec<Position>, SearchError>)
        requires
            table_closed(came_from@, width as nat),
            current.x < width,
            0 <= flat_index(width as nat, current) < came_from@.len(),
        ensures
            walk_outcome(came_from@, width as nat, current, r),
    {
        let ghost w = width as nat;
        let ghost t = came_from@;
        let mut path: Vec<Position> = Vec::new();
        path.push(current);
        let mut cur = current;
        let mut steps: usize = 0;
        while steps < came_from.len()
            invariant
                table_closed(t, w),
                t == came_from@,
                w == width,
                cur.x < width,
                0 <= flat_index(w, cur) < t.len(),
                steps <= t.len(),
                path@.len() == steps + 1,
                path@.last() == cur,
                forall|k: int|
                    0 <= k < path@.len() ==> walk(t, w, current, k as nat) == Some(#[trigger] path@[k]),
                forall|k: int| 0 <= k < path@.len() - 1 ==> #[trigger] path@[k] != path@[k + 1],
            decreases t.len() - steps,
        {
            assert(walk(t, w, current, steps as nat) == Some(cur));
            let i = cur.y * width + cur.x;
            match came_from[i] {
                None => {
                    assert(walk(t, w, current, (steps + 1) as nat) is None);
                    return Ok(path);
                },
                Some(p) => {
                    if p == cur {
                        assert(pred_of(t, w, cur) == Some(cur));
                        return Err(SearchError::SelfLoopInPredecessor);
                    }
                    assert(t[flat_index(w, cur)] is Some);
                    assert(walk(t, w, current, (steps + 1) as nat) == Some(p));
                    cur = p;
                    path.push(p);
                    steps = steps + 1;
                },
            }
        }
        assert(walk(t, w, current, steps as nat) == Some(cur));
        let i = cur.y * width + cur.x;
        match came_from[i] {
            None => {
                assert(walk(t, w, current, (steps + 1) as nat) is None);
                Ok(path)
            },
            Some(p) => {
                if p == cur {
                    assert(pred_of(t, w, cur) == Some(cur));
                    Err(SearchError::SelfLoopInPredecessor)
                } else {
                    assert(walk(t, w, current, (steps + 1) as nat) == Some(p));
                    Err(SearchError::PredecessorCycle)
                }
            },
        }
    }
}

} // verus!
