use vstd::prelude::*;

use crate::coord::{adjacent, lemma_neighbor_seq_complete, neighbor_seq, sq_dist, Position};
use crate::grid::{flat_index, lemma_flat_index_bounds, lemma_flat_index_injective, Grid};
use crate::route::{is_route, lemma_route_stays_in, passable, pred_of, reachable, table_closed, walk, walk_outcome, SearchError};

verus! {

/// Distinct in-bounds positions of a grid `w` cells wide and `h` high have
/// distinct flat indices, each within the cells.
pub open spec fn layout_ok(w: nat, h: nat) -> bool {
    &&& forall|p: Position, q: Position|
        p.x < w && p.y < h && q.x < w && q.y < h && p != q ==> #[trigger] flat_index(w, p)
            != #[trigger] flat_index(w, q)
    &&& forall|p: Position| p.x < w && p.y < h ==> 0 <= #[trigger] flat_index(w, p) < w * h
}

/// Cells of distinct in-bounds positions of `g` do not share a place.
pub proof fn lemma_grid_layout(g: Grid<char>)
    ensures
        layout_ok(g.cols(), g.rows()),
{
    lemma_layout(g.cols(), g.rows());
}

pub(crate) proof fn lemma_layout(w: nat, h: nat)
    ensures
        layout_ok(w, h),
{
    assert forall|p: Position, q: Position|
        p.x < w && p.y < h && q.x < w && q.y < h && p != q implies #[trigger] flat_index(w, p)
            != #[trigger] flat_index(w, q) by {
        if flat_index(w, p) == flat_index(w, q) {
            lemma_flat_index_injective(w, p, q);
        }
    }
    assert forall|p: Position| p.x < w && p.y < h implies 0 <= #[trigger] flat_index(w, p) < w * h by {
        lemma_flat_index_bounds(w, h, p);
    }
}

/// Two in-bounds positions are at most as far apart, squared, as the grid's
/// width squared plus its height squared.
pub(crate) proof fn lemma_sq_dist_within(w: nat, h: nat, p: Position, q: Position)
    requires
        p.x < w,
        q.x < w,
        p.y < h,
        q.y < h,
    ensures
        sq_dist(p, q) <= w * w + h * h,
{
    let gx = crate::coord::axis_gap(p.x, q.x);
    let gy = crate::coord::axis_gap(p.y, q.y);
    assert(gx * gx <= w * w) by (nonlinear_arith)
        requires gx < w;
    assert(gy * gy <= h * h) by (nonlinear_arith)
        requires gy < h;
}

/// Every position discovered by the search, but `start`, records a closed,
/// adjacent predecessor of lower rank, and is passable.
pub open spec fn links_ok(
    g: Grid<char>,
    start: Position,
    seen: Seq<bool>,
    closed: Seq<bool>,
    came_from: Seq<Option<Position>>,
    rank: Seq<int>,
) -> bool {
    forall|p: Position|
        g.contains(p) && #[trigger] seen[flat_index(g.cols(), p)] && p != start ==> {
            let e = came_from[flat_index(g.cols(), p)];
            &&& e is Some
            &&& g.contains(e->Some_0)
            &&& seen[flat_index(g.cols(), e->Some_0)]
            &&& closed[flat_index(g.cols(), e->Some_0)]
            &&& adjacent(e->Some_0, p)
            &&& passable(g, p)
            &&& rank[flat_index(g.cols(), e->Some_0)] < rank[flat_index(g.cols(), p)]
        }
}

/// The state of the search between steps: the frontier holds exactly the
/// discovered cells not yet expanded, each once; expanded cells are
/// discovered; the predecessor links are sound and ranked; the goal has not
/// been expanded.
#[verifier::opaque]
pub open spec fn frontier_ok(
    g: Grid<char>,
    start: Position,
    goal: Position,
    open: Seq<Position>,
    closed: Seq<bool>,
    seen: Seq<bool>,
    came_from: Seq<Option<Position>>,
    rank: Seq<int>,
    n_closed: nat,
) -> bool {
    let n = g.cols() * g.rows();
    let gw = g.cols();
    &&& g.wf()
    &&& layout_ok(gw, g.rows())
    &&& g.contains(start)
    &&& g.contains(goal)
    &&& closed.len() == n
    &&& seen.len() == n
    &&& came_from.len() == n
    &&& rank.len() == n
    &&& n_closed == Set::new(|m: int| 0 <= m < n && closed[m]).len()
    &&& n_closed <= n
    &&& forall|k: int|
        0 <= k < open.len() ==> g.contains(#[trigger] open[k]) && seen[flat_index(gw, open[k])]
            && !closed[flat_index(gw, open[k])]
    &&& forall|k1: int, k2: int| 0 <= k1 < k2 < open.len() ==> #[trigger] open[k1] != #[trigger] open[k2]
    &&& forall|p: Position|
        g.contains(p) && #[trigger] seen[flat_index(gw, p)] && !closed[flat_index(gw, p)] ==> open.contains(p)
    &&& forall|p: Position| g.contains(p) && #[trigger] closed[flat_index(gw, p)] ==> seen[flat_index(gw, p)]
    &&& seen[flat_index(gw, start)]
    &&& came_from[flat_index(gw, start)] is None
    &&& links_ok(g, start, seen, closed, came_from, rank)
    &&& forall|p: Position|
        g.contains(p) && #[trigger] seen[flat_index(gw, p)] ==> 0 <= rank[flat_index(gw, p)] <= n_closed
    &&& table_closed(came_from, gw)
    &&& !closed[flat_index(gw, goal)]
}

/// Every passable cell next to an expanded cell other than `skip` has been
/// discovered.
#[verifier::opaque]
pub open spec fn expanded_ok(g: Grid<char>, closed: Seq<bool>, seen: Seq<bool>, skip: Option<Position>) -> bool {
    forall|p: Position, q: Position|
        #![trigger closed[flat_index(g.cols(), p)], adjacent(p, q)]
        g.contains(p) && skip != Some(p) && closed[flat_index(g.cols(), p)] && adjacent(p, q) && passable(g, q)
            ==> seen[flat_index(g.cols(), q)]
}

/// Following predecessor links from a discovered position meets only
/// discovered positions, of falling rank.
pub(crate) proof fn lemma_walk_ranked(
    g: Grid<char>,
    start: Position,
    seen: Seq<bool>,
    closed: Seq<bool>,
    came_from: Seq<Option<Position>>,
    rank: Seq<int>,
    from: Position,
    k: nat,
)
    requires
        g.wf(),
        came_from.len() == g.cols() * g.rows(),
        links_ok(g, start, seen, closed, came_from, rank),
        came_from[flat_index(g.cols(), start)] is None,
        g.contains(from),
        seen[flat_index(g.cols(), from)],
    ensures
        walk(came_from, g.cols(), from, k) matches Some(q) ==> g.contains(q) && seen[flat_index(g.cols(), q)]
            && rank[flat_index(g.cols(), q)] <= rank[flat_index(g.cols(), from)] - k,
    decreases k,
{
    if k > 0 {
        lemma_walk_ranked(g, start, seen, closed, came_from, rank, from, (k - 1) as nat);
    }
}

/// The cells of `closed` that are set, as a set of indices.
pub open spec fn closed_indices(closed: Seq<bool>) -> Set<int> {
    Set::new(|m: int| 0 <= m < closed.len() && closed[m])
}

pub(crate) proof fn lemma_closed_count(closed: Seq<bool>)
    ensures
        closed_indices(closed).finite(),
        closed_indices(closed).len() <= closed.len(),
{
    vstd::set_lib::lemma_int_range(0, closed.len() as int);
    vstd::set_lib::lemma_len_subset(closed_indices(closed), vstd::set_lib::set_int_range(0, closed.len() as int));
}

/// The state in which the search starts: only `start` discovered, nothing
/// expanded.
pub(crate) proof fn lemma_search_start(
    g: Grid<char>,
    start: Position,
    goal: Position,
    closed: Seq<bool>,
    seen: Seq<bool>,
    came_from: Seq<Option<Position>>,
    rank: Seq<int>,
)
    requires
        g.wf(),
        g.contains(start),
        g.contains(goal),
        start != goal,
        closed.len() == g.cols() * g.rows(),
        seen.len() == closed.len(),
        came_from.len() == closed.len(),
        rank.len() == closed.len(),
        forall|m: int| 0 <= m < closed.len() ==> !(#[trigger] closed[m]),
        forall|m: int|
            0 <= m < closed.len() ==> (#[trigger] seen[m]) == (m == flat_index(g.cols(), start)),
        forall|m: int| 0 <= m < closed.len() ==> (#[trigger] came_from[m]) is None,
        forall|m: int| 0 <= m < closed.len() ==> (#[trigger] rank[m]) == 0,
    ensures
        frontier_ok(g, start, goal, seq![start], closed, seen, came_from, rank, 0),
        expanded_ok(g, closed, seen, None),
{
    reveal(expanded_ok);
    reveal(frontier_ok);
    lemma_layout(g.cols(), g.rows());
    assert(closed_indices(closed) =~= Set::empty());
    let gw = g.cols();
    assert forall|p: Position|
        g.contains(p) && #[trigger] seen[flat_index(gw, p)] && !closed[flat_index(gw, p)] implies seq![
        start]
        .contains(p) by {
        assert(flat_index(gw, p) == flat_index(gw, start));
        assert(seq![start][0] == start);
    }
}

/// Every member of the frontier is near enough to `goal` for the distance to
/// be computed.
pub(crate) proof fn lemma_frontier_facts(
    g: Grid<char>,
    start: Position,
    goal: Position,
    open: Seq<Position>,
    closed: Seq<bool>,
    seen: Seq<bool>,
    came_from: Seq<Option<Position>>,
    rank: Seq<int>,
    nc: nat,
)
    requires
        frontier_ok(g, start, goal, open, closed, seen, came_from, rank, nc),
        g.cols() * g.cols() + g.rows() * g.rows() <= usize::MAX,
    ensures
        forall|k: int| 0 <= k < open.len() ==> sq_dist(#[trigger] open[k], goal) <= usize::MAX,
        nc <= g.cols() * g.rows(),
        table_closed(came_from, g.cols()),
        layout_ok(g.cols(), g.rows()),
        closed.len() == g.cols() * g.rows(),
        seen.len() == closed.len(),
        came_from.len() == closed.len(),
        rank.len() == closed.len(),
{
    reveal(frontier_ok);
    assert forall|k: int| 0 <= k < open.len() implies sq_dist(#[trigger] open[k], goal) <= usize::MAX by {
        lemma_sq_dist_within(g.cols(), g.rows(), open[k], goal);
    }
}

/// Removing the member at `idx` from a duplicate-free frontier of undone
/// discovered cells, and marking it expanded, keeps the frontier exactly the
/// undone discovered cells.
#[verifier::rlimit(40)]
pub(crate) proof fn lemma_pop_frontier(
    g: Grid<char>,
    open: Seq<Position>,
    closed: Seq<bool>,
    seen: Seq<bool>,
    idx: int,
)
    requires
        layout_ok(g.cols(), g.rows()),
        closed.len() == g.cols() * g.rows(),
        0 <= idx < open.len(),
        forall|k: int|
            0 <= k < open.len() ==> g.contains(#[trigger] open[k]) && seen[flat_index(g.cols(), open[k])]
                && !closed[flat_index(g.cols(), open[k])],
        forall|k1: int, k2: int| 0 <= k1 < k2 < open.len() ==> #[trigger] open[k1] != #[trigger] open[k2],
        forall|p: Position|
            g.contains(p) && #[trigger] seen[flat_index(g.cols(), p)] && !closed[flat_index(g.cols(), p)]
                ==> open.contains(p),
    ensures
        ({
            let gw = g.cols();
            let o2 = open.remove(idx);
            let c2 = closed.update(flat_index(gw, open[idx]), true);
            &&& forall|k: int|
                0 <= k < o2.len() ==> g.contains(#[trigger] o2[k]) && seen[flat_index(gw, o2[k])]
                    && !c2[flat_index(gw, o2[k])]
            &&& forall|k1: int, k2: int| 0 <= k1 < k2 < o2.len() ==> #[trigger] o2[k1] != #[trigger] o2[k2]
            &&& forall|p: Position|
                g.contains(p) && #[trigger] seen[flat_index(gw, p)] && !c2[flat_index(gw, p)] ==> o2.contains(p)
        }),
{
    let gw = g.cols();
    let cur = open[idx];
    let o2 = open.remove(idx);
    let c2 = closed.update(flat_index(gw, cur), true);
    assert forall|p: Position|
        g.contains(p) && #[trigger] seen[flat_index(gw, p)] && !c2[flat_index(gw, p)] implies o2.contains(p) by {
        assert(open.contains(p));
        let k = choose|k: int| 0 <= k < open.len() && open[k] == p;
        if k < idx {
            assert(o2[k] == p);
        } else {
            assert(k != idx);
            assert(o2[k - 1] == p);
        }
    }
    assert forall|k: int| 0 <= k < o2.len() implies g.contains(#[trigger] o2[k]) && seen[flat_index(gw, o2[k])]
        && !c2[flat_index(gw, o2[k])] by {
        let a = if k < idx { k } else { k + 1 };
        assert(o2[k] == open[a]);
        assert(open[a] != cur);
    }
    assert forall|k1: int, k2: int| 0 <= k1 < k2 < o2.len() implies #[trigger] o2[k1] != #[trigger] o2[k2] by {
        let a = if k1 < idx { k1 } else { k1 + 1 };
        let b = if k2 < idx { k2 } else { k2 + 1 };
        assert(o2[k1] == open[a]);
        assert(o2[k2] == open[b]);
    }
}

/// Marking the discovered cell `cur` expanded keeps the predecessor links
/// sound and every other expanded cell's neighbours discovered.
#[verifier::rlimit(40)]
pub(crate) proof fn lemma_pop_links(
    g: Grid<char>,
    start: Position,
    closed: Seq<bool>,
    seen: Seq<bool>,
    came_from: Seq<Option<Position>>,
    rank: Seq<int>,
    cur: Position,
)
    requires
        layout_ok(g.cols(), g.rows()),
        closed.len() == g.cols() * g.rows(),
        seen.len() == closed.len(),
        came_from.len() == closed.len(),
        rank.len() == closed.len(),
        links_ok(g, start, seen, closed, came_from, rank),
        expanded_ok(g, closed, seen, None),
        forall|p: Position| g.contains(p) && #[trigger] closed[flat_index(g.cols(), p)] ==> seen[flat_index(g.cols(), p)],
        g.contains(cur),
        seen[flat_index(g.cols(), cur)],
        0 <= flat_index(g.cols(), cur) < closed.len(),
    ensures
        ({
            let c2 = closed.update(flat_index(g.cols(), cur), true);
            &&& links_ok(g, start, seen, c2, came_from, rank)
            &&& expanded_ok(g, c2, seen, Some(cur))
            &&& forall|p: Position| g.contains(p) && #[trigger] c2[flat_index(g.cols(), p)] ==> seen[flat_index(g.cols(), p)]
        }),
{
    reveal(expanded_ok);
    let gw = g.cols();
    let ci = flat_index(gw, cur);
    let c2 = closed.update(ci, true);
    assert forall|p: Position| g.contains(p) && #[trigger] c2[flat_index(gw, p)] implies seen[flat_index(gw, p)] by {
        if p != cur {
            assert(flat_index(gw, p) != ci);
            assert(closed[flat_index(gw, p)]);
        }
    }
    assert forall|p: Position, q: Position|
        #![trigger c2[flat_index(gw, p)], adjacent(p, q)]
        g.contains(p) && Some(cur) != Some(p) && c2[flat_index(gw, p)] && adjacent(p, q) && passable(g, q)
        implies seen[flat_index(gw, q)] by {
        assert(p != cur);
        assert(flat_index(gw, p) != ci);
        assert(closed[flat_index(gw, p)]);
        assert(None::<Position> != Some(p));
    }
    assert forall|p: Position| g.contains(p) && #[trigger] seen[flat_index(gw, p)] && p != start implies {
        let e = came_from[flat_index(gw, p)];
        &&& e is Some
        &&& g.contains(e->Some_0)
        &&& seen[flat_index(gw, e->Some_0)]
        &&& c2[flat_index(gw, e->Some_0)]
        &&& adjacent(e->Some_0, p)
        &&& passable(g, p)
        &&& rank[flat_index(gw, e->Some_0)] < rank[flat_index(gw, p)]
    } by {
        let e = came_from[flat_index(gw, p)];
        assert(closed[flat_index(gw, e->Some_0)]);
    }
}

/// The sizes and layout that a sound search state has.
pub(crate) proof fn lemma_frontier_shape(
    g: Grid<char>,
    start: Position,
    goal: Position,
    open: Seq<Position>,
    closed: Seq<bool>,
    seen: Seq<bool>,
    came_from: Seq<Option<Position>>,
    rank: Seq<int>,
    nc: nat,
)
    requires
        frontier_ok(g, start, goal, open, closed, seen, came_from, rank, nc),
    ensures
        g.wf(),
        layout_ok(g.cols(), g.rows()),
        closed.len() == g.cols() * g.rows(),
        seen.len() == closed.len(),
        came_from.len() == closed.len(),
        rank.len() == closed.len(),
{
    reveal(frontier_ok);
}

/// Discovering more cells keeps every expanded cell's neighbours discovered.
pub(crate) proof fn lemma_expanded_grows(g: Grid<char>, closed: Seq<bool>, seen: Seq<bool>, i: int, skip: Option<Position>)
    requires
        expanded_ok(g, closed, seen, skip),
        layout_ok(g.cols(), g.rows()),
        seen.len() == g.cols() * g.rows(),
        0 <= i < seen.len(),
    ensures
        expanded_ok(g, closed, seen.update(i, true), skip),
{
    reveal(expanded_ok);
    let s2 = seen.update(i, true);
    assert forall|p: Position, q: Position|
        #![trigger closed[flat_index(g.cols(), p)], adjacent(p, q)]
        g.contains(p) && skip != Some(p) && closed[flat_index(g.cols(), p)] && adjacent(p, q) && passable(g, q)
        implies s2[flat_index(g.cols(), q)] by {
        assert(seen[flat_index(g.cols(), q)]);
    }
}

/// Taking a member off the frontier and marking it expanded keeps the state
/// sound, unless it is the goal.
#[verifier::rlimit(40)]
pub(crate) proof fn lemma_search_pop(
    g: Grid<char>,
    start: Position,
    goal: Position,
    open: Seq<Position>,
    closed: Seq<bool>,
    seen: Seq<bool>,
    came_from: Seq<Option<Position>>,
    rank: Seq<int>,
    nc: nat,
    idx: int,
)
    requires
        frontier_ok(g, start, goal, open, closed, seen, came_from, rank, nc),
        expanded_ok(g, closed, seen, None),
        0 <= idx < open.len(),
    ensures
        ({
            let cur = open[idx];
            let ci = flat_index(g.cols(), cur);
            &&& g.contains(cur)
            &&& 0 <= ci < closed.len()
            &&& seen[ci]
            &&& !closed[ci]
            &&& 0 <= rank[ci] <= nc
            &&& nc < g.cols() * g.rows()
            &&& cur.x < usize::MAX
            &&& cur.y < usize::MAX
            &&& cur != goal ==> frontier_ok(
                g,
                start,
                goal,
                open.remove(idx),
                closed.update(ci, true),
                seen,
                came_from,
                rank,
                nc + 1,
            ) && expanded_ok(g, closed.update(ci, true), seen, Some(cur))
        }),
{
    reveal(frontier_ok);
    let gw = g.cols();
    let n = g.cols() * g.rows();
    let cur = open[idx];
    let ci = flat_index(gw, cur);
    let c2 = closed.update(ci, true);
    assert(closed_indices(c2) =~= closed_indices(closed).insert(ci));
    lemma_closed_count(closed);
    lemma_closed_count(c2);
    assert(closed_indices(closed) == Set::new(|m: int| 0 <= m < n && closed[m]));
    assert(closed_indices(c2) == Set::new(|m: int| 0 <= m < n && c2[m]));
    assert(!closed_indices(closed).contains(ci));
    if cur != goal {
        lemma_pop_frontier(g, open, closed, seen, idx);
        lemma_pop_links(g, start, closed, seen, came_from, rank, cur);
        assert(goal != cur);
        assert(!c2[flat_index(gw, goal)]);
    }
}

/// Adding the undiscovered cell `nb` to a duplicate-free frontier of undone
/// discovered cells, and marking it discovered, keeps the frontier exactly the
/// undone discovered cells.
#[verifier::rlimit(40)]
pub(crate) proof fn lemma_discover_frontier(
    g: Grid<char>,
    open: Seq<Position>,
    closed: Seq<bool>,
    seen: Seq<bool>,
    nb: Position,
)
    requires
        layout_ok(g.cols(), g.rows()),
        closed.len() == g.cols() * g.rows(),
        seen.len() == closed.len(),
        g.contains(nb),
        !seen[flat_index(g.cols(), nb)],
        forall|p: Position| g.contains(p) && #[trigger] closed[flat_index(g.cols(), p)] ==> seen[flat_index(g.cols(), p)],
        forall|k: int|
            0 <= k < open.len() ==> g.contains(#[trigger] open[k]) && seen[flat_index(g.cols(), open[k])]
                && !closed[flat_index(g.cols(), open[k])],
        forall|k1: int, k2: int| 0 <= k1 < k2 < open.len() ==> #[trigger] open[k1] != #[trigger] open[k2],
        forall|p: Position|
            g.contains(p) && #[trigger] seen[flat_index(g.cols(), p)] && !closed[flat_index(g.cols(), p)]
                ==> open.contains(p),
    ensures
        ({
            let gw = g.cols();
            let o2 = open.push(nb);
            let s2 = seen.update(flat_index(gw, nb), true);
            &&& forall|k: int|
                0 <= k < o2.len() ==> g.contains(#[trigger] o2[k]) && s2[flat_index(gw, o2[k])]
                    && !closed[flat_index(gw, o2[k])]
            &&& forall|k1: int, k2: int| 0 <= k1 < k2 < o2.len() ==> #[trigger] o2[k1] != #[trigger] o2[k2]
            &&& forall|p: Position|
                g.contains(p) && #[trigger] s2[flat_index(gw, p)] && !closed[flat_index(gw, p)] ==> o2.contains(p)
            &&& forall|p: Position| g.contains(p) && #[trigger] closed[flat_index(gw, p)] ==> s2[flat_index(gw, p)]
        }),
{
    let gw = g.cols();
    let ni = flat_index(gw, nb);
    let o2 = open.push(nb);
    let s2 = seen.update(ni, true);
    assert forall|p: Position|
        g.contains(p) && #[trigger] s2[flat_index(gw, p)] && !closed[flat_index(gw, p)] implies o2.contains(p) by {
        if p == nb {
            assert(o2[o2.len() - 1] == nb);
        } else {
            assert(flat_index(gw, p) != ni);
            assert(open.contains(p));
            let k = choose|k: int| 0 <= k < open.len() && open[k] == p;
            assert(o2[k] == p);
        }
    }
    assert forall|k: int| 0 <= k < o2.len() implies g.contains(#[trigger] o2[k]) && s2[flat_index(gw, o2[k])]
        && !closed[flat_index(gw, o2[k])] by {
        if k < open.len() {
            assert(o2[k] == open[k]);
        } else {
            assert(o2[k] == nb);
            assert(!closed[ni]);
        }
    }
    assert forall|k1: int, k2: int| 0 <= k1 < k2 < o2.len() implies #[trigger] o2[k1] != #[trigger] o2[k2] by {
        assert(o2[k1] == open[k1]);
        if k2 == open.len() {
            assert(seen[flat_index(gw, open[k1])]);
        } else {
            assert(o2[k2] == open[k2]);
        }
    }
}

/// Recording `cur` as the predecessor of the newly discovered cell `nb`, with
/// a rank above that of every discovered cell, keeps the links sound.
#[verifier::rlimit(40)]
pub(crate) proof fn lemma_discover_links(
    g: Grid<char>,
    start: Position,
    closed: Seq<bool>,
    seen: Seq<bool>,
    came_from: Seq<Option<Position>>,
    rank: Seq<int>,
    nc: nat,
    cur: Position,
    nb: Position,
)
    requires
        layout_ok(g.cols(), g.rows()),
        closed.len() == g.cols() * g.rows(),
        seen.len() == closed.len(),
        came_from.len() == closed.len(),
        rank.len() == closed.len(),
        links_ok(g, start, seen, closed, came_from, rank),
        table_closed(came_from, g.cols()),
        seen[flat_index(g.cols(), start)],
        g.contains(cur),
        seen[flat_index(g.cols(), cur)],
        closed[flat_index(g.cols(), cur)],
        rank[flat_index(g.cols(), cur)] < nc,
        adjacent(cur, nb),
        passable(g, nb),
        !seen[flat_index(g.cols(), nb)],
    ensures
        ({
            let ni = flat_index(g.cols(), nb);
            &&& links_ok(g, start, seen.update(ni, true), closed, came_from.update(ni, Some(cur)), rank.update(ni, nc as int))
            &&& table_closed(came_from.update(ni, Some(cur)), g.cols())
        }),
{
    let gw = g.cols();
    let ni = flat_index(gw, nb);
    let s2 = seen.update(ni, true);
    let f2 = came_from.update(ni, Some(cur));
    let r2 = rank.update(ni, nc as int);
    assert(nb != start);
    assert(nb != cur);
    assert forall|p: Position| g.contains(p) && #[trigger] s2[flat_index(gw, p)] && p != start implies {
        let e = f2[flat_index(gw, p)];
        &&& e is Some
        &&& g.contains(e->Some_0)
        &&& s2[flat_index(gw, e->Some_0)]
        &&& closed[flat_index(gw, e->Some_0)]
        &&& adjacent(e->Some_0, p)
        &&& passable(g, p)
        &&& r2[flat_index(gw, e->Some_0)] < r2[flat_index(gw, p)]
    } by {
        if p != nb {
            assert(flat_index(gw, p) != ni);
            let e = came_from[flat_index(gw, p)];
            assert(seen[flat_index(gw, e->Some_0)]);
            assert(e->Some_0 != nb);
        }
    }
    assert forall|i: int| 0 <= i < f2.len() && (#[trigger] f2[i]) is Some implies {
        let q = f2[i]->Some_0;
        q.x < gw && 0 <= flat_index(gw, q) < f2.len()
    } by {
        if i != ni {
            assert(came_from[i] is Some);
        }
    }
}

/// Discovering `nb` from the expanded cell `cur` keeps the state sound.
#[verifier::rlimit(40)]
pub(crate) proof fn lemma_search_discover(
    g: Grid<char>,
    start: Position,
    goal: Position,
    open: Seq<Position>,
    closed: Seq<bool>,
    seen: Seq<bool>,
    came_from: Seq<Option<Position>>,
    rank: Seq<int>,
    nc: nat,
    cur: Position,
    nb: Position,
)
    requires
        frontier_ok(g, start, goal, open, closed, seen, came_from, rank, nc),
        g.contains(cur),
        closed[flat_index(g.cols(), cur)],
        rank[flat_index(g.cols(), cur)] < nc,
        adjacent(cur, nb),
        passable(g, nb),
        !seen[flat_index(g.cols(), nb)],
    ensures
        ({
            let ni = flat_index(g.cols(), nb);
            &&& 0 <= ni < seen.len()
            &&& frontier_ok(
                g,
                start,
                goal,
                open.push(nb),
                closed,
                seen.update(ni, true),
                came_from.update(ni, Some(cur)),
                rank.update(ni, nc as int),
                nc,
            )
            &&& rank.update(ni, nc as int)[flat_index(g.cols(), cur)] < nc
        }),
{
    reveal(frontier_ok);
    let gw = g.cols();
    let ni = flat_index(gw, nb);
    lemma_discover_frontier(g, open, closed, seen, nb);
    lemma_discover_links(g, start, closed, seen, came_from, rank, nc, cur, nb);
    let s2 = seen.update(ni, true);
    let r2 = rank.update(ni, nc as int);
    assert(nb != cur);
    assert forall|p: Position| g.contains(p) && #[trigger] s2[flat_index(gw, p)] implies 0 <= r2[flat_index(gw, p)]
        <= nc by {
        if p != nb {
            assert(flat_index(gw, p) != ni);
        }
    }
}

/// Once every neighbour of `cur` that is passable has been discovered, every
/// expanded cell has had its passable neighbours discovered.
pub(crate) proof fn lemma_expansion_done(g: Grid<char>, closed: Seq<bool>, seen: Seq<bool>, cur: Position, nbrs: Seq<Position>)
    requires
        expanded_ok(g, closed, seen, Some(cur)),
        nbrs == neighbor_seq(cur),
        cur.x < usize::MAX,
        cur.y < usize::MAX,
        forall|m: int| 0 <= m < nbrs.len() && passable(g, #[trigger] nbrs[m]) ==> seen[flat_index(g.cols(), nbrs[m])],
    ensures
        expanded_ok(g, closed, seen, None),
{
    reveal(expanded_ok);
    assert forall|p: Position, q: Position|
        #![trigger closed[flat_index(g.cols(), p)], adjacent(p, q)]
        g.contains(p) && closed[flat_index(g.cols(), p)] && adjacent(p, q) && passable(g, q)
        implies seen[flat_index(g.cols(), q)] by {
        if p == cur {
            lemma_neighbor_seq_complete(cur, q);
            let m = choose|m: int| 0 <= m < nbrs.len() && nbrs[m] == q;
            assert(passable(g, nbrs[m]));
        } else {
            assert(Some(cur) != Some(p));
        }
    }
}

/// With the frontier empty and every expanded cell's passable neighbours
/// discovered, the goal cannot be reached.
pub(crate) proof fn lemma_search_exhausted(
    g: Grid<char>,
    start: Position,
    goal: Position,
    open: Seq<Position>,
    closed: Seq<bool>,
    seen: Seq<bool>,
    came_from: Seq<Option<Position>>,
    rank: Seq<int>,
    nc: nat,
)
    requires
        frontier_ok(g, start, goal, open, closed, seen, came_from, rank, nc),
        expanded_ok(g, closed, seen, None),
        open.len() == 0,
    ensures
        !reachable(g, start, goal),
{
    reveal(expanded_ok);
    reveal(frontier_ok);
    let gw = g.cols();
    let inside = |p: Position| g.contains(p) && closed[flat_index(gw, p)];
    if !closed[flat_index(gw, start)] {
        assert(open.contains(start));
    }
    assert forall|p: Position, q: Position|
        #![trigger inside(p), adjacent(p, q)]
        inside(p) && adjacent(p, q) && passable(g, q) implies inside(q) by {
        assert(closed[flat_index(gw, p)] && adjacent(p, q));
        assert(Some(p) != None::<Position>);
        if !closed[flat_index(gw, q)] {
            assert(open.contains(q));
        }
    }
    if reachable(g, start, goal) {
        let path = choose|path: Seq<Position>| is_route(g, start, goal, path);
        lemma_route_stays_in(g, start, goal, path, inside, 0);
    }
}

/// When the goal is taken off the frontier, walking back from it succeeds and
/// gives a route from `start`.
pub(crate) proof fn lemma_search_found(
    g: Grid<char>,
    start: Position,
    goal: Position,
    open: Seq<Position>,
    closed: Seq<bool>,
    seen: Seq<bool>,
    came_from: Seq<Option<Position>>,
    rank: Seq<int>,
    nc: nat,
    r: Result<Vec<Position>, SearchError>,
)
    requires
        frontier_ok(g, start, goal, open, closed, seen, came_from, rank, nc),
        seen[flat_index(g.cols(), goal)],
        walk_outcome(came_from, g.cols(), goal, r),
    ensures
        r matches Ok(path) && is_route(g, start, goal, path@),
        reachable(g, start, goal),
{
    reveal(frontier_ok);
    let gw = g.cols();
    let t = came_from;
    assert(rank[flat_index(gw, goal)] <= nc);
    match r {
        Ok(path) => {
            let m = path@.len();
            assert forall|k: int| 0 <= k < m - 1 implies adjacent(#[trigger] path@[k], path@[k + 1]) && passable(
                g,
                path@[k],
            ) by {
                lemma_walk_ranked(g, start, seen, closed, t, rank, goal, k as nat);
                assert(walk(t, gw, goal, k as nat) == Some(path@[k]));
                assert(walk(t, gw, goal, (k + 1) as nat) == Some(path@[k + 1]));
            }
            lemma_walk_ranked(g, start, seen, closed, t, rank, goal, (m - 1) as nat);
            assert(walk(t, gw, goal, (m - 1) as nat) == Some(path@[m - 1]));
            assert(walk(t, gw, goal, m as nat) is None);
        },
        Err(SearchError::SelfLoopInPredecessor) => {
            let k = choose|k: nat|
                k <= t.len() && {
                    let q = #[trigger] walk(t, gw, goal, k);
                    q is Some && pred_of(t, gw, q->Some_0) == q
                };
            lemma_walk_ranked(g, start, seen, closed, t, rank, goal, k);
        },
        Err(SearchError::PredecessorCycle) => {
            lemma_walk_ranked(g, start, seen, closed, t, rank, goal, (t.len() + 1) as nat);
        },
        Err(SearchError::NoPathFound) => {},
    }
    let path = r->Ok_0;
    assert(is_route(g, start, goal, path@));
}

} // verus!
