use vstd::prelude::*;

verus! {

/// A point of the grid, addressed by column `x` and row `y`.
#[derive(Clone, Copy, Debug, PartialEq, Eq, Hash, Structural)]
pub struct Position {
    pub x: usize,
    pub y: usize,
}

/// Absolute difference of two axis values.
pub open spec fn axis_gap(a: usize, b: usize) -> nat {
    if a >= b {
        (a - b) as nat
    } else {
        (b - a) as nat
    }
}

/// Squared straight-line distance between two positions.
pub open spec fn sq_dist(a: Position, b: Position) -> nat {
    axis_gap(a.x, b.x) * axis_gap(a.x, b.x) + axis_gap(a.y, b.y) * axis_gap(a.y, b.y)
}

/// `r` is the square root of `n` truncated toward zero.
pub open spec fn is_floor_sqrt(n: nat, r: nat) -> bool {
    r * r <= n && n < (r + 1) * (r + 1)
}

/// The truncated straight-line distance between two positions.
pub open spec fn dist(a: Position, b: Position) -> nat {
    choose|r: nat| is_floor_sqrt(sq_dist(a, b), r)
}

/// `a` and `b` differ by one step along exactly one axis.
pub open spec fn adjacent(a: Position, b: Position) -> bool {
    axis_gap(a.x, b.x) + axis_gap(a.y, b.y) == 1
}

/// The axis-aligned neighbours of `c`, in the order +x, -x, +y, -y, leaving out
/// those that would need a negative axis value.
pub open spec fn neighbor_seq(c: Position) -> Seq<Position> {
    seq![Position { x: (c.x + 1) as usize, y: c.y }]
        + (if c.x > 0 { seq![Position { x: (c.x - 1) as usize, y: c.y }] } else { seq![] })
        + seq![Position { x: c.x, y: (c.y + 1) as usize }]
        + (if c.y > 0 { seq![Position { x: c.x, y: (c.y - 1) as usize }] } else { seq![] })
}

/// There is at most one truncated square root of a number.
pub proof fn lemma_floor_sqrt_unique(n: nat, r1: nat, r2: nat)
    requires
        is_floor_sqrt(n, r1),
        is_floor_sqrt(n, r2),
    ensures
        r1 == r2,
{
    if r1 < r2 {
        assert((r1 + 1) * (r1 + 1) <= r2 * r2) by (nonlinear_arith)
            requires r1 + 1 <= r2;
    } else if r2 < r1 {
        assert((r2 + 1) * (r2 + 1) <= r1 * r1) by (nonlinear_arith)
            requires r2 + 1 <= r1;
    }
}

/// A witness of the truncated square root is the one that `dist` names.
pub proof fn lemma_dist_is(a: Position, b: Position, r: nat)
    requires
        is_floor_sqrt(sq_dist(a, b), r),
    ensures
        dist(a, b) == r,
{
    lemma_floor_sqrt_unique(sq_dist(a, b), dist(a, b), r);
}

/// Distance is symmetric, and a position is at distance zero from itself.
pub proof fn lemma_distance_symmetric(a: Position, b: Position)
    ensures
        dist(a, b) == dist(b, a),
        dist(a, a) == 0,
{
    assert(sq_dist(a, b) == sq_dist(b, a));
    assert(axis_gap(a.x, a.x) == 0 && axis_gap(a.y, a.y) == 0);
    assert(sq_dist(a, a) == 0);
    assert(is_floor_sqrt(0, 0)) by (nonlinear_arith);
    lemma_dist_is(a, a, 0);
}

/// A position has one neighbour on each side of each axis, less one on each
/// axis where its value is 0: two at the origin, four away from both edges.
pub proof fn lemma_neighbor_count(c: Position)
    requires
        c.x < usize::MAX,
        c.y < usize::MAX,
    ensures
        neighbor_seq(c).len() == 2 + (if c.x > 0 { 1int } else { 0int }) + (if c.y > 0 { 1int } else { 0int }),
        forall|i: int|
            0 <= i < neighbor_seq(c).len() ==> adjacent(c, #[trigger] neighbor_seq(c)[i]),
{
    let s = neighbor_seq(c);
    assert forall|i: int| 0 <= i < s.len() implies adjacent(c, #[trigger] s[i]) by {
        lemma_neighbor_adjacent(c, i);
    }
}

proof fn lemma_neighbor_adjacent(c: Position, i: int)
    requires
        c.x < usize::MAX,
        c.y < usize::MAX,
        0 <= i < neighbor_seq(c).len(),
    ensures
        adjacent(c, neighbor_seq(c)[i]),
{
}

/// Every position adjacent to `c` is among the neighbours of `c`, and each
/// neighbour is adjacent to `c`.
pub proof fn lemma_neighbor_seq_complete(c: Position, q: Position)
    requires
        c.x < usize::MAX,
        c.y < usize::MAX,
    ensures
        adjacent(c, q) <==> neighbor_seq(c).contains(q),
{
    let s = neighbor_seq(c);
    let r = Position { x: (c.x + 1) as usize, y: c.y };
    let u = Position { x: c.x, y: (c.y + 1) as usize };
    if adjacent(c, q) {
        if q.x > c.x {
            assert(s[0] == q);
        } else if q.x < c.x {
            assert(s[1] == q);
        } else if q.y > c.y {
            if c.x > 0 {
                assert(s[2] == q);
            } else {
                assert(s[1] == q);
            }
        } else {
            assert(s[s.len() - 1] == q);
        }
    }
    if s.contains(q) {
        let i = choose|i: int| 0 <= i < s.len() && s[i] == q;
        assert(adjacent(c, s[i]));
    }
}

/// Truncated square root of `n`, found by counting up.
fn floor_sqrt(n: usize) -> (r: usize)
    ensures
        is_floor_sqrt(n as nat, r as nat),
{
    let mut r: u128 = 0;
    loop
        invariant
            r * r <= n,
            r <= 0x1_0000_0000,
        ensures
            is_floor_sqrt(n as nat, r as nat),
        decreases 0x1_0000_0001 - r,
    {
        let next: u128 = r + 1;
        assert(next * next <= 0x1_0000_0001 * 0x1_0000_0001) by (nonlinear_arith)
            requires next <= 0x1_0000_0001;
        if next * next > n as u128 {
            break;
        }
        assert(next <= 0x1_0000_0000) by (nonlinear_arith)
            requires next * next <= n, n <= usize::MAX, usize::MAX <= u64::MAX;
        r = next;
    }
    assert(r <= n) by (nonlinear_arith)
        requires r * r <= n;
    r as usize
}

impl Position {
    /// A position from its column and row.
    pub fn new(x: usize, y: usize) -> (r: Position)
        ensures
            r.x == x,
            r.y == y,
    {
        Position { x, y }
    }

    /// Straight-line distance to `other`, truncated toward zero.
    pub fn distance(&self, other: &Position) -> (r: usize)
        requires
            sq_dist(*self, *other) <= usize::MAX,
        ensures
            r == dist(*self, *other),
            is_floor_sqrt(sq_dist(*self, *other), r as nat),
    {
        let larger_x = if self.x >= other.x { self.x } else { other.x };
        let larger_y = if self.y >= other.y { self.y } else { other.y };
        let smaller_x = if self.x >= other.x { other.x } else { self.x };
        let smaller_y = if self.y >= other.y { other.y } else { self.y };
        let x_diff = larger_x - smaller_x;
        let y_diff = larger_y - smaller_y;
        assert(x_diff * x_diff + y_diff * y_diff == sq_dist(*self, *other));
        let r = floor_sqrt(x_diff * x_diff + y_diff * y_diff);
        proof {
            lemma_dist_is(*self, *other, r as nat);
        }
        r
    }

    /// The axis-aligned neighbours, in the order +x, -x, +y, -y; no neighbour is
    /// given on an axis whose value is already 0.
    pub fn neighbors(&self) -> (r: Vec<Position>)
        requires
            self.x < usize::MAX,
            self.y < usize::MAX,
        ensures
            r@ == neighbor_seq(*self),
            forall|i: int| 0 <= i < r@.len() ==> adjacent(*self, #[trigger] r@[i]),
    {
        let mut neighbors: Vec<Position> = Vec::new();
        neighbors.push(Position::new(self.x + 1, self.y));
        if self.x > 0 {
            neighbors.push(Position::new(self.x - 1, self.y));
        }
        neighbors.push(Position::new(self.x, self.y + 1));
        if self.y > 0 {
            neighbors.push(Position::new(self.x, self.y - 1));
        }
        assert(neighbors@ =~= neighbor_seq(*self));
        neighbors
    }
}

} // verus!
