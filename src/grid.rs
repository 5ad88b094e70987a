use vstd::prelude::*;

use crate::coord::Position;

use rand::Rng;

verus! {

/// Place of the cell at `p` in the row-by-row order of a grid `w` cells wide.
pub open spec fn flat_index(w: nat, p: Position) -> int {
    p.y * w + p.x
}

/// The flat index of an in-bounds position lies within the cells.
pub proof fn lemma_flat_index_bounds(w: nat, h: nat, p: Position)
    requires
        p.x < w,
        p.y < h,
    ensures
        0 <= flat_index(w, p) < w * h,
{
    assert(p.y * w + p.x < w * h) by (nonlinear_arith)
        requires p.x < w, p.y < h, p.y >= 0;
    assert(p.y * w >= 0) by (nonlinear_arith)
        requires p.y >= 0, w >= 0;
}

/// Two in-bounds positions with the same flat index are the same position.
pub proof fn lemma_flat_index_injective(w: nat, p: Position, q: Position)
    requires
        p.x < w,
        q.x < w,
        flat_index(w, p) == flat_index(w, q),
    ensures
        p == q,
{
    if p.y < q.y {
        assert(p.y * w + p.x < q.y * w + q.x) by (nonlinear_arith)
            requires p.y < q.y, p.x < w, q.x >= 0;
    } else if q.y < p.y {
        assert(q.y * w + q.x < p.y * w + p.x) by (nonlinear_arith)
            requires q.y < p.y, q.x < w, p.x >= 0;
    }
}

/// A fixed-size two-dimensional grid of cells, stored row by row.
pub struct Grid<T> {
    tiles: Vec<T>,
    width: usize,
    height: usize,
}

/// Relies on rand::Rng::gen_range on the thread-local generator: a value drawn
/// from `0..n`, which is not empty.
#[verifier::external_body]
pub(crate) fn random_below(n: usize) -> (r: usize)
    requires
        n > 0,
    ensures
        r < n,
{
    rand::thread_rng().gen_range(0..n)
}

impl<T> Grid<T> {
    /// The cells, row by row.
    pub closed spec fn cells(&self) -> Seq<T> {
        self.tiles@
    }

    /// Number of columns.
    pub closed spec fn cols(&self) -> nat {
        self.width as nat
    }

    /// Number of rows.
    pub closed spec fn rows(&self) -> nat {
        self.height as nat
    }

    /// The cells fill the grid exactly.
    pub open spec fn wf(&self) -> bool {
        &&& self.cells().len() == self.cols() * self.rows()
        &&& self.cols() * self.rows() <= usize::MAX
        &&& self.cols() <= usize::MAX
        &&& self.rows() <= usize::MAX
    }

    /// `p` lies inside the grid.
    pub open spec fn contains(&self, p: Position) -> bool {
        p.x < self.cols() && p.y < self.rows()
    }

    /// The cell at an in-bounds position.
    pub open spec fn cell(&self, p: Position) -> T {
        self.cells()[flat_index(self.cols(), p)]
    }

    /// A grid `width` cells wide and `height` high, holding `tiles` row by row.
    pub fn new(tiles: Vec<T>, width: usize, height: usize) -> (r: Grid<T>)
        requires
            tiles@.len() == width * height,
        ensures
            r.wf(),
            r.cells() == tiles@,
            r.cols() == width,
            r.rows() == height,
    {
        let n = tiles.len();
        assert(n == width * height);
        Grid { tiles, width, height }
    }

    /// Number of columns.
    pub fn width(&self) -> (r: usize)
        ensures
            r == self.cols(),
    {
        self.width
    }

    /// Number of rows.
    pub fn height(&self) -> (r: usize)
        ensures
            r == self.rows(),
    {
        self.height
    }

    /// Whether `p` lies inside the grid.
    pub fn in_bounds(&self, p: Position) -> (r: bool)
        ensures
            r == self.contains(p),
    {
        p.x < self.width && p.y < self.height
    }

    /// The cell at `p`, or `None` where `p` lies outside the grid.
    pub fn get(&self, p: Position) -> (r: Option<&T>)
        requires
            self.wf(),
        ensures
            r.is_some() == self.contains(p),
            self.contains(p) ==> *r.unwrap() == self.cell(p),
    {
        if self.in_bounds(p) {
            proof {
                lemma_flat_index_bounds(self.cols(), self.rows(), p);
            }
            Some(&self.tiles[p.y * self.width + p.x])
        } else {
            None
        }
    }

    /// Replaces the cell at the in-bounds position `p` by `v`.
    pub fn set(&mut self, p: Position, v: T)
        requires
            old(self).wf(),
            old(self).contains(p),
        ensures
            final(self).wf(),
            final(self).cols() == old(self).cols(),
            final(self).rows() == old(self).rows(),
            final(self).cells() == old(self).cells().update(flat_index(old(self).cols(), p), v),
    {
        proof {
            lemma_flat_index_bounds(self.cols(), self.rows(), p);
        }
        let i = p.y * self.width + p.x;
        self.tiles.set(i, v);
    }

    /// A cell picked at random.
    pub fn random_cell(&self) -> (r: &T)
        requires
            self.cells().len() > 0,
        ensures
            exists|i: int| 0 <= i < self.cells().len() && *r == self.cells()[i],
    {
        let i = random_below(self.tiles.len());
        &self.tiles[i]
    }
}

impl Grid<char> {
    /// The cells of row `y`, from left to right.
    pub fn row(&self, y: usize) -> (r: Vec<char>)
        requires
            self.wf(),
            y < self.rows(),
        ensures
            r@ == self.cells().subrange(y * self.cols(), y * self.cols() + self.cols()),
    {
        let mut r: Vec<char> = Vec::new();
        let mut x: usize = 0;
        proof {
            assert(y * self.cols() + self.cols() <= self.cols() * self.rows()) by (nonlinear_arith)
                requires y < self.rows();
            assert(y * self.cols() >= 0) by (nonlinear_arith);
        }
        while x < self.width
            invariant
                self.wf(),
                y < self.rows(),
                x <= self.cols(),
                y * self.cols() + self.cols() <= self.cells().len(),
                y * self.cols() >= 0,
                r@ == self.cells().subrange(y * self.cols(), y * self.cols() + x),
            decreases self.cols() - x,
        {
            let base = y * self.width;
            r.push(self.tiles[base + x]);
            x = x + 1;
            assert(r@ =~= self.cells().subrange(y * self.cols(), y * self.cols() + x));
        }
        r
    }
}

} // verus!
