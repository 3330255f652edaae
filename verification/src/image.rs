//! A dense two-dimensional grid of cells, addressed by `(x, y)` coordinates.

use vstd::prelude::*;

verus! {

/// Does `p` lie on a grid of `w` columns and `h` rows?
pub open spec fn in_bounds(w: int, h: int, p: (usize, usize)) -> bool {
    p.0 < w && p.1 < h
}

/// Are two coordinates adjacent horizontally or vertically (4-neighborhood)?
pub open spec fn adjacent(p: (usize, usize), q: (usize, usize)) -> bool {
    ||| (p.0 == q.0 && (p.1 + 1 == q.1 || q.1 + 1 == p.1))
    ||| (p.1 == q.1 && (p.0 + 1 == q.0 || q.0 + 1 == p.0))
}

/// A cell's position in the row-major backing vector.
pub open spec fn cell_index(w: int, p: (usize, usize)) -> int {
    p.1 * w + p.0
}

/// Row-major indices of in-bounds cells are themselves in bounds.
pub proof fn lemma_cell_index_bounds(w: int, h: int, p: (usize, usize))
    requires
        in_bounds(w, h, p),
    ensures
        0 <= cell_index(w, p) < w * h,
{
    assert(p.1 * w + p.0 < w * h) by (nonlinear_arith)
        requires 0 <= p.0 < w && 0 <= p.1 < h;
}

/// Distinct in-bounds coordinates occupy distinct row-major indices.
pub proof fn lemma_cell_index_injective(w: int, h: int, p: (usize, usize), q: (usize, usize))
    requires
        in_bounds(w, h, p),
        in_bounds(w, h, q),
        cell_index(w, p) == cell_index(w, q),
    ensures
        p == q,
{
    assert(p.1 == q.1 && p.0 == q.0) by (nonlinear_arith)
        requires
            0 <= p.0 < w,
            0 <= q.0 < w,
            p.1 * w + p.0 == q.1 * w + q.0;
}

/// A dense grid, stored row-major: the cell at `(x, y)` is element
/// `y * width + x` of the backing vector.
pub struct Image<T> {
    width: usize,
    height: usize,
    cells: Vec<T>,
}

impl<T> View for Image<T> {
    type V = Seq<T>;

    closed spec fn view(&self) -> Seq<T> {
        self.cells@
    }
}

impl<T: Copy> Image<T> {
    /// The number of columns.
    pub closed spec fn spec_width(&self) -> usize {
        self.width
    }

    /// The number of rows.
    pub closed spec fn spec_height(&self) -> usize {
        self.height
    }

    /// The backing vector holds exactly one cell per coordinate.
    pub open spec fn wf(&self) -> bool {
        self@.len() == self.spec_width() * self.spec_height()
    }

    pub fn width(&self) -> (w: usize)
        ensures
            w == self.spec_width(),
    {
        self.width
    }

    pub fn height(&self) -> (h: usize)
        ensures
            h == self.spec_height(),
    {
        self.height
    }

    /// The number of cells.
    pub fn len(&self) -> (n: usize)
        ensures
            n == self@.len(),
    {
        self.cells.len()
    }

    /// Create a grid with every cell holding `fill`.
    pub fn new(fill: T, width: usize, height: usize) -> (img: Image<T>)
        requires
            width * height <= usize::MAX,
        ensures
            img.wf(),
            img.spec_width() == width,
            img.spec_height() == height,
            forall|i: int| 0 <= i < img@.len() ==> img@[i] == fill,
    {
        let n = width * height;
        let mut cells: Vec<T> = Vec::new();
        let mut i: usize = 0;
        while i < n
            invariant
                i <= n,
                cells@.len() == i,
                forall|j: int| 0 <= j < i ==> cells@[j] == fill,
            decreases n - i,
        {
            cells.push(fill);
            i = i + 1;
        }
        Image { width, height, cells }
    }

    /// Read the cell at `(x, y)`.
    pub fn get(&self, x: usize, y: usize) -> (v: T)
        requires
            self.wf(),
            x < self.spec_width(),
            y < self.spec_height(),
        ensures
            v == self@[cell_index(self.spec_width() as int, (x, y))],
    {
        proof {
            lemma_cell_index_bounds(self.spec_width() as int, self.spec_height() as int, (x, y));
        }
        let n = self.cells.len();
        assert(y * self.width + x < n);
        self.cells[y * self.width + x]
    }

    /// Overwrite the cell at `(x, y)`.
    pub fn set(&mut self, x: usize, y: usize, v: T)
        requires
            old(self).wf(),
            x < old(self).spec_width(),
            y < old(self).spec_height(),
        ensures
            final(self).wf(),
            final(self).spec_width() == old(self).spec_width(),
            final(self).spec_height() == old(self).spec_height(),
            final(self)@ == old(self)@.update(
                cell_index(old(self).spec_width() as int, (x, y)),
                v,
            ),
    {
        proof {
            lemma_cell_index_bounds(self.spec_width() as int, self.spec_height() as int, (x, y));
        }
        let n = self.cells.len();
        assert(y * self.width + x < n);
        let i = y * self.width + x;
        self.cells.set(i, v);
    }

    /// The in-bounds neighbors of `(x, y)` under the 4-neighborhood.
    pub fn neighbors(&self, x: usize, y: usize) -> (nbrs: Vec<(usize, usize)>)
        requires
            x < self.spec_width(),
            y < self.spec_height(),
        ensures
            forall|q: (usize, usize)| #[trigger] nbrs@.contains(q) <==> (in_bounds(
                self.spec_width() as int,
                self.spec_height() as int,
                q,
            ) && adjacent((x, y), q)),
            nbrs@.no_duplicates(),
    {
        let mut nbrs: Vec<(usize, usize)> = Vec::new();
        let ghost mut at_right: int = 0;
        let ghost mut at_left: int = 0;
        let ghost mut at_down: int = 0;
        let ghost mut at_up: int = 0;
        if x + 1 < self.width {
            proof {
                at_right = nbrs@.len() as int;
            }
            nbrs.push((x + 1, y));
        }
        if x > 0 {
            proof {
                at_left = nbrs@.len() as int;
            }
            nbrs.push((x - 1, y));
        }
        if y + 1 < self.height {
            proof {
                at_down = nbrs@.len() as int;
            }
            nbrs.push((x, y + 1));
        }
        if y > 0 {
            proof {
                at_up = nbrs@.len() as int;
            }
            nbrs.push((x, y - 1));
        }
        proof {
            let w = self.spec_width() as int;
            let h = self.spec_height() as int;
            assert forall|q: (usize, usize)| in_bounds(w, h, q) && adjacent(
                (x, y),
                q,
            ) implies nbrs@.contains(q) by {
                if q.1 == y && q.0 == x + 1 {
                    assert(nbrs@[at_right] == q);
                } else if q.1 == y && q.0 + 1 == x {
                    assert(nbrs@[at_left] == q);
                } else if q.0 == x && q.1 == y + 1 {
                    assert(nbrs@[at_down] == q);
                } else {
                    assert(q.0 == x && q.1 + 1 == y);
                    assert(nbrs@[at_up] == q);
                }
            }
        }
        nbrs
    }
}

} // verus!
