use crate::map::Point2D;
use crate::randomness::rand_below;
use vstd::prelude::*;

verus! {

/// A fixed-size 2D grid over the rectangle
/// `[x_min, x_min + width) x [y_min, y_min + height)`, holding one `T` per
/// cell in a flat buffer; the domain never changes after construction.
#[derive(Debug)]
pub struct FixedMap2D<T: Default + Clone> {
    map: Vec<T>,
    width: usize,
    height: usize,
    x_min: isize,
    y_min: isize,
}

/// Cells at distinct offsets of the rectangle get distinct linear indices.
pub proof fn lemma_affine_index_distinct(w: int, dx1: int, dy1: int, dx2: int, dy2: int)
    requires
        0 <= dx1 < w,
        0 <= dx2 < w,
        0 <= dy1,
        0 <= dy2,
        dx1 != dx2 || dy1 != dy2,
    ensures
        dx1 + w * dy1 != dx2 + w * dy2,
{
    assert(dx1 + w * dy1 != dx2 + w * dy2) by (nonlinear_arith)
        requires
            0 <= dx1 < w,
            0 <= dx2 < w,
            0 <= dy1,
            0 <= dy2,
            dx1 != dx2 || dy1 != dy2,
    ;
}

/// The linear index of an in-rectangle offset lies below `w * h`.
pub proof fn lemma_affine_index_in_range(w: int, h: int, dx: int, dy: int)
    requires
        0 <= dx < w,
        0 <= dy < h,
    ensures
        0 <= dx + w * dy < w * h,
{
    assert(0 <= dx + w * dy < w * h) by (nonlinear_arith)
        requires
            0 <= dx < w,
            0 <= dy < h,
    ;
}

impl<T: Default + Clone> FixedMap2D<T> {
    /// The cells of the grid, row by row starting at the minimal corner.
    pub closed spec fn cells(self) -> Seq<T> {
        self.map@
    }

    pub closed spec fn width_spec(self) -> int {
        self.width as int
    }

    pub closed spec fn height_spec(self) -> int {
        self.height as int
    }

    pub closed spec fn x_min_spec(self) -> int {
        self.x_min as int
    }

    pub closed spec fn y_min_spec(self) -> int {
        self.y_min as int
    }

    /// Well-formedness: the buffer covers the domain exactly and the domain
    /// fits the coordinate types.
    pub open spec fn wf(self) -> bool {
        &&& 0 <= self.width_spec()
        &&& 0 <= self.height_spec()
        &&& isize::MIN as int <= self.x_min_spec()
        &&& isize::MIN as int <= self.y_min_spec()
        &&& self.cells().len() == self.width_spec() * self.height_spec()
        &&& self.width_spec() * self.height_spec() <= usize::MAX as int
        &&& self.width_spec() <= isize::MAX as int
        &&& self.height_spec() <= isize::MAX as int
        &&& self.x_min_spec() + self.width_spec() <= isize::MAX as int
        &&& self.y_min_spec() + self.height_spec() <= isize::MAX as int
    }

    /// Whether `p` lies inside the grid's rectangle.
    pub open spec fn in_bounds_spec(self, p: Point2D) -> bool {
        &&& self.x_min_spec() <= (p.0 as int) < self.x_min_spec() + self.width_spec()
        &&& self.y_min_spec() <= (p.1 as int) < self.y_min_spec() + self.height_spec()
    }

    /// Linear index of the cell at `p`.
    pub open spec fn idx_spec(self, p: Point2D) -> int {
        (p.0 as int - self.x_min_spec()) + self.width_spec() * (p.1 as int - self.y_min_spec())
    }

    /// Two grids over the same rectangle.
    pub open spec fn same_dom(self, other: Self) -> bool {
        &&& self.width_spec() == other.width_spec()
        &&& self.height_spec() == other.height_spec()
        &&& self.x_min_spec() == other.x_min_spec()
        &&& self.y_min_spec() == other.y_min_spec()
    }

    /// The linear index of an in-bounds point addresses a cell.
    pub proof fn lemma_idx_in_range(self, p: Point2D)
        requires
            self.wf(),
            self.in_bounds_spec(p),
        ensures
            0 <= self.idx_spec(p) < self.cells().len(),
    {
        lemma_affine_index_in_range(
            self.width_spec(),
            self.height_spec(),
            p.0 as int - self.x_min_spec(),
            p.1 as int - self.y_min_spec(),
        );
    }

    /// Distinct in-bounds points address distinct cells.
    pub proof fn lemma_idx_injective(self, p: Point2D, q: Point2D)
        requires
            self.wf(),
            self.in_bounds_spec(p),
            self.in_bounds_spec(q),
            p != q,
        ensures
            self.idx_spec(p) != self.idx_spec(q),
    {
        lemma_affine_index_distinct(
            self.width_spec(),
            p.0 as int - self.x_min_spec(),
            p.1 as int - self.y_min_spec(),
            q.0 as int - self.x_min_spec(),
            q.1 as int - self.y_min_spec(),
        );
    }

    /// Allocate a grid over the given rectangle with every cell default-valued.
    pub fn new(x_min: isize, y_min: isize, width: usize, height: usize) -> (r: Self)
        requires
            width as int <= isize::MAX as int,
            height as int <= isize::MAX as int,
            x_min as int + width as int <= isize::MAX as int,
            y_min as int + height as int <= isize::MAX as int,
            width as int * height as int <= usize::MAX as int,
        ensures
            r.wf(),
            r.width_spec() == width as int,
            r.height_spec() == height as int,
            r.x_min_spec() == x_min as int,
            r.y_min_spec() == y_min as int,
            r.cells().len() == width as int * height as int,
            forall|i: int|
                0 <= i < r.cells().len() ==> call_ensures(T::default, (), #[trigger] r.cells()[i]),
    {
        let n: usize = width * height;
        let mut map: Vec<T> = Vec::new();
        while map.len() < n
            invariant
                map@.len() <= n,
                forall|i: int|
                    0 <= i < map@.len() ==> call_ensures(T::default, (), #[trigger] map@[i]),
            decreases n - map@.len(),
        {
            map.push(T::default());
        }
        Self { map, width, height, x_min, y_min }
    }

    /// Whether `p` lies inside the grid's rectangle.
    pub fn inbounds(&self, p: Point2D) -> (r: bool)
        requires
            self.wf(),
        ensures
            r == self.in_bounds_spec(p),
    {
        let (x, y) = p;
        x >= self.x_min && x < self.x_min + (self.width as isize) && y >= self.y_min && y
            < self.y_min + (self.height as isize)
    }

    /// Read the cell at `p`; `p` must be in bounds.
    pub fn get(&self, p: Point2D) -> (r: &T)
        requires
            self.wf(),
            self.in_bounds_spec(p),
        ensures
            *r == self.cells()[self.idx_spec(p)],
    {
        proof {
            self.lemma_idx_in_range(p);
        }
        let dx: usize = (p.0 - self.x_min) as usize;
        let dy: usize = (p.1 - self.y_min) as usize;
        &self.map[dx + self.width * dy]
    }

    /// Overwrite the cell at `p`; `p` must be in bounds.
    pub fn set(&mut self, p: Point2D, value: T)
        requires
            old(self).wf(),
            old(self).in_bounds_spec(p),
        ensures
            final(self).wf(),
            final(self).same_dom(*old(self)),
            final(self).cells() == old(self).cells().update(old(self).idx_spec(p), value),
    {
        proof {
            self.lemma_idx_in_range(p);
        }
        let dx: usize = (p.0 - self.x_min) as usize;
        let dy: usize = (p.1 - self.y_min) as usize;
        let i: usize = dx + self.width * dy;
        self.map.set(i, value);
    }

    /// Overwrite every cell with a copy of `fill`.
    pub fn fill(&mut self, fill: T)
        requires
            old(self).wf(),
        ensures
            final(self).wf(),
            final(self).same_dom(*old(self)),
            final(self).cells().len() == old(self).cells().len(),
            forall|i: int|
                0 <= i < final(self).cells().len() ==> cloned::<T>(
                    fill,
                    #[trigger] final(self).cells()[i],
                ),
    {
        let n: usize = self.map.len();
        let mut i: usize = 0;
        while i < n
            invariant
                i <= n,
                n == self.map@.len(),
                self.width == old(self).width,
                self.height == old(self).height,
                self.x_min == old(self).x_min,
                self.y_min == old(self).y_min,
                self.map@.len() == old(self).map@.len(),
                forall|j: int| 0 <= j < i ==> cloned::<T>(fill, #[trigger] self.map@[j]),
            decreases n - i,
        {
            self.map.set(i, fill.clone());
            i = i + 1;
        }
    }

    /// Width of the grid's rectangle.
    pub fn width(&self) -> (r: usize)
        ensures
            r as int == self.width_spec(),
    {
        self.width
    }

    /// Height of the grid's rectangle.
    pub fn height(&self) -> (r: usize)
        ensures
            r as int == self.height_spec(),
    {
        self.height
    }

    /// Sample a point of the rectangle, each coordinate drawn uniformly.
    pub fn sample_point(&self, rng: &mut rand::rngs::StdRng) -> (r: Point2D)
        requires
            self.wf(),
            self.width_spec() >= 1,
            self.height_spec() >= 1,
        ensures
            self.in_bounds_spec(r),
    {
        let dx = rand_below(rng, self.width);
        let dy = rand_below(rng, self.height);
        (self.x_min + (dx as isize), self.y_min + (dy as isize))
    }
}

impl<T: Default + Clone> Default for FixedMap2D<T> {
    /// The default grid: a 50 by 50 rectangle with its minimal corner at the
    /// origin, every cell default-valued.
    fn default() -> (r: Self)
        ensures
            r.wf(),
            r.width_spec() == 50,
            r.height_spec() == 50,
            r.x_min_spec() == 0,
            r.y_min_spec() == 0,
            r.cells().len() == 2500,
            forall|i: int|
                0 <= i < r.cells().len() ==> call_ensures(T::default, (), #[trigger] r.cells()[i]),
    {
        Self::new(0, 0, 50, 50)
    }
}

} // verus!
