//! Sample grids for height fields, and the two aggregation steps: combining
//! four neighbouring grids into one of twice the extent, and halving a
//! grid's resolution.
//!
//! Samples are points, not pixels: a grid of n samples on a side spans n - 1
//! intervals, and neighbouring grids share their boundary row or column.
//! The sample type is a parameter, so the grid logic does not depend on how
//! elevations are represented.
use vstd::prelude::*;

verus! {

/// Errors building or combining grids.
#[derive(Debug, Clone, Copy, PartialEq, Eq, Structural)]
pub enum HeightError {
    /// The sample count does not match the dimensions.
    InvalidDimensions,
    /// All four quadrants were missing.
    EmptyCombine,
    /// Present quadrants differ in dimensions.
    DimensionMismatch,
}

/// A grid of `nx` by `ny` samples, stored with Y varying fastest.
#[derive(Debug, Clone, PartialEq)]
pub struct HeightGrid<T> {
    /// Samples along X
    nx: usize,
    /// Samples along Y
    ny: usize,
    /// The samples; (x, y) is at x * ny + y
    samples: Vec<T>,
}

/// Which quadrant supplies sample (x, y) of a combined grid whose quadrants
/// are `nx` by `ny`: 0 lower left, 1 lower right, 2 upper left, 3 upper
/// right, or -1 for fill. Where quadrants share a boundary the later one
/// in that order wins.
pub open spec fn combine_source(present: Seq<bool>, nx: int, ny: int, x: int, y: int) -> int {
    if x >= nx - 1 && y >= ny - 1 && present[3] {
        3
    } else if x < nx && y >= ny - 1 && present[2] {
        2
    } else if x >= nx - 1 && y < ny && present[1] {
        1
    } else if x < nx && y < ny && present[0] {
        0
    } else {
        -1
    }
}

/// X offset of quadrant q in the combined grid.
pub open spec fn quad_x0(q: int, nx: int) -> int {
    if q == 1 || q == 3 { nx - 1 } else { 0 }
}

/// Y offset of quadrant q in the combined grid.
pub open spec fn quad_y0(q: int, ny: int) -> int {
    if q >= 2 { ny - 1 } else { 0 }
}

/// Sample (x, y) of the grid combined from quadrants whose samples are
/// `s(q, x, y)`.
pub open spec fn combine_formula<T>(s: spec_fn(int, int, int) -> T, present: Seq<bool>, nx: int, ny: int, fill: T, x: int, y: int) -> T {
    let q = combine_source(present, nx, ny, x, y);
    if q < 0 { fill } else { s(q, x - quad_x0(q, nx), y - quad_y0(q, ny)) }
}

impl<T: Copy> HeightGrid<T> {
    /// Samples along X.
    pub closed spec fn size_x(&self) -> int {
        self.nx as int
    }

    /// Samples along Y.
    pub closed spec fn size_y(&self) -> int {
        self.ny as int
    }

    /// Sample (x, y).
    pub closed spec fn at(&self, x: int, y: int) -> T {
        self.samples@[x * self.ny + y]
    }

    /// Dimensions match the sample count.
    pub closed spec fn wf(&self) -> bool {
        &&& self.nx > 0
        &&& self.ny > 0
        &&& self.samples@.len() == self.nx * self.ny
    }

    /// A grid of any positive dimensions from its samples.
    pub(crate) fn from_parts(nx: usize, ny: usize, samples: Vec<T>) -> (r: HeightGrid<T>)
        requires
            nx > 0,
            ny > 0,
            samples@.len() == nx * ny,
        ensures
            r.wf(),
            r.size_x() == nx,
            r.size_y() == ny,
            forall|x: int, y: int| 0 <= x < nx && 0 <= y < ny ==> #[trigger] r.at(x, y) == samples@[x * ny + y],
    {
        HeightGrid { nx, ny, samples }
    }

    /// Samples along X.
    pub fn num_x(&self) -> (r: usize)
        ensures
            r == self.size_x(),
            self.wf() ==> r > 0,
    {
        self.nx
    }

    /// Samples along Y.
    pub fn num_y(&self) -> (r: usize)
        ensures
            r == self.size_y(),
            self.wf() ==> r > 0,
    {
        self.ny
    }

    /// A height field's grid from its samples, Y varying fastest. Both
    /// dimensions must be odd and at least 3, the extra row and column being
    /// the boundary shared with the neighbours, and there must be `nx * ny`
    /// samples.
    pub fn from_samples(nx: usize, ny: usize, samples: Vec<T>) -> (r: Result<HeightGrid<T>, HeightError>)
        ensures
            (nx >= 3 && nx % 2 == 1 && ny >= 3 && ny % 2 == 1 && samples@.len() == nx * ny) <==> r is Ok,
            r is Err ==> r == Err::<HeightGrid<T>, HeightError>(HeightError::InvalidDimensions),
            r matches Ok(g) ==> g.wf() && g.size_x() == nx && g.size_y() == ny
                && forall|x: int, y: int| 0 <= x < nx && 0 <= y < ny ==> #[trigger] g.at(x, y) == samples@[x * ny + y],
    {
        if nx < 3 || ny < 3 || nx % 2 == 0 || ny % 2 == 0 || samples.len() / nx != ny || samples.len() % nx != 0 {
            proof {
                if nx >= 3 && ny >= 3 && samples@.len() == nx * ny {
                    vstd::arithmetic::div_mod::lemma_div_multiples_vanish(ny as int, nx as int);
                    vstd::arithmetic::div_mod::lemma_mod_multiples_basic(ny as int, nx as int);
                    vstd::arithmetic::mul::lemma_mul_is_commutative(nx as int, ny as int);
                }
            }
            return Err(HeightError::InvalidDimensions);
        }
        proof {
            vstd::arithmetic::div_mod::lemma_fundamental_div_mod(samples@.len() as int, nx as int);
            vstd::arithmetic::mul::lemma_mul_is_commutative(nx as int, ny as int);
        }
        Ok(HeightGrid { nx, ny, samples })
    }

    /// Sample (x, y).
    pub fn get(&self, x: usize, y: usize) -> (r: T)
        requires
            self.wf(),
            x < self.size_x(),
            y < self.size_y(),
        ensures
            r == self.at(x as int, y as int),
    {
        let len = self.samples.len();
        proof { lemma_index_in_grid(x as int, y as int, self.nx as int, self.ny as int); }
        self.samples[x * self.ny + y]
    }

    /// Halve the resolution, keeping every other sample in each direction.
    /// All edge samples of an odd-sized grid are kept, so neighbouring
    /// halved grids still share their boundary.
    pub fn halve(&self) -> (r: HeightGrid<T>)
        requires
            self.wf(),
        ensures
            r.wf(),
            r.size_x() == (self.size_x() + 1) / 2,
            r.size_y() == (self.size_y() + 1) / 2,
            forall|x: int, y: int| 0 <= x < r.size_x() && 0 <= y < r.size_y() ==> #[trigger] r.at(x, y) == self.at(2 * x, 2 * y),
    {
        let hx = self.nx / 2 + self.nx % 2;
        let hy = self.ny / 2 + self.ny % 2;
        let mut out: Vec<T> = Vec::new();
        let mut x: usize = 0;
        while x < hx
            invariant
                self.wf(),
                hx == (self.nx + 1) / 2,
                hy == (self.ny + 1) / 2,
                0 <= x <= hx,
                out@.len() == x * hy,
                forall|i: int, j: int| 0 <= i < x && 0 <= j < hy ==> #[trigger] out@[i * hy + j] == self.at(2 * i, 2 * j),
            decreases hx - x,
        {
            let mut y: usize = 0;
            while y < hy
                invariant
                    self.wf(),
                    hx == (self.nx + 1) / 2,
                    hy == (self.ny + 1) / 2,
                    0 <= x < hx,
                    0 <= y <= hy,
                    out@.len() == x * hy + y,
                    forall|i: int, j: int| 0 <= i < x && 0 <= j < hy ==> #[trigger] out@[i * hy + j] == self.at(2 * i, 2 * j),
                    forall|j: int| 0 <= j < y ==> #[trigger] out@[x * hy + j] == self.at(2 * x, 2 * j),
                decreases hy - y,
            {
                let v = self.get(2 * x, 2 * y);
                proof {
                    lemma_index_in_grid(x as int, y as int, hx as int, hy as int);
                }
                out.push(v);
                proof {
                    assert forall|i: int, j: int| 0 <= i < x && 0 <= j < hy implies #[trigger] out@[i * hy + j] == self.at(2 * i, 2 * j) by {
                        lemma_index_in_grid(i, j, x as int, hy as int);
                    }
                }
                y += 1;
            }
            proof {
                assert forall|i: int, j: int| 0 <= i < x + 1 && 0 <= j < hy implies #[trigger] out@[i * hy + j] == self.at(2 * i, 2 * j) by {
                    if i == x as int {
                        assert(out@[x * hy + j] == self.at(2 * x, 2 * j));
                    }
                }
                assert((x + 1) * hy == x * hy + hy) by (nonlinear_arith);
            }
            x += 1;
        }
        let r = HeightGrid { nx: hx, ny: hy, samples: out };
        proof {
            assert forall|x: int, y: int| 0 <= x < r.size_x() && 0 <= y < r.size_y() implies #[trigger] r.at(x, y) == self.at(2 * x, 2 * y) by {
                assert(r.at(x, y) == out@[x * hy + y]);
            }
        }
        r
    }
}

/// Which of four optional quadrants are present.
pub open spec fn present_of<T>(h: Seq<Option<HeightGrid<T>>>) -> Seq<bool> {
    h.map_values(|o: Option<HeightGrid<T>>| o is Some)
}

/// Sample (x, y) of quadrant q.
pub open spec fn quad_sample<T: Copy>(h: Seq<Option<HeightGrid<T>>>) -> spec_fn(int, int, int) -> T {
    |q: int, x: int, y: int| h[q]->Some_0.at(x, y)
}

/// Every present quadrant is well formed with the given dimensions.
pub open spec fn quads_match<T: Copy>(h: Seq<Option<HeightGrid<T>>>, nx: int, ny: int) -> bool {
    forall|q: int| 0 <= q < 4 && (#[trigger] h[q]) is Some ==> h[q]->Some_0.wf() && h[q]->Some_0.size_x() == nx && h[q]->Some_0.size_y() == ny
}

impl<T: Copy> HeightGrid<T> {
    /// Combine four grids, in the order lower left, lower right, upper
    /// left, upper right, into one of (2 nx - 1) by (2 ny - 1) samples.
    /// Neighbouring quadrants overlap in one row or column: they share that
    /// boundary. Samples of missing quadrants are `fill`.
    pub fn combine(h: &[Option<HeightGrid<T>>; 4], fill: T) -> (r: Result<HeightGrid<T>, HeightError>)
        requires
            forall|q: int| 0 <= q < 4 && (#[trigger] h@[q]) is Some ==> h@[q]->Some_0.wf(),
            forall|q: int| 0 <= q < 4 && (#[trigger] h@[q]) is Some ==>
                (2 * h@[q]->Some_0.size_x() - 1) * (2 * h@[q]->Some_0.size_y() - 1) <= usize::MAX,
        ensures
            (forall|q: int| 0 <= q < 4 ==> (#[trigger] h@[q]) is None) <==> r == Err::<HeightGrid<T>, HeightError>(HeightError::EmptyCombine),
            r == Err::<HeightGrid<T>, HeightError>(HeightError::DimensionMismatch) <==> (exists|a: int, b: int| 0 <= a < 4 && 0 <= b < 4
                && (#[trigger] h@[a]) is Some && (#[trigger] h@[b]) is Some
                && (h@[a]->Some_0.size_x() != h@[b]->Some_0.size_x() || h@[a]->Some_0.size_y() != h@[b]->Some_0.size_y())),
            r != Err::<HeightGrid<T>, HeightError>(HeightError::InvalidDimensions),
            r matches Ok(g) ==> exists|nx: int, ny: int| {
                &&& quads_match(h@, nx, ny)
                &&& g.wf()
                &&& #[trigger] g.size_x() == 2 * nx - 1
                &&& #[trigger] g.size_y() == 2 * ny - 1
                &&& forall|x: int, y: int| 0 <= x < g.size_x() && 0 <= y < g.size_y() ==> #[trigger] g.at(x, y)
                    == combine_formula(quad_sample(h@), present_of(h@), nx, ny, fill, x, y)
            },
    {
        let mut first: usize = 4;
        let mut q: usize = 0;
        while q < 4
            invariant
                0 <= q <= 4,
                first <= 4,
                first == 4 ==> forall|p: int| 0 <= p < q ==> (#[trigger] h@[p]) is None,
                first < 4 ==> h@[first as int] is Some,
            decreases 4 - q,
        {
            if first == 4 && h[q].is_some() {
                first = q;
            }
            q += 1;
        }
        if first == 4 {
            return Err(HeightError::EmptyCombine);
        }
        let (nx, ny) = match &h[first] {
            Some(g) => (g.nx, g.ny),
            None => { return Err(HeightError::EmptyCombine); },
        };
        let mut q: usize = 0;
        while q < 4
            invariant
                0 <= q <= 4,
                first < 4,
                h@[first as int] is Some,
                h@[first as int]->Some_0.size_x() == nx,
                h@[first as int]->Some_0.size_y() == ny,
                forall|p: int| 0 <= p < q && (#[trigger] h@[p]) is Some ==> h@[p]->Some_0.size_x() == nx && h@[p]->Some_0.size_y() == ny,
            decreases 4 - q,
        {
            match &h[q] {
                Some(g) => {
                    if g.nx != nx || g.ny != ny {
                        return Err(HeightError::DimensionMismatch);
                    }
                },
                None => {},
            }
            q += 1;
        }
        proof {
            assert(quads_match(h@, nx as int, ny as int));
            assert(h@[first as int]->Some_0.wf());
            assert(nx >= 1 && ny >= 1);
            assert((2 * nx - 1) * (2 * ny - 1) <= usize::MAX);
            assert(2 * nx - 1 <= (2 * nx - 1) * (2 * ny - 1)) by (nonlinear_arith)
                requires nx >= 1, ny >= 1;
            assert(2 * ny - 1 <= (2 * nx - 1) * (2 * ny - 1)) by (nonlinear_arith)
                requires nx >= 1, ny >= 1;
        }
        let cx = nx + (nx - 1);
        let cy = ny + (ny - 1);
        let mut out: Vec<T> = Vec::new();
        let ghost s = quad_sample(h@);
        let ghost present = present_of(h@);
        let mut x: usize = 0;
        while x < cx
            invariant
                quads_match(h@, nx as int, ny as int),
                nx >= 1,
                ny >= 1,
                cx == 2 * nx - 1,
                cy == 2 * ny - 1,
                cx * cy <= usize::MAX,
                s == quad_sample(h@),
                present == present_of(h@),
                0 <= x <= cx,
                out@.len() == x * cy,
                forall|i: int, j: int| 0 <= i < x && 0 <= j < cy ==> #[trigger] out@[i * cy + j]
                    == combine_formula(s, present, nx as int, ny as int, fill, i, j),
            decreases cx - x,
        {
            let mut y: usize = 0;
            while y < cy
                invariant
                    quads_match(h@, nx as int, ny as int),
                    nx >= 1,
                    ny >= 1,
                    cx == 2 * nx - 1,
                    cy == 2 * ny - 1,
                    cx * cy <= usize::MAX,
                    s == quad_sample(h@),
                    present == present_of(h@),
                    0 <= x < cx,
                    0 <= y <= cy,
                    out@.len() == x * cy + y,
                    forall|i: int, j: int| 0 <= i < x && 0 <= j < cy ==> #[trigger] out@[i * cy + j]
                        == combine_formula(s, present, nx as int, ny as int, fill, i, j),
                    forall|j: int| 0 <= j < y ==> #[trigger] out@[x * cy + j]
                        == combine_formula(s, present, nx as int, ny as int, fill, x as int, j),
                decreases cy - y,
            {
                let v = Self::combined_sample(h, nx, ny, x, y, fill);
                proof {
                    lemma_index_in_grid(x as int, y as int, cx as int, cy as int);
                }
                out.push(v);
                proof {
                    assert forall|i: int, j: int| 0 <= i < x && 0 <= j < cy implies #[trigger] out@[i * cy + j]
                        == combine_formula(s, present, nx as int, ny as int, fill, i, j) by {
                        lemma_index_in_grid(i, j, x as int, cy as int);
                    }
                }
                y += 1;
            }
            proof {
                assert forall|i: int, j: int| 0 <= i < x + 1 && 0 <= j < cy implies #[trigger] out@[i * cy + j]
                    == combine_formula(s, present, nx as int, ny as int, fill, i, j) by {
                    if i == x as int {
                        assert(out@[x * cy + j] == combine_formula(s, present, nx as int, ny as int, fill, x as int, j));
                    }
                }
                assert((x + 1) * cy == x * cy + cy) by (nonlinear_arith);
            }
            x += 1;
        }
        let r = HeightGrid { nx: cx, ny: cy, samples: out };
        proof {
            assert forall|x: int, y: int| 0 <= x < r.size_x() && 0 <= y < r.size_y() implies #[trigger] r.at(x, y)
                == combine_formula(quad_sample(h@), present_of(h@), nx as int, ny as int, fill, x, y) by {
                assert(r.at(x, y) == out@[x * cy + y]);
            }
        }
        Ok(r)
    }

    /// Sample (x, y) of the combined grid.
    fn combined_sample(h: &[Option<HeightGrid<T>>; 4], nx: usize, ny: usize, x: usize, y: usize, fill: T) -> (r: T)
        requires
            quads_match(h@, nx as int, ny as int),
            nx >= 1,
            ny >= 1,
            x < 2 * nx - 1,
            y < 2 * ny - 1,
        ensures
            r == combine_formula(quad_sample(h@), present_of(h@), nx as int, ny as int, fill, x as int, y as int),
    {
        let right = x >= nx - 1;
        let left = x < nx;
        let top = y >= ny - 1;
        let bottom = y < ny;
        let q: usize = if right && top && h[3].is_some() {
            3
        } else if left && top && h[2].is_some() {
            2
        } else if right && bottom && h[1].is_some() {
            1
        } else if left && bottom && h[0].is_some() {
            0
        } else {
            4
        };
        proof {
            assert(present_of(h@)[0] == h@[0] is Some);
            assert(present_of(h@)[1] == h@[1] is Some);
            assert(present_of(h@)[2] == h@[2] is Some);
            assert(present_of(h@)[3] == h@[3] is Some);
        }
        if q == 4 {
            return fill;
        }
        let x0 = if q == 1 || q == 3 { nx - 1 } else { 0 };
        let y0 = if q >= 2 { ny - 1 } else { 0 };
        match &h[q] {
            Some(g) => g.get(x - x0, y - y0),
            None => fill,
        }
    }
}

/// Samples of the halved quadrants: halving keeps sample (2x, 2y) as (x, y).
pub open spec fn halved_quad_sample<T: Copy>(h: Seq<Option<HeightGrid<T>>>) -> spec_fn(int, int, int) -> T {
    |q: int, x: int, y: int| h[q]->Some_0.at(2 * x, 2 * y)
}

/// Halving four odd-sized quadrants and then combining them gives the same
/// samples as combining them and then halving the result: sample (x, y) of
/// the first is sample (2x, 2y) of the combined grid.
pub proof fn lemma_halve_combine_commute<T: Copy>(h: Seq<Option<HeightGrid<T>>>, nx: int, ny: int, fill: T, x: int, y: int)
    requires
        h.len() == 4,
        forall|q: int| 0 <= q < 4 ==> (#[trigger] h[q]) is Some,
        quads_match(h, nx, ny),
        nx >= 1 && nx % 2 == 1,
        ny >= 1 && ny % 2 == 1,
        0 <= x < nx,
        0 <= y < ny,
    ensures
        combine_formula(halved_quad_sample(h), present_of(h), (nx + 1) / 2, (ny + 1) / 2, fill, x, y)
            == combine_formula(quad_sample(h), present_of(h), nx, ny, fill, 2 * x, 2 * y),
{
    let p = present_of(h);
    assert(p[0] && p[1] && p[2] && p[3]);
    let hx = (nx + 1) / 2;
    let hy = (ny + 1) / 2;
    assert(x >= hx - 1 <==> 2 * x >= nx - 1);
    assert(x < hx <==> 2 * x < nx);
    assert(y >= hy - 1 <==> 2 * y >= ny - 1);
    assert(y < hy <==> 2 * y < ny);
    let q = combine_source(p, hx, hy, x, y);
    assert(q == combine_source(p, nx, ny, 2 * x, 2 * y));
    assert(2 * (x - quad_x0(q, hx)) == 2 * x - quad_x0(q, nx));
    assert(2 * (y - quad_y0(q, hy)) == 2 * y - quad_y0(q, ny));
}

/// Quadrants agree on the boundaries they share.
pub open spec fn edges_match<T: Copy>(h: Seq<Option<HeightGrid<T>>>, nx: int, ny: int) -> bool {
    let a = h[0]->Some_0;
    let b = h[1]->Some_0;
    let c = h[2]->Some_0;
    let d = h[3]->Some_0;
    &&& forall|y: int| 0 <= y < ny ==> #[trigger] a.at(nx - 1, y) == b.at(0, y) && c.at(nx - 1, y) == d.at(0, y)
    &&& forall|x: int| 0 <= x < nx ==> #[trigger] a.at(x, ny - 1) == c.at(x, 0) && b.at(x, ny - 1) == d.at(x, 0)
}

/// When the four quadrants agree on their shared boundaries, every sample
/// of the combined grid equals the sample of each quadrant that covers it:
/// the tiles stitch without seams.
pub proof fn lemma_combine_stitches<T: Copy>(h: Seq<Option<HeightGrid<T>>>, nx: int, ny: int, fill: T, q: int, x: int, y: int)
    requires
        h.len() == 4,
        forall|k: int| 0 <= k < 4 ==> (#[trigger] h[k]) is Some,
        quads_match(h, nx, ny),
        edges_match(h, nx, ny),
        nx >= 1,
        ny >= 1,
        0 <= q < 4,
        quad_x0(q, nx) <= x < quad_x0(q, nx) + nx,
        quad_y0(q, ny) <= y < quad_y0(q, ny) + ny,
    ensures
        combine_formula(quad_sample(h), present_of(h), nx, ny, fill, x, y) == h[q]->Some_0.at(x - quad_x0(q, nx), y - quad_y0(q, ny)),
{
    let p = present_of(h);
    assert(p[0] && p[1] && p[2] && p[3]);
    let a = h[0]->Some_0;
    let b = h[1]->Some_0;
    let c = h[2]->Some_0;
    let d = h[3]->Some_0;
    let yy = y - (ny - 1);
    let xx = x - (nx - 1);
    if x == nx - 1 && 0 <= y < ny {
        assert(a.at(nx - 1, y) == b.at(0, y));
    }
    if x == nx - 1 && 0 <= yy < ny {
        assert(a.at(nx - 1, yy) == b.at(0, yy));
    }
    if y == ny - 1 && 0 <= x < nx {
        assert(a.at(x, ny - 1) == c.at(x, 0));
    }
    if y == ny - 1 && 0 <= xx < nx {
        assert(a.at(xx, ny - 1) == c.at(xx, 0));
    }
    if x == nx - 1 && y == ny - 1 {
        assert(a.at(nx - 1, ny - 1) == b.at(0, ny - 1));
        assert(a.at(0, ny - 1) == c.at(0, 0));
        assert(b.at(0, ny - 1) == d.at(0, 0));
        assert(a.at(nx - 1, 0) == b.at(0, 0));
        assert(c.at(nx - 1, 0) == d.at(0, 0));
    }
}

/// x * ny + y indexes a grid of nx by ny samples.
proof fn lemma_index_in_grid(x: int, y: int, nx: int, ny: int)
    requires
        0 <= x < nx,
        0 <= y < ny,
    ensures
        0 <= x * ny + y < nx * ny,
        x * ny + ny <= nx * ny,
{
    assert(0 <= x * ny) by (nonlinear_arith)
        requires 0 <= x, 0 <= y < ny;
    assert(x * ny + ny <= nx * ny) by (nonlinear_arith)
        requires 0 <= x < nx, 0 <= y < ny;
}

} // verus!
