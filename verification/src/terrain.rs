use vstd::prelude::*;
use crate::error::ConfigError;

verus! {

/// `v` moved to the nearest value in `lo ..= hi`.
pub open spec fn clamp(v: int, lo: int, hi: int) -> int {
    if v < lo {
        lo
    } else if v > hi {
        hi
    } else {
        v
    }
}

/// The smaller of two integers.
pub open spec fn least(a: int, b: int) -> int {
    if a <= b {
        a
    } else {
        b
    }
}

/// Neighbor of `i` one step down an axis, or `i` itself at the lower edge.
pub open spec fn before(i: int) -> int {
    if i > 0 {
        i - 1
    } else {
        i
    }
}

/// Neighbor of `i` one step up an axis of `n` cells, or `i` itself at the
/// upper edge.
pub open spec fn after(i: int, n: int) -> int {
    if i < n - 1 {
        i + 1
    } else {
        i
    }
}

/// A raw sample reduced to a step number: the sample divided by the width of
/// one step, where `steps` steps share the range `0 ..= 255`, and never more
/// than `steps`.
pub open spec fn quantized(sample: u8, steps: u8) -> int {
    least(sample as int / (255int / steps as int), steps as int)
}

/// Replaces every sample by its step number, which is at most `steps`.
pub fn quantize(samples: &mut Vec<u8>, steps: u8)
    requires
        steps > 0,
    ensures
        final(samples)@.len() == old(samples)@.len(),
        forall|i: int|
            0 <= i < old(samples)@.len() ==> #[trigger] final(samples)@[i] == quantized(
                old(samples)@[i],
                steps,
            ),
        forall|i: int| 0 <= i < old(samples)@.len() ==> #[trigger] final(samples)@[i] <= steps,
{
    let step_size: u8 = 255 / steps;
    assert(255int / steps as int >= 1) by (nonlinear_arith)
        requires
            0 < steps <= 255,
    ;
    let count = samples.len();
    let mut i: usize = 0;
    while i < count
        invariant
            steps > 0,
            step_size == 255int / steps as int,
            step_size > 0,
            count == samples@.len(),
            count == old(samples)@.len(),
            i <= count,
            forall|k: int| 0 <= k < i ==> #[trigger] samples@[k] == quantized(old(samples)@[k], steps),
            forall|k: int| i <= k < count ==> #[trigger] samples@[k] == old(samples)@[k],
        decreases count - i,
    {
        let mut step: u8 = samples[i] / step_size;
        if step > steps {
            step = steps;
        }
        samples.set(i, step);
        i += 1;
    }
}

/// Height differences across one cell, taken between its neighbors on
/// either side along each axis. At an edge of the grid the cell stands in for
/// the neighbor that is missing, so the run is shorter there.
#[derive(Clone, Copy, Debug, PartialEq, Eq, Structural)]
pub struct Slope {
    /// Height of the neighbor up x less that of the neighbor down x.
    pub rise_x: i16,
    /// Distance in cells between those two neighbors.
    pub run_x: u8,
    /// Height of the neighbor up z less that of the neighbor down z.
    pub rise_z: i16,
    /// Distance in cells between those two neighbors.
    pub run_z: u8,
}

/// Positions, in the row-by-row order, of a cell and of its neighbors up x,
/// up z and up both. At the upper edge of an axis the cell stands in for the
/// neighbor that is missing.
#[derive(Clone, Copy, Debug, PartialEq, Eq, Structural)]
pub struct Corners {
    /// The cell itself.
    pub c00: usize,
    /// Its neighbor up x.
    pub c10: usize,
    /// Its neighbor up z.
    pub c01: usize,
    /// Its neighbor up x and z.
    pub c11: usize,
}

/// A height grid of `width * height` cells, stored row by row.
pub struct Terrain {
    samples: Vec<u8>,
    width: usize,
    height: usize,
}

impl View for Terrain {
    type V = Seq<u8>;

    /// The height samples, row by row.
    closed spec fn view(&self) -> Seq<u8> {
        self.samples@
    }
}

impl Terrain {
    /// There is one sample for every cell.
    #[verifier::type_invariant]
    pub closed spec fn wf(&self) -> bool {
        self.samples@.len() == self.width * self.height
    }

    /// Number of cells along x.
    pub closed spec fn spec_width(&self) -> usize {
        self.width
    }

    /// Number of cells along z.
    pub closed spec fn spec_height(&self) -> usize {
        self.height
    }

    /// Position of cell `(col, row)` in the row-by-row order.
    pub open spec fn cell(&self, col: int, row: int) -> int {
        row * self.spec_width() + col
    }

    /// Height of cell `(col, row)`.
    pub open spec fn height_at(&self, col: int, row: int) -> int {
        self@[self.cell(col, row)] as int
    }

    /// A well-formed terrain has `width * height` samples, and every cell
    /// inside the grid has a position below that.
    pub proof fn lemma_cell_in_range(&self, col: int, row: int)
        requires
            self.wf(),
            0 <= col < self.spec_width(),
            0 <= row < self.spec_height(),
        ensures
            self@.len() == self.spec_width() * self.spec_height(),
            0 <= self.cell(col, row) < self@.len(),
    {
        let w = self.spec_width() as int;
        let h = self.spec_height() as int;
        assert(row * w + col < h * w) by (nonlinear_arith)
            requires
                0 <= col < w,
                0 <= row < h,
        ;
        assert(0 <= row * w) by (nonlinear_arith)
            requires
                0 <= row,
                0 <= w,
        ;
        assert(h * w == w * h) by (nonlinear_arith);
    }

    /// Builds the terrain from `width * height` samples; any other number of
    /// samples is refused.
    pub fn new(samples: Vec<u8>, width: usize, height: usize) -> (r: Result<Terrain, ConfigError>)
        ensures
            match r {
                Ok(t) => {
                    &&& samples@.len() == width * height
                    &&& t.wf()
                    &&& t@ == samples@
                    &&& t.spec_width() == width
                    &&& t.spec_height() == height
                },
                Err(e) => e == ConfigError::TerrainSize && samples@.len() != width * height,
            },
    {
        let count = samples.len();
        match width.checked_mul(height) {
            Some(cells) => {
                if cells == count {
                    Ok(Terrain { samples, width, height })
                } else {
                    Err(ConfigError::TerrainSize)
                }
            },
            None => Err(ConfigError::TerrainSize),
        }
    }

    /// Number of cells along x.
    #[verifier::when_used_as_spec(spec_width)]
    pub fn width(&self) -> (w: usize)
        ensures
            w == self.spec_width(),
    {
        self.width
    }

    /// Number of cells along z.
    #[verifier::when_used_as_spec(spec_height)]
    pub fn height(&self) -> (h: usize)
        ensures
            h == self.spec_height(),
    {
        self.height
    }

    /// The height samples, row by row.
    pub fn samples(&self) -> (s: &Vec<u8>)
        ensures
            s@ == self@,
    {
        &self.samples
    }

    /// Height difference across cell `(col, row)` along x.
    pub open spec fn rise_x(&self, col: int, row: int) -> int {
        self.height_at(after(col, self.spec_width() as int), row) - self.height_at(before(col), row)
    }

    /// Distance along x over which `rise_x` is taken.
    pub open spec fn run_x(&self, col: int) -> int {
        after(col, self.spec_width() as int) - before(col)
    }

    /// Height difference across cell `(col, row)` along z.
    pub open spec fn rise_z(&self, col: int, row: int) -> int {
        self.height_at(col, after(row, self.spec_height() as int)) - self.height_at(col, before(row))
    }

    /// Distance along z over which `rise_z` is taken.
    pub open spec fn run_z(&self, row: int) -> int {
        after(row, self.spec_height() as int) - before(row)
    }

    /// The run along an axis of `n` cells is 2 inside the grid and 1 at
    /// either edge; where the axis has a single cell there is no neighbor to
    /// either side and the run is 0.
    pub proof fn lemma_run(i: int, n: int)
        requires
            0 <= i < n,
        ensures
            after(i, n) - before(i) == if n == 1 {
                0int
            } else if i == 0 || i == n - 1 {
                1int
            } else {
                2int
            },
    {
    }

    /// `s` holds the height differences across cell `(col, row)`.
    pub open spec fn is_slope_of(&self, s: Slope, col: int, row: int) -> bool {
        &&& s.rise_x == self.rise_x(col, row)
        &&& s.run_x == self.run_x(col)
        &&& s.rise_z == self.rise_z(col, row)
        &&& s.run_z == self.run_z(row)
    }

    /// Position of cell `(col, row)` among the samples.
    pub fn index(&self, col: usize, row: usize) -> (i: usize)
        requires
            col < self.spec_width(),
            row < self.spec_height(),
        ensures
            i == self.cell(col as int, row as int),
            i < self@.len(),
    {
        proof {
            use_type_invariant(self);
            self.lemma_cell_in_range(col as int, row as int);
            assert(self.samples@.len() == self.samples.len());
            assert(0 <= row * self.width) by (nonlinear_arith);
        }
        row * self.width + col
    }

    /// Height of the cell that holds the point whose coordinates, rounded
    /// down to whole cells, are `(col, row)`; a point outside the grid takes
    /// the height of the nearest cell.
    pub fn sample_height(&self, col: i64, row: i64) -> (h: u8)
        requires
            self.spec_width() > 0,
            self.spec_height() > 0,
        ensures
            h == self.height_at(
                clamp(col as int, 0, self.spec_width() - 1),
                clamp(row as int, 0, self.spec_height() - 1),
            ),
    {
        let c = clamp_to_axis(col, self.width);
        let r = clamp_to_axis(row, self.height);
        let i = self.index(c, r);
        self.samples[i]
    }

    /// Height differences across cell `(col, row)`.
    pub fn slope(&self, col: usize, row: usize) -> (s: Slope)
        requires
            col < self.spec_width(),
            row < self.spec_height(),
        ensures
            self.is_slope_of(s, col as int, row as int),
    {
        let left = if col > 0 { col - 1 } else { col };
        let right = if col < self.width - 1 { col + 1 } else { col };
        let down = if row > 0 { row - 1 } else { row };
        let up = if row < self.height - 1 { row + 1 } else { row };
        let h_left = self.samples[self.index(left, row)];
        let h_right = self.samples[self.index(right, row)];
        let h_down = self.samples[self.index(col, down)];
        let h_up = self.samples[self.index(col, up)];
        Slope {
            rise_x: h_right as i16 - h_left as i16,
            run_x: (right - left) as u8,
            rise_z: h_up as i16 - h_down as i16,
            run_z: (up - down) as u8,
        }
    }

    /// Height differences across every cell, row by row.
    pub fn slopes(&self) -> (all: Vec<Slope>)
        ensures
            all@.len() == self@.len(),
            forall|col: int, row: int|
                0 <= col < self.spec_width() && 0 <= row < self.spec_height() ==> self.is_slope_of(
                    #[trigger] all@[self.cell(col, row)],
                    col,
                    row,
                ),
    {
        let mut all: Vec<Slope> = Vec::new();
        let mut row: usize = 0;
        proof {
            use_type_invariant(self);
            assert(0 * self.width == 0);
        }
        while row < self.height
            invariant
                self.wf(),
                row <= self.height,
                all@.len() == row * self.width,
                forall|c: int, r: int|
                    0 <= c < self.spec_width() && 0 <= r < row ==> self.is_slope_of(
                        #[trigger] all@[self.cell(c, r)],
                        c,
                        r,
                    ),
            decreases self.height - row,
        {
            let mut col: usize = 0;
            while col < self.width
                invariant
                    self.wf(),
                    row < self.height,
                    col <= self.width,
                    all@.len() == row * self.width + col,
                    forall|c: int, r: int|
                        0 <= c < self.spec_width() && 0 <= r < row ==> self.is_slope_of(
                            #[trigger] all@[self.cell(c, r)],
                            c,
                            r,
                        ),
                    forall|c: int|
                        0 <= c < col ==> self.is_slope_of(
                            #[trigger] all@[self.cell(c, row as int)],
                            c,
                            row as int,
                        ),
                decreases self.width - col,
            {
                let s = self.slope(col, row);
                proof {
                    assert forall|c: int, r: int|
                        0 <= c < self.spec_width() && 0 <= r < row implies self.cell(c, r)
                        < all@.len() by {
                        lemma_row_major_order(c, r, 0, row as int, self.width as int);
                    }
                }
                all.push(s);
                col += 1;
            }
            proof {
                assert((row + 1) * self.width == row * self.width + self.width) by (nonlinear_arith);
            }
            row += 1;
        }
        proof {
            assert(self.height * self.width == self.width * self.height) by (nonlinear_arith);
        }
        all
    }

    /// The cell `(col, row)` and its neighbors up x, up z and up both, as
    /// positions in the row-by-row order.
    pub fn corners(&self, col: usize, row: usize) -> (q: Corners)
        requires
            col < self.spec_width(),
            row < self.spec_height(),
        ensures
            q.c00 == self.cell(col as int, row as int),
            q.c10 == self.cell(after(col as int, self.spec_width() as int), row as int),
            q.c01 == self.cell(col as int, after(row as int, self.spec_height() as int)),
            q.c11 == self.cell(
                after(col as int, self.spec_width() as int),
                after(row as int, self.spec_height() as int),
            ),
            q.c00 < self@.len(),
            q.c10 < self@.len(),
            q.c01 < self@.len(),
            q.c11 < self@.len(),
    {
        let right = if col < self.width - 1 { col + 1 } else { col };
        let up = if row < self.height - 1 { row + 1 } else { row };
        Corners {
            c00: self.index(col, row),
            c10: self.index(right, row),
            c01: self.index(col, up),
            c11: self.index(right, up),
        }
    }
}

/// In the row-by-row order of a grid `w` cells wide, a cell of an earlier row
/// comes before every cell of a later one.
proof fn lemma_row_major_order(c1: int, r1: int, c2: int, r2: int, w: int)
    requires
        0 <= c1 < w,
        0 <= c2,
        0 <= r1 < r2,
    ensures
        r1 * w + c1 < r2 * w + c2,
{
    assert(r1 * w + w <= r2 * w) by (nonlinear_arith)
        requires
            r1 + 1 <= r2,
            0 <= w,
    ;
}

/// A whole coordinate moved into `0 .. n`.
fn clamp_to_axis(v: i64, n: usize) -> (i: usize)
    requires
        n > 0,
    ensures
        i == clamp(v as int, 0, n - 1),
{
    if v < 0 {
        0
    } else if v as u64 >= n as u64 {
        n - 1
    } else {
        v as usize
    }
}

} // verus!
