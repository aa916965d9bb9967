//! Dense grid of per-cell peak fire intensity, rebuilt from the live fires
//! every tick and read for viewport-scale fire queries and city damage.

use vstd::prelude::*;

verus! {

/// Intensity above which a cell counts as burning for city damage.
pub const BURNING_CELL_MIN: u8 = 50;

/// Peak intensity among the first `n` marks that fall in cell `idx`
/// (0 when none does).
pub open spec fn peak(marks: Seq<(usize, usize, u8)>, width: int, idx: int, n: int) -> u8
    decreases n,
{
    if n <= 0 {
        0
    } else {
        let m = marks[n - 1];
        let before = peak(marks, width, idx, n - 1);
        if m.1 * width + m.0 == idx && m.2 > before {
            m.2
        } else {
            before
        }
    }
}

/// Grid of `width` x `height` cells, row-major, each holding the peak
/// intensity of the fires in it.
pub struct FireGrid {
    cells: Vec<u8>,
    width: usize,
    height: usize,
}

impl View for FireGrid {
    type V = Seq<u8>;

    closed spec fn view(&self) -> Seq<u8> {
        self.cells@
    }
}

/// Index clamped into `0 .. n`.
pub open spec fn clamp_index(i: int, n: int) -> int {
    if i < 0 {
        0
    } else if i >= n {
        n - 1
    } else {
        i
    }
}

impl FireGrid {
    pub closed spec fn width(&self) -> nat {
        self.width as nat
    }

    pub closed spec fn height(&self) -> nat {
        self.height as nat
    }

    pub open spec fn wf(&self) -> bool {
        self@.len() == self.width() * self.height()
    }

    /// Peak intensity at cell `(x, y)`.
    pub open spec fn at(&self, x: int, y: int) -> u8 {
        self@[y * self.width() + x]
    }

    /// Cell `(x, y)`, clamped into the grid, holds a fire hotter than
    /// `BURNING_CELL_MIN`.
    pub open spec fn burning_at(&self, x: int, y: int) -> bool {
        self.at(clamp_index(x, self.width() as int), clamp_index(y, self.height() as int)) > BURNING_CELL_MIN
    }

    /// An empty grid of `width` x `height` cells.
    pub fn new(width: usize, height: usize) -> (r: Self)
        requires
            width * height <= usize::MAX,
        ensures
            r.wf(),
            r.width() == width,
            r.height() == height,
            forall|i: int| 0 <= i < r@.len() ==> #[trigger] r@[i] == 0,
    {
        FireGrid { cells: vec![0u8; width * height], width, height }
    }

    /// Cells per row.
    pub fn grid_width(&self) -> (r: usize)
        ensures
            r == self.width(),
    {
        self.width
    }

    /// Number of rows.
    pub fn grid_height(&self) -> (r: usize)
        ensures
            r == self.height(),
    {
        self.height
    }

    /// Reset every cell, then record each mark `(lon_idx, lat_idx,
    /// intensity)` in its cell, keeping the peak. Marks that fall past the
    /// end of the grid are ignored.
    pub fn rebuild(&mut self, marks: &Vec<(usize, usize, u8)>)
        requires
            old(self).wf(),
        ensures
            final(self).wf(),
            final(self).width() == old(self).width(),
            final(self).height() == old(self).height(),
            forall|i: int| 0 <= i < final(self)@.len() ==> #[trigger] final(self)@[i] == peak(
                marks@,
                old(self).width() as int,
                i,
                marks@.len() as int,
            ),
    {
        let n = self.cells.len();
        let mut i: usize = 0;
        while i < n
            invariant
                self.wf(),
                self.width == old(self).width,
                self.height == old(self).height,
                n == self.cells.len(),
                i <= n,
                forall|j: int| 0 <= j < i ==> #[trigger] self@[j] == 0,
            decreases n - i,
        {
            self.cells.set(i, 0);
            i = i + 1;
        }
        let mut k: usize = 0;
        while k < marks.len()
            invariant
                self.wf(),
                self.width == old(self).width,
                self.height == old(self).height,
                n == self.cells.len(),
                k <= marks.len(),
                forall|j: int| 0 <= j < n ==> #[trigger] self@[j] == peak(marks@, self.width as int, j, k as int),
            decreases marks.len() - k,
        {
            let (lon_idx, lat_idx, intensity) = marks[k];
            let w = self.width as u128;
            assert((lat_idx as u128) * w + lon_idx as u128 <= u128::MAX) by (nonlinear_arith)
                requires
                    lat_idx <= u64::MAX,
                    w <= u64::MAX,
                    lon_idx <= u64::MAX,
            ;
            let idx = (lat_idx as u128) * w + lon_idx as u128;
            if idx < n as u128 {
                let at = idx as usize;
                if intensity > self.cells[at] {
                    self.cells.set(at, intensity);
                }
            }
            k = k + 1;
        }
    }

    /// Burning cells (intensity above zero) in columns `min_x .. max_x` and
    /// rows `min_y .. max_y`, each bound clamped to the grid, in row-major
    /// order, as `(lon_idx, lat_idx, intensity)`.
    pub fn fires_in_region(&self, min_x: usize, min_y: usize, max_x: usize, max_y: usize) -> (r: Vec<
        (usize, usize, u8),
    >)
        requires
            self.wf(),
        ensures
            forall|i: int| 0 <= i < r.len() ==> {
                let c = #[trigger] r@[i];
                &&& min_x <= c.0 < max_x && c.0 < self.width()
                &&& min_y <= c.1 < max_y && c.1 < self.height()
                &&& c.2 == self.at(c.0 as int, c.1 as int)
                &&& c.2 > 0
            },
            forall|x: int, y: int|
                min_x <= x < max_x && x < self.width() && min_y <= y < max_y && y < self.height()
                    && #[trigger] self.at(x, y) > 0 ==> r@.contains((x as usize, y as usize, self.at(x, y))),
    {
        let hi_x = if max_x < self.width { max_x } else { self.width };
        let hi_y = if max_y < self.height { max_y } else { self.height };
        let mut out: Vec<(usize, usize, u8)> = Vec::new();
        let mut y = min_y;
        while y < hi_y
            invariant
                self.wf(),
                hi_x <= self.width,
                hi_x <= max_x,
                hi_y <= self.height,
                hi_y <= max_y,
                min_y <= y || hi_y <= y,
                forall|i: int| 0 <= i < out.len() ==> {
                    let c = #[trigger] out@[i];
                    &&& min_x <= c.0 < max_x && c.0 < self.width()
                    &&& min_y <= c.1 < max_y && c.1 < self.height()
                    &&& c.2 == self.at(c.0 as int, c.1 as int)
                    &&& c.2 > 0
                },
                forall|x: int, y2: int|
                    min_x <= x < hi_x && min_y <= y2 < y && y2 < hi_y && #[trigger] self.at(x, y2) > 0
                        ==> out@.contains((x as usize, y2 as usize, self.at(x, y2))),
            decreases hi_y - y,
        {
            let mut x = min_x;
            while x < hi_x
                invariant
                    self.wf(),
                    hi_x <= self.width,
                    hi_x <= max_x,
                    hi_y <= self.height,
                    hi_y <= max_y,
                    min_y <= y < hi_y,
                    min_x <= x || hi_x <= x,
                    forall|i: int| 0 <= i < out.len() ==> {
                        let c = #[trigger] out@[i];
                        &&& min_x <= c.0 < max_x && c.0 < self.width()
                        &&& min_y <= c.1 < max_y && c.1 < self.height()
                        &&& c.2 == self.at(c.0 as int, c.1 as int)
                        &&& c.2 > 0
                    },
                    forall|x2: int, y2: int|
                        min_x <= x2 < hi_x && min_y <= y2 <= y && y2 < hi_y && (y2 < y || x2 < x)
                            && #[trigger] self.at(x2, y2) > 0 ==> out@.contains((x2 as usize, y2 as usize, self.at(x2, y2))),
                decreases hi_x - x,
            {
                proof {
                    assert(y * self.width + x < self.width * self.height) by (nonlinear_arith)
                        requires
                            y < self.height,
                            x < self.width,
                    ;
                }
                let len = self.cells.len();
                let v = self.cells[y * self.width + x];
                if v > 0 {
                    let ghost before = out@;
                    out.push((x, y, v));
                    proof {
                        assert(out@[before.len() as int] == (x, y, v));
                        assert forall|x2: int, y2: int|
                            min_x <= x2 < hi_x && min_y <= y2 <= y && y2 < hi_y && (y2 < y || x2 < x + 1)
                                && #[trigger] self.at(x2, y2) > 0 implies out@.contains((x2 as usize, y2 as usize, self.at(x2, y2))) by {
                            if x2 == x && y2 == y {
                                assert(out@[before.len() as int] == (x2 as usize, y2 as usize, self.at(x2, y2)));
                            } else {
                                let j = choose|j: int| 0 <= j < before.len() && before[j] == (x2 as usize, y2 as usize, self.at(x2, y2));
                                assert(out@[j] == before[j]);
                            }
                        }
                    }
                }
                x = x + 1;
            }
            y = y + 1;
        }
        out
    }

    /// Number of burning cells among the 3 x 3 cells centred on `(cx, cy)`,
    /// each neighbour clamped into the grid (so a cell on the edge may be
    /// counted more than once).
    pub fn burning_neighbours(&self, cx: i64, cy: i64) -> (r: u32)
        requires
            self.wf(),
            self.width() > 0,
            self.height() > 0,
            i64::MIN < cx < i64::MAX,
            i64::MIN < cy < i64::MAX,
        ensures
            r == neighbour_count(self, cx as int, cy as int),
            r <= 9,
    {
        let mut count: u32 = 0;
        let mut dy: i64 = -1;
        while dy <= 1
            invariant
                self.wf(),
                self.width() > 0,
                self.height() > 0,
                i64::MIN < cx < i64::MAX,
                i64::MIN < cy < i64::MAX,
                -1 <= dy <= 2,
                count == rows_count(self, cx as int, cy as int, dy as int),
                count <= 3 * (dy + 1),
            decreases 2 - dy,
        {
            let mut dx: i64 = -1;
            let ghost row_start = count;
            while dx <= 1
                invariant
                    self.wf(),
                    self.width() > 0,
                    self.height() > 0,
                    i64::MIN < cx < i64::MAX,
                    i64::MIN < cy < i64::MAX,
                    -1 <= dy <= 1,
                    -1 <= dx <= 2,
                    row_start == rows_count(self, cx as int, cy as int, dy as int),
                    row_start <= 3 * (dy + 1),
                    count == row_start + row_count(self, cx as int, cy + dy, dx as int),
                    count <= row_start + dx + 1,
                decreases 2 - dx,
            {
                let nx = clamp_i64(cx + dx, self.width);
                let ny = clamp_i64(cy + dy, self.height);
                proof {
                    assert(ny * self.width + nx < self.width * self.height) by (nonlinear_arith)
                        requires
                            ny < self.height,
                            nx < self.width,
                    ;
                }
                let len = self.cells.len();
                if self.cells[ny * self.width + nx] > BURNING_CELL_MIN {
                    count = count + 1;
                }
                dx = dx + 1;
            }
            dy = dy + 1;
        }
        count
    }
}

/// Burning cells among `(cx - 1 .. cx + dx - 1, y)`, clamped.
pub open spec fn row_count(g: &FireGrid, cx: int, y: int, dx: int) -> nat
    decreases dx + 1,
{
    if dx <= -1 {
        0
    } else {
        row_count(g, cx, y, dx - 1) + (if g.burning_at(cx + dx - 1, y) { 1nat } else { 0nat })
    }
}

/// Burning cells among the full rows `cy - 1 .. cy + dy - 1`, clamped.
pub open spec fn rows_count(g: &FireGrid, cx: int, cy: int, dy: int) -> nat
    decreases dy + 1,
{
    if dy <= -1 {
        0
    } else {
        rows_count(g, cx, cy, dy - 1) + row_count(g, cx, cy + dy - 1, 2)
    }
}

/// Burning cells in the clamped 3 x 3 neighbourhood of `(cx, cy)`.
pub open spec fn neighbour_count(g: &FireGrid, cx: int, cy: int) -> nat {
    rows_count(g, cx, cy, 2)
}

fn clamp_i64(v: i64, n: usize) -> (r: usize)
    requires
        n > 0,
    ensures
        r == clamp_index(v as int, n as int),
        r < n,
{
    if v < 0 {
        0
    } else if v as u128 >= n as u128 {
        n - 1
    } else {
        v as usize
    }
}

} // verus!
