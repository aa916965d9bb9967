//! Spatial indexes over grid cells: a dense grid of line and polygon
//! features indexed by bounding box, and a hashed grid of point items.
//! Cell coordinates are whole cells of a fixed size in degrees; cell
//! `(0, 0)` starts at longitude 0 and latitude 0.

use vstd::prelude::*;
use std::collections::HashMap;

verus! {

broadcast use vstd::std_specs::hash::group_hash_axioms;

/// A bounding box in cell coordinates, both ends inclusive.
#[derive(Clone, Copy)]
pub struct CellBox {
    pub min_x: i32,
    pub min_y: i32,
    pub max_x: i32,
    pub max_y: i32,
}

/// Cell `(x, y)` lies in box `b`.
pub open spec fn covers(b: CellBox, x: int, y: int) -> bool {
    b.min_x <= x <= b.max_x && b.min_y <= y <= b.max_y
}

/// Indices `f < n`, in increasing order, of the boxes that cover cell `(x, y)`.
pub open spec fn covering(boxes: Seq<CellBox>, x: int, y: int, n: int) -> Seq<usize>
    decreases n,
{
    if n <= 0 {
        Seq::empty()
    } else if covers(boxes[n - 1], x, y) {
        covering(boxes, x, y, n - 1).push((n - 1) as usize)
    } else {
        covering(boxes, x, y, n - 1)
    }
}

proof fn lemma_covering_contains(boxes: Seq<CellBox>, x: int, y: int, n: int, f: usize)
    requires
        0 <= n <= usize::MAX + 1,
    ensures
        covering(boxes, x, y, n).contains(f) <==> f < n && covers(boxes[f as int], x, y),
    decreases n,
{
    if n > 0 {
        lemma_covering_contains(boxes, x, y, n - 1, f);
        if covers(boxes[n - 1], x, y) {
            let s = covering(boxes, x, y, n - 1);
            let t = s.push((n - 1) as usize);
            assert(t.contains(f) == (s.contains(f) || f == (n - 1) as usize)) by {
                if t.contains(f) {
                    let i = choose|i: int| 0 <= i < t.len() && #[trigger] t[i] == f;
                    if i < s.len() {
                        assert(s[i] == f);
                    }
                }
                if s.contains(f) {
                    let i = choose|i: int| 0 <= i < s.len() && #[trigger] s[i] == f;
                    assert(t[i] == f);
                }
                if f == (n - 1) as usize {
                    assert(t[s.len() as int] == f);
                }
            }
        }
    }
}

/// Cell `(x, y)` of box `b` comes before cell `(cx, cy)` in row-major order.
pub open spec fn marked_before(b: CellBox, x: int, y: int, cx: int, cy: int) -> bool {
    covers(b, x, y) && (y < cy || (y == cy && x < cx))
}

/// Dense, fixed-size grid of feature indices covering the whole globe:
/// each feature is listed in every cell that its bounding box overlaps.
pub struct FeatureGrid {
    cells: Vec<Vec<usize>>,
    lon_cells: usize,
    lat_cells: usize,
    boxes: Ghost<Seq<CellBox>>,
}

impl FeatureGrid {
    /// Cells per row.
    pub closed spec fn width(&self) -> int {
        self.lon_cells as int
    }

    /// Number of rows.
    pub closed spec fn height(&self) -> int {
        self.lat_cells as int
    }

    /// Bounding boxes of the indexed features, in index order.
    pub closed spec fn boxes(&self) -> Seq<CellBox> {
        self.boxes@
    }

    /// Feature indices stored for grid cell `(x, y)`.
    pub closed spec fn listed(&self, x: int, y: int) -> Seq<usize> {
        self.cells@[self.slot(x, y)]@
    }

    /// Flat position of cell `(x, y)`; the grid is centred on cell `(0, 0)`.
    pub closed spec fn slot(&self, x: int, y: int) -> int {
        (y + self.lat_cells / 2) * self.lon_cells + (x + self.lon_cells / 2)
    }

    /// Cell `(x, y)` is inside the grid.
    pub open spec fn in_grid(&self, x: int, y: int) -> bool {
        0 <= x + self.width() / 2 < self.width() && 0 <= y + self.height() / 2 < self.height()
    }

    /// Every cell inside the grid lists exactly the features whose box
    /// covers it, in increasing index order.
    pub open spec fn wf(&self) -> bool {
        &&& self.sized()
        &&& forall|x: int, y: int|
            self.in_grid(x, y) ==> #[trigger] self.listed(x, y) == covering(
                self.boxes(),
                x,
                y,
                self.boxes().len() as int,
            )
    }

    pub closed spec fn sized(&self) -> bool {
        &&& self.cells.len() == self.lon_cells * self.lat_cells
        &&& self.lon_cells <= i32::MAX
        &&& self.lat_cells <= i32::MAX
        &&& self.boxes@.len() <= usize::MAX
    }

    proof fn lemma_slot(&self, x: int, y: int)
        requires
            self.sized(),
            self.in_grid(x, y),
        ensures
            0 <= self.slot(x, y) < self.cells.len(),
            forall|x2: int, y2: int| #[trigger] self.in_grid(x2, y2) && self.slot(x2, y2) == self.slot(x, y) ==> x2 == x && y2 == y,
    {
        let w = self.lon_cells as int;
        let h = self.lat_cells as int;
        let a = y + h / 2;
        let b = x + w / 2;
        assert(0 <= a * w + b < w * h) by (nonlinear_arith)
            requires
                0 <= a < h,
                0 <= b < w,
        ;
        assert forall|x2: int, y2: int| #[trigger] self.in_grid(x2, y2) && self.slot(x2, y2) == self.slot(x, y) implies x2 == x && y2 == y by {
            let a2 = y2 + h / 2;
            let b2 = x2 + w / 2;
            assert(a2 == a && b2 == b) by (nonlinear_arith)
                requires
                    a2 * w + b2 == a * w + b,
                    0 <= a < h,
                    0 <= b < w,
                    0 <= a2 < h,
                    0 <= b2 < w,
            ;
        }
    }

    /// An empty grid of `lon_cells` x `lat_cells` cells.
    pub fn new(lon_cells: usize, lat_cells: usize) -> (r: Self)
        requires
            lon_cells * lat_cells <= usize::MAX,
            lon_cells <= i32::MAX,
            lat_cells <= i32::MAX,
        ensures
            r.wf(),
            r.width() == lon_cells,
            r.height() == lat_cells,
            r.boxes().len() == 0,
    {
        let n = lon_cells * lat_cells;
        let mut cells: Vec<Vec<usize>> = Vec::new();
        let mut i: usize = 0;
        while i < n
            invariant
                i <= n,
                cells.len() == i,
                forall|j: int| 0 <= j < i ==> (#[trigger] cells@[j])@ == Seq::<usize>::empty(),
            decreases n - i,
        {
            cells.push(Vec::new());
            i = i + 1;
        }
        let r = FeatureGrid { cells, lon_cells, lat_cells, boxes: Ghost(Seq::empty()) };
        assert forall|x: int, y: int| r.in_grid(x, y) implies #[trigger] r.listed(x, y) == covering(
            r.boxes(),
            x,
            y,
            0,
        ) by {
            r.lemma_slot(x, y);
        }
        r
    }

    /// Feature `f` overlaps query box `q` in cell `(cx, cy)` of the grid.
    pub open spec fn meets(&self, f: int, q: CellBox, cx: int, cy: int) -> bool {
        self.in_grid(cx, cy) && covers(q, cx, cy) && covers(self.boxes()[f], cx, cy)
    }

    /// Index the features whose cell bounding boxes are `boxes` (feature `i`
    /// has box `boxes[i]`) on a grid of `lon_cells` x `lat_cells` cells.
    pub fn build(boxes: &Vec<CellBox>, lon_cells: usize, lat_cells: usize) -> (r: Self)
        requires
            lon_cells * lat_cells <= usize::MAX,
            lon_cells <= i32::MAX,
            lat_cells <= i32::MAX,
        ensures
            r.wf(),
            r.width() == lon_cells,
            r.height() == lat_cells,
            r.boxes() == boxes@,
    {
        let mut grid = FeatureGrid::new(lon_cells, lat_cells);
        let mut idx: usize = 0;
        while idx < boxes.len()
            invariant
                grid.sized(),
                grid.lon_cells == lon_cells,
                grid.lat_cells == lat_cells,
                idx <= boxes.len(),
                forall|x: int, y: int|
                    grid.in_grid(x, y) ==> #[trigger] grid.listed(x, y) == covering(boxes@, x, y, idx as int),
            decreases boxes.len() - idx,
        {
            let b = boxes[idx];
            let mut y: i64 = b.min_y as i64;
            while y <= b.max_y as i64
                invariant
                    grid.sized(),
                    grid.lon_cells == lon_cells,
                    grid.lat_cells == lat_cells,
                    idx < boxes.len(),
                    b == boxes@[idx as int],
                    b.min_y <= y <= b.max_y + 1 || y == b.min_y,
                    forall|cx: int, cy: int|
                        grid.in_grid(cx, cy) ==> #[trigger] grid.listed(cx, cy) == covering(boxes@, cx, cy, idx as int)
                            + (if marked_before(b, cx, cy, b.min_x as int, y as int) { seq![idx] } else { Seq::empty() }),
                decreases b.max_y + 1 - y,
            {
                let mut x: i64 = b.min_x as i64;
                while x <= b.max_x as i64
                    invariant
                        grid.sized(),
                        grid.lon_cells == lon_cells,
                        grid.lat_cells == lat_cells,
                        idx < boxes.len(),
                        b == boxes@[idx as int],
                        b.min_y <= y <= b.max_y,
                        b.min_x <= x <= b.max_x + 1 || x == b.min_x,
                        forall|cx: int, cy: int|
                            grid.in_grid(cx, cy) ==> #[trigger] grid.listed(cx, cy) == covering(boxes@, cx, cy, idx as int)
                                + (if marked_before(b, cx, cy, x as int, y as int) { seq![idx] } else { Seq::empty() }),
                    decreases b.max_x + 1 - x,
                {
                    let ghost g0 = grid;
                    match grid.cell_index(x as i32, y as i32) {
                        Some(ci) => {
                            proof {
                                g0.lemma_slot(x as int, y as int);
                            }
                            grid.cells[ci].push(idx);
                            proof {
                                assert forall|cx: int, cy: int| grid.in_grid(cx, cy) implies #[trigger] grid.listed(cx, cy)
                                    == covering(boxes@, cx, cy, idx as int) + (if marked_before(b, cx, cy, x + 1, y as int) {
                                    seq![idx]
                                } else {
                                    Seq::empty()
                                }) by {
                                    assert(g0.in_grid(cx, cy));
                                    assert(g0.listed(cx, cy) == covering(boxes@, cx, cy, idx as int) + (if marked_before(b, cx, cy, x as int, y as int) {
                                        seq![idx]
                                    } else {
                                        Seq::empty()
                                    }));
                                    if cx == x && cy == y {
                                        assert(covers(b, cx, cy));
                                        assert(!marked_before(b, cx, cy, x as int, y as int));
                                        assert(marked_before(b, cx, cy, x + 1, y as int));
                                        assert(g0.slot(cx, cy) == ci);
                                        assert(grid.cells@[ci as int]@ == g0.cells@[ci as int]@.push(idx));
                                        assert(grid.listed(cx, cy) =~= g0.listed(cx, cy).push(idx));
                                        assert(covering(boxes@, cx, cy, idx as int) + seq![idx] =~= (covering(boxes@, cx, cy, idx as int) + Seq::<usize>::empty()).push(idx));
                                    } else {
                                        g0.lemma_slot(cx, cy);
                                        assert(g0.slot(cx, cy) != g0.slot(x as int, y as int));
                                        assert(grid.slot(cx, cy) == g0.slot(cx, cy));
                                        assert(grid.listed(cx, cy) == g0.listed(cx, cy));
                                        assert(marked_before(b, cx, cy, x + 1, y as int) == marked_before(b, cx, cy, x as int, y as int));
                                    }
                                }
                            }
                        },
                        None => {
                            proof {
                                assert forall|cx: int, cy: int| grid.in_grid(cx, cy) implies #[trigger] grid.listed(cx, cy)
                                    == covering(boxes@, cx, cy, idx as int) + (if marked_before(b, cx, cy, x + 1, y as int) {
                                    seq![idx]
                                } else {
                                    Seq::empty()
                                }) by {
                                    assert(g0.listed(cx, cy) == covering(boxes@, cx, cy, idx as int) + (if marked_before(b, cx, cy, x as int, y as int) {
                                        seq![idx]
                                    } else {
                                        Seq::empty()
                                    }));
                                }
                            }
                        },
                    }
                    x = x + 1;
                }
                y = y + 1;
                proof {
                    assert forall|cx: int, cy: int| grid.in_grid(cx, cy) implies #[trigger] grid.listed(cx, cy)
                        == covering(boxes@, cx, cy, idx as int) + (if marked_before(b, cx, cy, b.min_x as int, y as int) {
                        seq![idx]
                    } else {
                        Seq::empty()
                    }) by {
                        assert(marked_before(b, cx, cy, b.min_x as int, y as int) == marked_before(b, cx, cy, x as int, y - 1));
                    }
                }
            }
            proof {
                assert forall|cx: int, cy: int| grid.in_grid(cx, cy) implies #[trigger] grid.listed(cx, cy)
                    == covering(boxes@, cx, cy, idx + 1) by {
                    if covers(b, cx, cy) {
                        assert(marked_before(b, cx, cy, b.min_x as int, y as int));
                        assert(covering(boxes@, cx, cy, idx + 1) == covering(boxes@, cx, cy, idx as int).push(idx));
                        assert(covering(boxes@, cx, cy, idx as int) + seq![idx] =~= covering(boxes@, cx, cy, idx as int).push(idx));
                    } else {
                        assert(covering(boxes@, cx, cy, idx as int) + Seq::<usize>::empty() =~= covering(boxes@, cx, cy, idx as int));
                    }
                }
            }
            idx = idx + 1;
        }
        let ghost g1 = grid;
        grid.boxes = Ghost(boxes@);
        assert forall|x: int, y: int| grid.in_grid(x, y) implies #[trigger] grid.listed(x, y) == covering(
            grid.boxes(),
            x,
            y,
            grid.boxes().len() as int,
        ) by {
            assert(idx == boxes@.len());
            assert(g1.in_grid(x, y));
            assert(grid.listed(x, y) == g1.listed(x, y));
        }
        grid
    }

    /// Append to `results` the features listed in every grid cell of query
    /// box `q`. The answer is conservative: every feature whose box shares
    /// a grid cell with `q` is appended, possibly more than once, and only
    /// such features are.
    pub fn query_into(&self, q: CellBox, results: &mut Vec<usize>)
        requires
            self.wf(),
        ensures
            final(results)@.len() >= old(results)@.len(),
            final(results)@.subrange(0, old(results)@.len() as int) == old(results)@,
            forall|f: int, cx: int, cy: int|
                0 <= f < self.boxes().len() && #[trigger] self.meets(f, q, cx, cy)
                    ==> final(results)@.contains(f as usize),
            forall|i: int|
                old(results)@.len() <= i < final(results)@.len() ==> {
                    &&& #[trigger] final(results)@[i] < self.boxes().len()
                    &&& exists|cx: int, cy: int| self.meets(final(results)@[i] as int, q, cx, cy)
                },
    {
        let ghost start = results@;
        let ghost n = self.boxes().len() as int;
        let mut y: i64 = q.min_y as i64;
        while y <= q.max_y as i64
            invariant
                self.wf(),
                n == self.boxes().len(),
                q.min_y <= y <= q.max_y + 1 || y == q.min_y,
                results@.len() >= start.len(),
                results@.subrange(0, start.len() as int) == start,
                forall|f: int, cx: int, cy: int|
                    0 <= f < n && #[trigger] self.meets(f, q, cx, cy) && cy < y ==> results@.contains(f as usize),
                forall|i: int|
                    start.len() <= i < results@.len() ==> {
                        &&& #[trigger] results@[i] < n
                        &&& exists|cx: int, cy: int| self.meets(results@[i] as int, q, cx, cy)
                    },
            decreases q.max_y + 1 - y,
        {
            let mut x: i64 = q.min_x as i64;
            while x <= q.max_x as i64
                invariant
                    self.wf(),
                    n == self.boxes().len(),
                    q.min_y <= y <= q.max_y,
                    q.min_x <= x <= q.max_x + 1 || x == q.min_x,
                    results@.len() >= start.len(),
                    results@.subrange(0, start.len() as int) == start,
                    forall|f: int, cx: int, cy: int|
                        0 <= f < n && #[trigger] self.meets(f, q, cx, cy) && (cy < y || (cy == y && cx < x))
                            ==> results@.contains(f as usize),
                    forall|i: int|
                        start.len() <= i < results@.len() ==> {
                            &&& #[trigger] results@[i] < n
                            &&& exists|cx: int, cy: int| self.meets(results@[i] as int, q, cx, cy)
                        },
                decreases q.max_x + 1 - x,
            {
                if let Some(ci) = self.cell_index(x as i32, y as i32) {
                    proof {
                        self.lemma_slot(x as int, y as int);
                    }
                    let cell = &self.cells[ci];
                    assert(cell@ == self.listed(x as int, y as int));
                    let ghost before = results@;
                    let mut k: usize = 0;
                    while k < cell.len()
                        invariant
                            self.wf(),
                            n == self.boxes().len(),
                            self.in_grid(x as int, y as int),
                            covers(q, x as int, y as int),
                            cell@ == self.listed(x as int, y as int),
                            cell@ == covering(self.boxes(), x as int, y as int, n),
                            k <= cell.len(),
                            results@.len() == before.len() + k,
                            results@.subrange(0, before.len() as int) == before,
                            forall|j: int| 0 <= j < k ==> #[trigger] results@[before.len() + j] == cell@[j],
                        decreases cell.len() - k,
                    {
                        results.push(cell[k]);
                        k = k + 1;
                        assert(results@.subrange(0, before.len() as int) =~= before);
                    }
                    proof {
                        assert(n <= usize::MAX + 1);
                        assert forall|f: int, cx: int, cy: int|
                            0 <= f < n && #[trigger] self.meets(f, q, cx, cy) && (cy < y || (cy == y && cx < x + 1))
                                implies results@.contains(f as usize) by {
                            if cy == y && cx == x {
                                lemma_covering_contains(self.boxes(), x as int, y as int, n, f as usize);
                                let j = choose|j: int| 0 <= j < cell@.len() && cell@[j] == f as usize;
                                assert(results@[before.len() + j] == f as usize);
                            } else {
                                assert(before.contains(f as usize));
                                let j = choose|j: int| 0 <= j < before.len() && before[j] == f as usize;
                                assert(results@.subrange(0, before.len() as int)[j] == f as usize);
                            }
                        }
                        assert forall|i: int|
                            start.len() <= i < results@.len() implies {
                                &&& #[trigger] results@[i] < n
                                &&& exists|cx: int, cy: int| self.meets(results@[i] as int, q, cx, cy)
                            } by {
                            if i >= before.len() {
                                let j = i - before.len();
                                assert(results@[before.len() + j] == cell@[j]);
                                assert(results@[i] == cell@[j]);
                                lemma_covering_contains(self.boxes(), x as int, y as int, n, cell@[j]);
                                assert(cell@.contains(cell@[j]));
                                assert(self.meets(results@[i] as int, q, x as int, y as int));
                            } else {
                                assert(results@.subrange(0, before.len() as int)[i] == before[i]);
                            }
                        }
                        assert(results@.subrange(0, start.len() as int) =~= start) by {
                            assert forall|i: int| 0 <= i < start.len() implies results@[i] == start[i] by {
                                assert(results@.subrange(0, before.len() as int)[i] == before[i]);
                                assert(before.subrange(0, start.len() as int)[i] == start[i]);
                            }
                        }
                    }
                }
                x = x + 1;
            }
            y = y + 1;
        }
    }

    /// Flat position of cell `(lon_cell, lat_cell)`, or `None` outside the
    /// grid.
    fn cell_index(&self, lon_cell: i32, lat_cell: i32) -> (r: Option<usize>)
        requires
            self.sized(),
        ensures
            r matches Some(i) ==> self.in_grid(lon_cell as int, lat_cell as int) && i == self.slot(lon_cell as int, lat_cell as int),
            r is None ==> !self.in_grid(lon_cell as int, lat_cell as int),
    {
        let x = lon_cell as i64 + (self.lon_cells / 2) as i64;
        let y = lat_cell as i64 + (self.lat_cells / 2) as i64;
        if x >= 0 && x < self.lon_cells as i64 && y >= 0 && y < self.lat_cells as i64 {
            proof {
                self.lemma_slot(lon_cell as int, lat_cell as int);
            }
            Some(y as usize * self.lon_cells + x as usize)
        } else {
            None
        }
    }
}

/// Hash key of cell `(x, y)`: both coordinates offset to be non-negative
/// and packed into one 64-bit word.
pub open spec fn cell_key(x: int, y: int) -> u64 {
    ((x + 0x8000_0000) * 0x1_0000_0000 + (y + 0x8000_0000)) as u64
}

/// A cell coordinate pair that fits in `i32`.
pub open spec fn is_cell(x: int, y: int) -> bool {
    i32::MIN <= x <= i32::MAX && i32::MIN <= y <= i32::MAX
}

/// Indices `i < n`, in increasing order, of the items placed in cell `(x, y)`.
pub open spec fn in_cell(places: Seq<(int, int)>, x: int, y: int, n: int) -> Seq<usize>
    decreases n,
{
    if n <= 0 {
        Seq::empty()
    } else if places[n - 1] == (x, y) {
        in_cell(places, x, y, n - 1).push((n - 1) as usize)
    } else {
        in_cell(places, x, y, n - 1)
    }
}

proof fn lemma_in_cell_contains(places: Seq<(int, int)>, x: int, y: int, n: int, i: usize)
    requires
        0 <= n <= usize::MAX + 1,
    ensures
        in_cell(places, x, y, n).contains(i) <==> i < n && places[i as int] == (x, y),
    decreases n,
{
    if n > 0 {
        lemma_in_cell_contains(places, x, y, n - 1, i);
        if places[n - 1] == (x, y) {
            let s = in_cell(places, x, y, n - 1);
            let t = s.push((n - 1) as usize);
            assert(t.contains(i) == (s.contains(i) || i == (n - 1) as usize)) by {
                if t.contains(i) {
                    let j = choose|j: int| 0 <= j < t.len() && #[trigger] t[j] == i;
                    if j < s.len() {
                        assert(s[j] == i);
                    }
                }
                if s.contains(i) {
                    let j = choose|j: int| 0 <= j < s.len() && #[trigger] s[j] == i;
                    assert(t[j] == i);
                }
                if i == (n - 1) as usize {
                    assert(t[s.len() as int] == i);
                }
            }
        }
    }
}

proof fn lemma_cell_key_unique(x: int, y: int, x2: int, y2: int)
    requires
        is_cell(x, y),
        is_cell(x2, y2),
        cell_key(x, y) == cell_key(x2, y2),
    ensures
        x == x2 && y == y2,
{
    let a = x + 0x8000_0000;
    let b = y + 0x8000_0000;
    let a2 = x2 + 0x8000_0000;
    let b2 = y2 + 0x8000_0000;
    assert(0 <= a * 0x1_0000_0000 + b <= u64::MAX) by (nonlinear_arith)
        requires
            0 <= a < 0x1_0000_0000,
            0 <= b < 0x1_0000_0000,
    ;
    assert(0 <= a2 * 0x1_0000_0000 + b2 <= u64::MAX) by (nonlinear_arith)
        requires
            0 <= a2 < 0x1_0000_0000,
            0 <= b2 < 0x1_0000_0000,
    ;
    assert(a == a2 && b == b2) by (nonlinear_arith)
        requires
            a * 0x1_0000_0000 + b == a2 * 0x1_0000_0000 + b2,
            0 <= b < 0x1_0000_0000,
            0 <= b2 < 0x1_0000_0000,
    ;
}

fn pack_cell(x: i32, y: i32) -> (r: u64)
    ensures
        r == cell_key(x as int, y as int),
{
    let a = (x as i64 + 0x8000_0000) as u64;
    let b = (y as i64 + 0x8000_0000) as u64;
    assert(a * 0x1_0000_0000 + b <= u64::MAX) by (nonlinear_arith)
        requires
            a < 0x1_0000_0000,
            b < 0x1_0000_0000,
    ;
    a * 0x1_0000_0000 + b
}

/// Hashed grid of point items: items are stored in insertion order and
/// each index is listed under the cell its position falls in. Items are
/// never removed, so indices stay valid.
pub struct SpatialGrid<T> {
    cells: HashMap<u64, Vec<usize>>,
    items: Vec<T>,
    places: Ghost<Seq<(int, int)>>,
}

impl<T> SpatialGrid<T> {
    /// The items, in insertion order.
    pub closed spec fn items(&self) -> Seq<T> {
        self.items@
    }

    /// The cell each item was inserted at.
    pub closed spec fn places(&self) -> Seq<(int, int)> {
        self.places@
    }

    /// Indices listed under cell `(x, y)`.
    pub closed spec fn listed(&self, x: int, y: int) -> Seq<usize> {
        if self.cells@.contains_key(cell_key(x, y)) {
            self.cells@[cell_key(x, y)]@
        } else {
            Seq::empty()
        }
    }

    /// Each cell lists exactly the items placed in it, in insertion order.
    pub open spec fn wf(&self) -> bool {
        &&& self.items().len() == self.places().len()
        &&& forall|i: int| 0 <= i < self.places().len() ==> is_cell(#[trigger] self.places()[i].0, self.places()[i].1)
        &&& forall|x: int, y: int|
            is_cell(x, y) ==> #[trigger] self.listed(x, y) == in_cell(self.places(), x, y, self.places().len() as int)
    }

    /// Item `i` lies in the cell rectangle `[min_x, max_x] x [min_y, max_y]`.
    pub open spec fn placed_within(&self, i: int, min_x: int, min_y: int, max_x: int, max_y: int) -> bool {
        &&& 0 <= i < self.places().len()
        &&& min_x <= self.places()[i].0 <= max_x
        &&& min_y <= self.places()[i].1 <= max_y
    }

    /// An empty grid.
    pub fn new() -> (r: Self)
        ensures
            r.wf(),
            r.items().len() == 0,
    {
        let r = SpatialGrid { cells: HashMap::new(), items: Vec::new(), places: Ghost(Seq::empty()) };
        assert forall|x: int, y: int| is_cell(x, y) implies #[trigger] r.listed(x, y) == in_cell(
            r.places(),
            x,
            y,
            0,
        ) by {}
        r
    }

    /// Add `item` in cell `(cell_x, cell_y)`; its index is the number of
    /// items inserted before it.
    pub fn insert(&mut self, cell_x: i32, cell_y: i32, item: T)
        requires
            old(self).wf(),
            old(self).items().len() < usize::MAX,
        ensures
            final(self).wf(),
            final(self).items() == old(self).items().push(item),
            final(self).places() == old(self).places().push((cell_x as int, cell_y as int)),
    {
        let ghost g0 = *self;
        let idx = self.items.len();
        self.items.push(item);
        let key = pack_cell(cell_x, cell_y);
        let mut list = match self.cells.remove(&key) {
            Some(v) => v,
            None => Vec::new(),
        };
        list.push(idx);
        self.cells.insert(key, list);
        self.places = Ghost(self.places@.push((cell_x as int, cell_y as int)));
        proof {
            let n = g0.places().len() as int;
            assert forall|i: int| 0 <= i < self.places().len() implies is_cell(#[trigger] self.places()[i].0, self.places()[i].1) by {
                if i < n {
                    assert(self.places()[i] == g0.places()[i]);
                }
            }
            assert forall|x: int, y: int| is_cell(x, y) implies #[trigger] self.listed(x, y) == in_cell(
                self.places(),
                x,
                y,
                n + 1,
            ) by {
                assert(g0.listed(x, y) == in_cell(g0.places(), x, y, n));
                assert(in_cell(self.places(), x, y, n) == in_cell(g0.places(), x, y, n)) by {
                    lemma_in_cell_prefix(g0.places(), self.places(), x, y, n);
                }
                if x == cell_x && y == cell_y {
                    assert(self.listed(x, y) =~= g0.listed(x, y).push(idx));
                } else {
                    if cell_key(x, y) == key {
                        lemma_cell_key_unique(x, y, cell_x as int, cell_y as int);
                    }
                    assert(self.listed(x, y) == g0.listed(x, y));
                }
            }
        }
    }

    /// Indices of the items in cells `[min_x, max_x] x [min_y, max_y]`:
    /// each such item once, and no other.
    pub fn query_cells(&self, min_x: i64, min_y: i64, max_x: i64, max_y: i64) -> (r: Vec<usize>)
        requires
            self.wf(),
            max_x < i64::MAX,
            max_y < i64::MAX,
        ensures
            forall|i: int| 0 <= i < r.len() ==> #[trigger] r@[i] < self.items().len(),
            forall|i: usize|
                #[trigger] r@.contains(i) <==> self.placed_within(i as int, min_x as int, min_y as int, max_x as int, max_y as int),
    {
        let ghost n = self.places().len() as int;
        let count = self.items.len();
        assert(n == count);
        let mut results: Vec<usize> = Vec::new();
        let mut y: i64 = min_y;
        while y <= max_y
            invariant
                self.wf(),
                n == self.places().len(),
                n <= usize::MAX,
                max_y < i64::MAX,
                max_x < i64::MAX,
                min_y <= y <= max_y + 1 || y == min_y,
                forall|i: int| 0 <= i < results.len() ==> #[trigger] results@[i] < n,
                forall|i: usize|
                    #[trigger] results@.contains(i) <==> self.placed_within(i as int, min_x as int, min_y as int, max_x as int, y - 1),
            decreases max_y + 1 - y,
        {
            let mut x: i64 = min_x;
            while x <= max_x
                invariant
                    self.wf(),
                    n == self.places().len(),
                    n <= usize::MAX,
                    max_x < i64::MAX,
                    min_y <= y <= max_y,
                    min_x <= x <= max_x + 1 || x == min_x,
                    forall|i: int| 0 <= i < results.len() ==> #[trigger] results@[i] < n,
                    forall|i: usize|
                        #[trigger] results@.contains(i) <==> (self.placed_within(i as int, min_x as int, min_y as int, max_x as int, y - 1)
                            || (self.placed_within(i as int, min_x as int, y as int, x - 1, y as int))),
                decreases max_x + 1 - x,
            {
                if i32::MIN as i64 <= x && x <= i32::MAX as i64 && i32::MIN as i64 <= y && y <= i32::MAX as i64 {
                    let key = pack_cell(x as i32, y as i32);
                    if let Some(list) = self.cells.get(&key) {
                        assert(list@ == self.listed(x as int, y as int));
                        let ghost before = results@;
                        let mut k: usize = 0;
                        while k < list.len()
                            invariant
                                self.wf(),
                                n == self.places().len(),
                                n <= usize::MAX,
                                is_cell(x as int, y as int),
                                list@ == in_cell(self.places(), x as int, y as int, n),
                                k <= list.len(),
                                results@ == before + list@.take(k as int),
                            decreases list.len() - k,
                        {
                            results.push(list[k]);
                            k = k + 1;
                            assert(list@.take(k as int) =~= list@.take(k - 1).push(list@[k - 1]));
                        }
                        proof {
                            assert(list@.take(k as int) =~= list@);
                            assert(n <= usize::MAX + 1);
                            assert forall|i: usize| #[trigger] results@.contains(i) <==> (self.placed_within(i as int, min_x as int, min_y as int, max_x as int, y - 1)
                                || (self.placed_within(i as int, min_x as int, y as int, x as int, y as int))) by {
                                lemma_in_cell_contains(self.places(), x as int, y as int, n, i);
                                lemma_concat_contains(before, list@, i);
                            }
                            assert forall|i: int| 0 <= i < results.len() implies #[trigger] results@[i] < n by {
                                if i >= before.len() {
                                    let v = list@[i - before.len()];
                                    assert(results@[i] == v);
                                    assert(list@.contains(v));
                                    lemma_in_cell_contains(self.places(), x as int, y as int, n, v);
                                }
                            }
                        }
                    } else {
                        proof {
                            assert(self.listed(x as int, y as int) == Seq::<usize>::empty());
                            assert forall|i: usize| #[trigger] results@.contains(i) <==> (self.placed_within(i as int, min_x as int, min_y as int, max_x as int, y - 1)
                                || (self.placed_within(i as int, min_x as int, y as int, x as int, y as int))) by {
                                lemma_in_cell_contains(self.places(), x as int, y as int, n, i);
                            }
                        }
                    }
                } else {
                    proof {
                        assert forall|i: usize| #[trigger] results@.contains(i) <==> (self.placed_within(i as int, min_x as int, min_y as int, max_x as int, y - 1)
                            || (self.placed_within(i as int, min_x as int, y as int, x as int, y as int))) by {
                            if self.placed_within(i as int, min_x as int, y as int, x as int, y as int) && self.places()[i as int].0 == x {
                                assert(is_cell(self.places()[i as int].0, self.places()[i as int].1));
                            }
                        }
                    }
                }
                x = x + 1;
            }
            y = y + 1;
        }
        results
    }

    /// Indices of the items within `cell_radius` cells (in both directions)
    /// of cell `(cell_x, cell_y)`.
    pub fn query_radius(&self, cell_x: i32, cell_y: i32, cell_radius: i32) -> (r: Vec<usize>)
        requires
            self.wf(),
        ensures
            forall|i: int| 0 <= i < r.len() ==> #[trigger] r@[i] < self.items().len(),
            forall|i: usize|
                #[trigger] r@.contains(i) <==> self.placed_within(
                    i as int,
                    cell_x - cell_radius,
                    cell_y - cell_radius,
                    cell_x + cell_radius,
                    cell_y + cell_radius,
                ),
    {
        let r = cell_radius as i64;
        self.query_cells(cell_x as i64 - r, cell_y as i64 - r, cell_x as i64 + r, cell_y as i64 + r)
    }

    /// Indices of the items in the cell box `b`.
    pub fn query_bbox(&self, b: CellBox) -> (r: Vec<usize>)
        requires
            self.wf(),
        ensures
            forall|i: int| 0 <= i < r.len() ==> #[trigger] r@[i] < self.items().len(),
            forall|i: usize|
                #[trigger] r@.contains(i) <==> self.placed_within(
                    i as int,
                    b.min_x as int,
                    b.min_y as int,
                    b.max_x as int,
                    b.max_y as int,
                ),
    {
        self.query_cells(b.min_x as i64, b.min_y as i64, b.max_x as i64, b.max_y as i64)
    }

    /// The item with index `idx`, if there is one.
    pub fn get(&self, idx: usize) -> (r: Option<&T>)
        ensures
            r matches Some(v) ==> idx < self.items().len() && *v == self.items()[idx as int],
            r is None ==> idx >= self.items().len(),
    {
        if idx < self.items.len() {
            Some(&self.items[idx])
        } else {
            None
        }
    }

    /// A grid that lists the same cells and places as a well-formed one,
    /// with as many items, is well formed.
    pub proof fn lemma_wf_kept(&self, before: &Self)
        requires
            before.wf(),
            forall|x: int, y: int| #[trigger] self.listed(x, y) == before.listed(x, y),
            self.places() == before.places(),
            self.items().len() == before.items().len(),
        ensures
            self.wf(),
    {
        assert forall|x: int, y: int| is_cell(x, y) implies #[trigger] self.listed(x, y) == in_cell(
            self.places(),
            x,
            y,
            self.places().len() as int,
        ) by {
            assert(before.listed(x, y) == in_cell(before.places(), x, y, before.places().len() as int));
        }
    }

    /// Mutable access to the item with index `idx`, if there is one. The
    /// item's cell does not change, and the grid stays well formed (see
    /// `lemma_wf_kept`).
    pub fn get_mut(&mut self, idx: usize) -> (r: Option<&mut T>)
        requires
            old(self).wf(),
        ensures
            forall|x: int, y: int| #[trigger] final(self).listed(x, y) == old(self).listed(x, y),
            final(self).places() == old(self).places(),
            final(self).items().len() == old(self).items().len(),
            match r {
                Some(v) => idx < old(self).items().len() && *v == old(self).items()[idx as int]
                    && final(self).items() == old(self).items().update(idx as int, *final(v)),
                None => idx >= old(self).items().len() && final(self).items() == old(self).items(),
            },
    {
        if idx < self.items.len() {
            Some(&mut self.items[idx])
        } else {
            None
        }
    }

    /// Number of items.
    pub fn len(&self) -> (r: usize)
        ensures
            r == self.items().len(),
    {
        self.items.len()
    }
}

proof fn lemma_in_cell_prefix(p: Seq<(int, int)>, q: Seq<(int, int)>, x: int, y: int, n: int)
    requires
        0 <= n <= p.len(),
        n <= q.len(),
        forall|i: int| 0 <= i < n ==> p[i] == q[i],
    ensures
        in_cell(p, x, y, n) == in_cell(q, x, y, n),
    decreases n,
{
    if n > 0 {
        lemma_in_cell_prefix(p, q, x, y, n - 1);
    }
}

proof fn lemma_concat_contains(a: Seq<usize>, b: Seq<usize>, v: usize)
    ensures
        (a + b).contains(v) <==> a.contains(v) || b.contains(v),
{
    let c = a + b;
    if c.contains(v) {
        let j = choose|j: int| 0 <= j < c.len() && #[trigger] c[j] == v;
        if j < a.len() {
            assert(a[j] == v);
        } else {
            assert(b[j - a.len()] == v);
        }
    }
    if a.contains(v) {
        let j = choose|j: int| 0 <= j < a.len() && #[trigger] a[j] == v;
        assert(c[j] == v);
    }
    if b.contains(v) {
        let j = choose|j: int| 0 <= j < b.len() && #[trigger] b[j] == v;
        assert(c[a.len() + j] == v);
    }
}

} // verus!
