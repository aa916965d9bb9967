//! Land classification grid: a fine 0.1 degree land bitmap with a coarse
//! 1 degree tier that answers all-water and all-land cells without looking
//! at the bitmap.

use vstd::prelude::*;

verus! {

/// Fine cells per row (360 degrees at 0.1 degree).
pub const FINE_WIDTH: usize = 3600;

/// Fine rows (180 degrees at 0.1 degree).
pub const FINE_HEIGHT: usize = 1800;

/// Number of fine cells.
pub const TOTAL_BITS: usize = 6_480_000;

/// Number of 64-bit words of the bitmap.
pub const BITMAP_LEN: usize = 101_250;

/// Coarse cells per row (one per degree).
pub const COARSE_WIDTH: usize = 360;

/// Number of coarse cells.
pub const COARSE_CELLS: usize = 64_800;

/// Coarse class: every fine cell in it is water.
pub const ALL_WATER: u8 = 0;

/// Coarse class: some fine cells are land and some water.
pub const MIXED: u8 = 1;

/// Coarse class: every fine cell in it is land.
pub const ALL_LAND: u8 = 2;

/// Flat index of fine cell `(lon_idx, lat_idx)`.
pub open spec fn fine_index(lon_idx: int, lat_idx: int) -> int {
    lat_idx * FINE_WIDTH + lon_idx
}

/// Flat index of the `k`-th (row-major, `0 <= k < 100`) fine cell inside
/// coarse cell `c`.
pub open spec fn sub_cell(c: int, k: int) -> int {
    fine_index((c % 360) * 10 + k % 10, (c / 360) * 10 + k / 10)
}

/// Bit `i` of a bitmap of 64-bit words.
pub open spec fn bit_of(words: Seq<u64>, i: int) -> bool {
    (words[i / 64] >> ((i % 64) as u64)) & 1u64 == 1u64
}

/// Fine-cell index for a query position: each index is clamped into the
/// grid first.
pub open spec fn clamped_index(lon_idx: int, lat_idx: int) -> int {
    fine_index(
        if lon_idx < FINE_WIDTH { lon_idx } else { FINE_WIDTH - 1 },
        if lat_idx < FINE_HEIGHT { lat_idx } else { FINE_HEIGHT - 1 },
    )
}

/// The coarse class a coarse cell should have over fine bitmap `bits`.
pub open spec fn coarse_class_of(bits: Seq<bool>, c: int) -> u8 {
    if forall|k: int| 0 <= k < 100 ==> !#[trigger] bits[sub_cell(c, k)] {
        ALL_WATER
    } else if forall|k: int| 0 <= k < 100 ==> #[trigger] bits[sub_cell(c, k)] {
        ALL_LAND
    } else {
        MIXED
    }
}

/// Two-tier land/water grid. The view is the fine bitmap, one `bool` per
/// fine cell (`true` for land), row-major from (-180, -90).
pub struct LandGrid {
    bitmap: Vec<u64>,
    coarse: Vec<u8>,
}

impl View for LandGrid {
    type V = Seq<bool>;

    closed spec fn view(&self) -> Seq<bool> {
        Seq::new(TOTAL_BITS as nat, |i: int| bit_of(self.bitmap@, i))
    }
}

proof fn lemma_set_word_bit(v: u64, b: u64, j: u64)
    requires
        b < 64,
        j < 64,
    ensures
        ((v | (1u64 << b)) >> j) & 1u64 == 1u64 <==> ((v >> j) & 1u64 == 1u64 || j == b),
{
    assert(((v | (1u64 << b)) >> j) & 1u64 == 1u64 <==> ((v >> j) & 1u64 == 1u64 || j == b))
        by (bit_vector)
        requires
            b < 64,
            j < 64,
    ;
}

proof fn lemma_zero_word(j: u64)
    requires
        j < 64,
    ensures
        (0u64 >> j) & 1u64 == 0u64,
{
    assert((0u64 >> j) & 1u64 == 0u64) by (bit_vector);
}

impl LandGrid {
    /// The buffers have their fixed sizes.
    pub closed spec fn sized(&self) -> bool {
        self.bitmap.len() == BITMAP_LEN && self.coarse.len() == COARSE_CELLS
    }

    /// Coarse class of coarse cell `c`.
    pub closed spec fn coarse_class(&self, c: int) -> u8 {
        self.coarse@[c]
    }

    /// The coarse tier agrees with the bitmap: an all-water cell holds no
    /// land, an all-land cell no water.
    pub open spec fn consistent(&self) -> bool {
        forall|c: int, k: int|
            #![trigger self@[sub_cell(c, k)]]
            0 <= c < COARSE_CELLS && 0 <= k < 100 ==> {
                &&& self.coarse_class(c) == ALL_WATER ==> !self@[sub_cell(c, k)]
                &&& self.coarse_class(c) == ALL_LAND ==> self@[sub_cell(c, k)]
            }
    }

    /// Well formed: sized, with a consistent coarse tier.
    pub open spec fn wf(&self) -> bool {
        self.sized() && self.consistent()
    }

    /// A grid with no land: every cell is water.
    pub fn new() -> (r: Self)
        ensures
            r.wf(),
            forall|i: int| 0 <= i < TOTAL_BITS ==> !#[trigger] r@[i],
    {
        let r = LandGrid { bitmap: vec![0u64; BITMAP_LEN], coarse: vec![0u8; COARSE_CELLS] };
        assert forall|i: int| 0 <= i < TOTAL_BITS implies !#[trigger] r@[i] by {
            lemma_zero_word((i % 64) as u64);
        }
        r
    }

    /// Classify every coarse cell from the bitmap: all water, all land or
    /// mixed.
    fn build_coarse(&mut self)
        requires
            old(self).sized(),
        ensures
            final(self).wf(),
            final(self)@ == old(self)@,
            forall|c: int| 0 <= c < COARSE_CELLS ==> #[trigger] final(self).coarse_class(c)
                == coarse_class_of(final(self)@, c),
    {
        let mut coarse: Vec<u8> = Vec::new();
        let mut c: usize = 0;
        while c < COARSE_CELLS
            invariant
                self.sized(),
                c <= COARSE_CELLS,
                coarse.len() == c,
                forall|j: int| 0 <= j < c ==> #[trigger] coarse@[j] == coarse_class_of(self@, j),
            decreases COARSE_CELLS - c,
        {
            let lat0 = (c / COARSE_WIDTH) * 10;
            let lon0 = (c % COARSE_WIDTH) * 10;
            let mut any = false;
            let mut all = true;
            let mut k: usize = 0;
            while k < 100
                invariant
                    self.sized(),
                    c < COARSE_CELLS,
                    lat0 == (c / 360) * 10,
                    lon0 == (c % 360) * 10,
                    k <= 100,
                    any == exists|j: int| 0 <= j < k && #[trigger] self@[sub_cell(c as int, j)],
                    all == forall|j: int| 0 <= j < k ==> #[trigger] self@[sub_cell(c as int, j)],
                decreases 100 - k,
            {
                let idx = (lat0 + k / 10) * FINE_WIDTH + lon0 + k % 10;
                assert(idx == sub_cell(c as int, k as int));
                let land = self.get_bit(idx);
                any = any || land;
                all = all && land;
                k = k + 1;
            }
            let class = if !any {
                ALL_WATER
            } else if all {
                ALL_LAND
            } else {
                MIXED
            };
            coarse.push(class);
            c = c + 1;
        }
        self.coarse = coarse;
    }

    /// A grid whose land cells are exactly the fine cells listed in `cells`
    /// (indices past the grid are ignored), with its coarse tier built.
    pub fn from_land_cells(cells: &Vec<usize>) -> (r: Self)
        ensures
            r.wf(),
            forall|i: int| 0 <= i < TOTAL_BITS ==> #[trigger] r@[i] == exists|j: int|
                0 <= j < cells.len() && cells@[j] == i,
    {
        let mut grid = LandGrid::new();
        let mut n: usize = 0;
        while n < cells.len()
            invariant
                grid.sized(),
                n <= cells.len(),
                forall|i: int| 0 <= i < TOTAL_BITS ==> #[trigger] grid@[i] == exists|j: int|
                    0 <= j < n && cells@[j] == i,
            decreases cells.len() - n,
        {
            let ghost before = grid@;
            grid.set_bit(cells[n]);
            proof {
                assert forall|i: int| 0 <= i < TOTAL_BITS implies #[trigger] grid@[i] == exists|j: int|
                    0 <= j < n + 1 && cells@[j] == i by {
                    if cells@[n as int] == i {
                        assert(0 <= n < n + 1 && cells@[n as int] == i);
                    } else {
                        assert(grid@[i] == before[i]);
                        if exists|j: int| 0 <= j < n + 1 && cells@[j] == i {
                            let j = choose|j: int| 0 <= j < n + 1 && cells@[j] == i;
                            assert(j < n);
                        }
                    }
                }
            }
            n = n + 1;
        }
        grid.build_coarse();
        grid
    }

    /// Whether fine cell `(lon_idx, lat_idx)` is land, each index clamped
    /// into the grid first. The coarse tier answers all-water and all-land
    /// cells; only mixed cells read the bitmap. The answer is always the
    /// bitmap's.
    pub fn is_land(&self, lon_idx: usize, lat_idx: usize) -> (r: bool)
        requires
            self.wf(),
        ensures
            r == self@[clamped_index(lon_idx as int, lat_idx as int)],
    {
        let lon = if lon_idx < FINE_WIDTH { lon_idx } else { FINE_WIDTH - 1 };
        let lat = if lat_idx < FINE_HEIGHT { lat_idx } else { FINE_HEIGHT - 1 };
        let c = (lat / 10) * COARSE_WIDTH + lon / 10;
        let k = (lat % 10) * 10 + lon % 10;
        assert(sub_cell(c as int, k as int) == fine_index(lon as int, lat as int));
        let class = self.coarse[c];
        if class == ALL_WATER {
            false
        } else if class == ALL_LAND {
            true
        } else {
            self.get_bit(lat * FINE_WIDTH + lon)
        }
    }

    /// Mark fine cell `idx` as land; indices past the grid are ignored. The
    /// coarse tier is not updated.
    fn set_bit(&mut self, idx: usize)
        requires
            old(self).sized(),
        ensures
            final(self).sized(),
            final(self).coarse@ == old(self).coarse@,
            final(self)@ == (if idx < TOTAL_BITS { old(self)@.update(idx as int, true) } else { old(self)@ }),
    {
        if idx < TOTAL_BITS {
            let w = idx / 64;
            let b = (idx % 64) as u64;
            let v = self.bitmap[w] | (1u64 << b);
            self.bitmap.set(w, v);
            proof {
                let o = old(self)@;
                assert forall|i: int| 0 <= i < TOTAL_BITS implies #[trigger] self@[i] == o.update(
                    idx as int,
                    true,
                )[i] by {
                    if i / 64 == w {
                        lemma_set_word_bit(old(self).bitmap@[w as int], b, (i % 64) as u64);
                    }
                }
                assert(self@ =~= o.update(idx as int, true));
            }
        }
    }

    /// Whether fine cell `idx` is land; `false` past the grid.
    fn get_bit(&self, idx: usize) -> (r: bool)
        requires
            self.sized(),
        ensures
            r == (idx < TOTAL_BITS && self@[idx as int]),
    {
        if idx < TOTAL_BITS {
            (self.bitmap[idx / 64] >> ((idx % 64) as u64)) & 1u64 == 1u64
        } else {
            false
        }
    }
}

/// Fine cell `(lon_idx, lat_idx)` is land under `grid`; with no grid (no
/// land data loaded) every cell is.
pub open spec fn on_land(grid: Option<LandGrid>, lon_idx: int, lat_idx: int) -> bool {
    match grid {
        Some(g) => g@[clamped_index(lon_idx, lat_idx)],
        None => true,
    }
}

/// Land test that treats every cell as land when no grid was built (no
/// land data loaded).
pub fn is_on_land(grid: &Option<LandGrid>, lon_idx: usize, lat_idx: usize) -> (r: bool)
    requires
        grid matches Some(g) ==> g.wf(),
    ensures
        r == on_land(*grid, lon_idx as int, lat_idx as int),
{
    match grid {
        Some(g) => g.is_land(lon_idx, lat_idx),
        None => true,
    }
}

} // verus!
