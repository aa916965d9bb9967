//! Braille canvas: a character grid where each character holds a 2 x 4 block
//! of dots, giving twice the columns and four times the rows in pixels.

use vstd::prelude::*;
use crate::text::{char_from_code, push_char};

verus! {

/// First code point of the Unicode Braille Patterns block; a cell's byte is
/// added to it to give the character shown.
pub const BRAILLE_BASE: u32 = 0x2800;

/// Mathematical model of a canvas: its size in characters and one byte of
/// dot bits per character, row-major.
pub struct CanvasView {
    pub width: nat,
    pub height: nat,
    pub cells: Seq<u8>,
}

/// Bit of a character's byte that holds the dot at pixel `(x, y)`:
/// rows 0 to 2 use bits 0 to 2 (left) and 3 to 5 (right), row 3 uses 6 and 7.
pub open spec fn dot_bit(x: int, y: int) -> u8 {
    let col = x % 2;
    let row = y % 4;
    if row == 3 {
        (6 + col) as u8
    } else {
        (row + 3 * col) as u8
    }
}

/// The character cell (row-major index) that holds pixel `(x, y)`.
pub open spec fn cell_of(width: nat, x: int, y: int) -> int {
    (y / 4) * width + x / 2
}

/// The character that shows a cell byte.
pub open spec fn braille_char(b: u8) -> char {
    (BRAILLE_BASE + b as u32) as char
}

impl CanvasView {
    pub open spec fn wf(self) -> bool {
        self.cells.len() == self.width * self.height
    }

    /// Pixel `(x, y)` lies on the canvas.
    pub open spec fn in_bounds(self, x: int, y: int) -> bool {
        0 <= x < 2 * self.width && 0 <= y < 4 * self.height
    }

    /// The dot at pixel `(x, y)` is set.
    pub open spec fn lit(self, x: int, y: int) -> bool {
        self.in_bounds(x, y) && (self.cells[cell_of(self.width, x, y)] >> dot_bit(x, y)) & 1u8 == 1u8
    }

    /// `self` is `before` with only dots that satisfy `dots` newly set, and no
    /// dot cleared.
    pub open spec fn adds_within(self, before: CanvasView, dots: spec_fn(int, int) -> bool) -> bool {
        &&& self.width == before.width
        &&& self.height == before.height
        &&& self.wf()
        &&& forall|x: int, y: int| #[trigger] self.lit(x, y) ==> before.lit(x, y) || dots(x, y)
        &&& forall|x: int, y: int| #[trigger] before.lit(x, y) ==> self.lit(x, y)
    }

    /// Characters of character row `row`.
    pub open spec fn row_text(self, row: int) -> Seq<char> {
        Seq::new(self.width, |i: int| braille_char(self.cells[row * self.width + i]))
    }

    /// Rows `0 .. n` joined by newlines.
    pub open spec fn text_upto(self, n: int) -> Seq<char>
        decreases n,
    {
        if n <= 0 {
            Seq::empty()
        } else if n == 1 {
            self.row_text(0)
        } else {
            self.text_upto(n - 1).push('\n') + self.row_text(n - 1)
        }
    }

    /// The canvas shown as text: rows joined by newlines.
    pub open spec fn text(self) -> Seq<char> {
        self.text_upto(self.height as int)
    }

    /// `self` is `before` with the dots on the canvas that satisfy `dots`
    /// set, and no other change.
    pub open spec fn adds(self, before: CanvasView, dots: spec_fn(int, int) -> bool) -> bool {
        &&& self.width == before.width
        &&& self.height == before.height
        &&& self.wf()
        &&& forall|x: int, y: int| #[trigger]
            self.lit(x, y) == (before.lit(x, y) || (before.in_bounds(x, y) && dots(x, y)))
    }
}

/// A character grid of Braille dot patterns, stored as one flat row-major
/// buffer.
pub struct BrailleCanvas {
    width: usize,
    height: usize,
    pixels: Vec<u8>,
}

impl View for BrailleCanvas {
    type V = CanvasView;

    closed spec fn view(&self) -> CanvasView {
        CanvasView { width: self.width as nat, height: self.height as nat, cells: self.pixels@ }
    }
}

impl Clone for BrailleCanvas {
    fn clone(&self) -> (r: Self)
        ensures
            r@ == self@,
    {
        let pixels = self.pixels.clone();
        assert(pixels@ =~= self.pixels@);
        BrailleCanvas { width: self.width, height: self.height, pixels }
    }
}

fn dot_bit_of(col: usize, row: usize) -> (r: u8)
    requires
        col < 2,
        row < 4,
    ensures
        r == dot_bit(col as int, row as int),
        r < 8,
{
    if row == 3 {
        6 + col as u8
    } else {
        row as u8 + 3 * col as u8
    }
}

proof fn lemma_or_bit(b: u8, k: u8, j: u8)
    requires
        k < 8,
        j < 8,
    ensures
        ((b | (1u8 << k)) >> j) & 1u8 == 1u8 <==> ((b >> j) & 1u8 == 1u8 || j == k),
{
    assert(((b | (1u8 << k)) >> j) & 1u8 == 1u8 <==> ((b >> j) & 1u8 == 1u8 || j == k)) by (bit_vector)
        requires
            k < 8,
            j < 8,
    ;
}

proof fn lemma_cell_index(width: nat, height: nat, x: int, y: int)
    requires
        0 <= x < 2 * width,
        0 <= y < 4 * height,
    ensures
        0 <= cell_of(width, x, y) < width * height,
{
    let cy = y / 4;
    let cx = x / 2;
    assert(cy < height);
    assert(cx < width);
    assert(cy * width + cx < width * height) by (nonlinear_arith)
        requires
            0 <= cy < height,
            0 <= cx < width,
    ;
    assert(0 <= cy * width) by (nonlinear_arith)
        requires
            0 <= cy,
    ;
}

proof fn lemma_cell_unique(width: nat, x: int, y: int, px: int, py: int)
    requires
        0 <= x < 2 * width,
        0 <= px < 2 * width,
        0 <= y,
        0 <= py,
        cell_of(width, x, y) == cell_of(width, px, py),
    ensures
        x / 2 == px / 2,
        y / 4 == py / 4,
{
    let a = y / 4;
    let c = py / 4;
    let b = x / 2;
    let d = px / 2;
    assert(a == c && b == d) by (nonlinear_arith)
        requires
            a * width + b == c * width + d,
            0 <= b < width,
            0 <= d < width,
            0 <= a,
            0 <= c,
    ;
}

proof fn lemma_dot_bit_unique(x: int, y: int, px: int, py: int)
    requires
        0 <= x,
        0 <= y,
        0 <= px,
        0 <= py,
        dot_bit(x, y) == dot_bit(px, py),
    ensures
        x % 2 == px % 2,
        y % 4 == py % 4,
{
}

impl BrailleCanvas {
    /// A blank canvas of `width` x `height` characters
    /// (`2 * width` x `4 * height` pixels).
    pub fn new(width: usize, height: usize) -> (r: Self)
        requires
            width * height <= usize::MAX,
        ensures
            r@.width == width,
            r@.height == height,
            r@.cells == Seq::new((width * height) as nat, |i: int| 0u8),
            r@.wf(),
    {
        let n = width * height;
        let pixels = vec![0u8; n];
        assert(pixels@ =~= Seq::new((width * height) as nat, |i: int| 0u8));
        BrailleCanvas { width, height, pixels }
    }

    fn set_dot(&mut self, cx: usize, cy: usize, col: usize, row: usize, Ghost(x): Ghost<int>, Ghost(y): Ghost<int>)
        requires
            old(self)@.wf(),
            cx < old(self)@.width,
            cy < old(self)@.height,
            col < 2,
            row < 4,
            x == 2 * cx + col,
            y == 4 * cy + row,
        ensures
            final(self)@.width == old(self)@.width,
            final(self)@.height == old(self)@.height,
            final(self)@.wf(),
            final(self)@.cells == old(self)@.cells.update(
                cell_of(old(self)@.width, x, y),
                old(self)@.cells[cell_of(old(self)@.width, x, y)] | (1u8 << dot_bit(x, y)),
            ),
            final(self)@.adds(old(self)@, |px: int, py: int| px == x && py == y),
    {
        proof {
            lemma_cell_index(self.width as nat, self.height as nat, x, y);
        }
        let len = self.pixels.len();
        assert(len == self.width * self.height);
        assert(cy * self.width + cx < self.width * self.height) by (nonlinear_arith)
            requires
                cy < self.height,
                cx < self.width,
        ;
        let bit = dot_bit_of(col, row);
        let idx = cy * self.width + cx;
        let v = self.pixels[idx] | (1u8 << bit);
        self.pixels.set(idx, v);
        proof {
            let o = old(self)@;
            let n = self@;
            assert forall|px: int, py: int|
                #[trigger] n.lit(px, py) == (o.lit(px, py) || (o.in_bounds(px, py) && px == x && py
                    == y)) by {
                if o.in_bounds(px, py) {
                    lemma_cell_index(o.width, o.height, px, py);
                    let pc = cell_of(o.width, px, py);
                    if pc == idx as int {
                        lemma_cell_unique(o.width, x, y, px, py);
                        lemma_or_bit(o.cells[pc], bit, dot_bit(px, py));
                        if dot_bit(px, py) == bit {
                            lemma_dot_bit_unique(x, y, px, py);
                        }
                    }
                }
            }
        }
    }

    /// Set the dot at pixel `(x, y)`; pixels off the canvas are ignored.
    pub fn set_pixel(&mut self, x: usize, y: usize)
        requires
            old(self)@.wf(),
        ensures
            final(self)@.width == old(self)@.width,
            final(self)@.height == old(self)@.height,
            final(self)@.wf(),
            final(self)@.cells == (if old(self)@.in_bounds(x as int, y as int) {
                old(self)@.cells.update(
                    cell_of(old(self)@.width, x as int, y as int),
                    old(self)@.cells[cell_of(old(self)@.width, x as int, y as int)] | (1u8 << dot_bit(x as int, y as int)),
                )
            } else {
                old(self)@.cells
            }),
            final(self)@.adds(old(self)@, |px: int, py: int| px == x && py == y),
    {
        let cx = x / 2;
        let cy = y / 4;
        if cx >= self.width || cy >= self.height {
            return;
        }
        self.set_dot(cx, cy, x % 2, y % 4, Ghost(x as int), Ghost(y as int));
    }

    /// Set the dot at a pixel position given as 64-bit signed integers;
    /// positions off the canvas are ignored.
    pub fn set_pixel_wide(&mut self, x: i64, y: i64)
        requires
            old(self)@.wf(),
        ensures
            final(self)@.adds(old(self)@, |px: int, py: int| px == x && py == y),
    {
        if x < 0 || y < 0 {
            return;
        }
        let cx = (x / 2) as u64;
        let cy = (y / 4) as u64;
        if cx >= self.width as u64 || cy >= self.height as u64 {
            return;
        }
        self.set_dot(
            cx as usize,
            cy as usize,
            (x % 2) as usize,
            (y % 4) as usize,
            Ghost(x as int),
            Ghost(y as int),
        );
    }

    /// Set the dot at a signed pixel position; negative coordinates and
    /// pixels off the canvas are ignored.
    pub fn set_pixel_signed(&mut self, x: i32, y: i32)
        requires
            old(self)@.wf(),
        ensures
            final(self)@.adds(old(self)@, |px: int, py: int| px == x && py == y),
    {
        if x >= 0 && y >= 0 {
            self.set_pixel(x as usize, y as usize);
        }
    }
}


proof fn lemma_row_cell(width: nat, height: nat, row: int, i: int)
    requires
        0 <= row < height,
        0 <= i <= width,
    ensures
        0 <= row * width + i <= (row + 1) * width,
        (row + 1) * width <= width * height,
        (row + 1) * width == row * width + width,
{
    assert(0 <= row * width + i <= (row + 1) * width && (row + 1) * width <= width * height
        && (row + 1) * width == row * width + width) by (nonlinear_arith)
        requires
            0 <= row < height,
            0 <= i <= width,
    ;
}

impl BrailleCanvas {
    fn push_row(&self, s: &mut String, row: usize)
        requires
            self@.wf(),
            row < self@.height,
        ensures
            final(s)@ == old(s)@ + self@.row_text(row as int),
    {
        let ghost start = s@;
        let mut i: usize = 0;
        while i < self.width
            invariant
                self@.wf(),
                row < self@.height,
                i <= self.width,
                s@ == start + self@.row_text(row as int).take(i as int),
            decreases self.width - i,
        {
            proof {
                lemma_row_cell(self.width as nat, self.height as nat, row as int, i as int);
            }
            let len = self.pixels.len();
            let b = self.pixels[row * self.width + i];
            let c = char_from_code(BRAILLE_BASE + b as u32);
            push_char(s, c);
            i = i + 1;
            assert(self@.row_text(row as int).take(i as int) =~= self@.row_text(row as int).take(
                (i - 1) as int,
            ).push(c));
        }
        assert(self@.row_text(row as int).take(i as int) =~= self@.row_text(row as int));
    }

    /// The whole canvas as text: one line of Braille characters per
    /// character row, separated by newlines.
    pub fn to_string(&self) -> (r: String)
        requires
            self@.wf(),
        ensures
            r@ == self@.text(),
    {
        let mut s = String::new();
        let mut row: usize = 0;
        while row < self.height
            invariant
                self@.wf(),
                row <= self.height,
                s@ == self@.text_upto(row as int),
            decreases self.height - row,
        {
            if row > 0 {
                push_char(&mut s, '\n');
            }
            self.push_row(&mut s, row);
            row = row + 1;
        }
        s
    }

    /// Character row `row` as text, or the empty string past the last row.
    pub fn row_to_string(&self, row: usize) -> (r: String)
        requires
            self@.wf(),
        ensures
            r@ == (if row < self@.height {
                self@.row_text(row as int)
            } else {
                Seq::empty()
            }),
    {
        let mut s = String::new();
        if row < self.height {
            self.push_row(&mut s, row);
        }
        s
    }

    /// Every character row as text, top to bottom.
    pub fn rows(&self) -> (r: Vec<String>)
        requires
            self@.wf(),
        ensures
            r.len() == self@.height,
            forall|i: int| 0 <= i < r.len() ==> #[trigger] r[i]@ == self@.row_text(i),
    {
        let mut out: Vec<String> = Vec::new();
        let mut row: usize = 0;
        while row < self.height
            invariant
                self@.wf(),
                row <= self.height,
                out.len() == row,
                forall|i: int| 0 <= i < out.len() ==> #[trigger] out[i]@ == self@.row_text(i),
            decreases self.height - row,
        {
            out.push(self.row_to_string(row));
            row = row + 1;
        }
        out
    }

    /// The cell bytes of character row `row`, without copying.
    pub fn row_raw(&self, row: usize) -> (r: &[u8])
        requires
            self@.wf(),
            row < self@.height,
        ensures
            r@ == self@.cells.subrange(row * self@.width, (row + 1) * self@.width),
    {
        proof {
            lemma_row_cell(self.width as nat, self.height as nat, row as int, 0);
        }
        let len = self.pixels.len();
        let start = row * self.width;
        &self.pixels.as_slice()[start..start + self.width]
    }

    /// Number of character rows.
    pub fn char_height(&self) -> (r: usize)
        ensures
            r == self@.height,
    {
        self.height
    }

    /// Number of character columns.
    pub fn char_width(&self) -> (r: usize)
        ensures
            r == self@.width,
    {
        self.width
    }
}

} // verus!
