//! Raster primitives drawn on a Braille canvas: lines, markers and discs.

use vstd::prelude::*;
use crate::canvas::{BrailleCanvas, CanvasView};

verus! {

/// `c2` is `c0` with the dots of `h` added, given that `c1` added those of
/// `f` to `c0` and `c2` added those of `g` to `c1`, and `h` is `f` or `g`.
proof fn lemma_adds_then(
    c0: CanvasView,
    c1: CanvasView,
    c2: CanvasView,
    f: spec_fn(int, int) -> bool,
    g: spec_fn(int, int) -> bool,
    h: spec_fn(int, int) -> bool,
)
    requires
        c1.adds(c0, f),
        c2.adds(c1, g),
        forall|x: int, y: int| #[trigger] h(x, y) == (f(x, y) || g(x, y)),
    ensures
        c2.adds(c0, h),
{
    assert forall|x: int, y: int| #[trigger]
        c2.lit(x, y) == (c0.lit(x, y) || (c0.in_bounds(x, y) && h(x, y))) by {
        assert(c1.lit(x, y) == (c0.lit(x, y) || (c0.in_bounds(x, y) && f(x, y))));
        assert(c2.lit(x, y) == (c1.lit(x, y) || (c1.in_bounds(x, y) && g(x, y))));
        assert(h(x, y) == (f(x, y) || g(x, y)));
    }
}

/// `c2` only gained dots of `h` over `c0`, given that `c1` only gained dots
/// of `f` over `c0` and `c2` only the dots of `g` over `c1`, each within `h`.
proof fn lemma_adds_within_then(
    c0: CanvasView,
    c1: CanvasView,
    c2: CanvasView,
    f: spec_fn(int, int) -> bool,
    g: spec_fn(int, int) -> bool,
    h: spec_fn(int, int) -> bool,
)
    requires
        c1.adds_within(c0, f),
        c2.adds(c1, g),
        forall|x: int, y: int| #[trigger] f(x, y) ==> h(x, y),
        forall|x: int, y: int| #[trigger] g(x, y) ==> h(x, y),
    ensures
        c2.adds_within(c0, h),
{
    assert forall|x: int, y: int| #[trigger] c2.lit(x, y) implies c0.lit(x, y) || h(x, y) by {
        assert(c2.lit(x, y) == (c1.lit(x, y) || (c1.in_bounds(x, y) && g(x, y))));
        if c1.lit(x, y) {
            assert(f(x, y) ==> h(x, y));
        } else {
            assert(g(x, y) ==> h(x, y));
        }
    }
    assert forall|x: int, y: int| #[trigger] c0.lit(x, y) implies c2.lit(x, y) by {
        assert(c1.lit(x, y));
        assert(c2.lit(x, y) == (c1.lit(x, y) || (c1.in_bounds(x, y) && g(x, y))));
    }
}

/// Set the dot at a signed pixel position given in 64 bits; positions off
/// the canvas are ignored.
fn plot(canvas: &mut BrailleCanvas, x: i64, y: i64)
    requires
        old(canvas)@.wf(),
    ensures
        final(canvas)@.adds(old(canvas)@, |px: int, py: int| px == x && py == y),
{
    canvas.set_pixel_wide(x, y);
}

/// Pixels of the cross drawn by `draw_marker`: a horizontal and a vertical
/// arm of `size` pixels on each side of the centre.
pub open spec fn marker_dot(x: int, y: int, size: int, px: int, py: int) -> bool {
    (py == y && x - size <= px <= x + size) || (px == x && y - size <= py <= y + size)
}

/// Pixels of the disc drawn by `draw_circle`.
pub open spec fn disc_dot(cx: int, cy: int, radius: int, px: int, py: int) -> bool {
    let dx = px - cx;
    let dy = py - cy;
    -radius <= dx <= radius && -radius <= dy <= radius && dx * dx + dy * dy <= radius * radius
}

/// Pixel `(px, py)` lies in the bounding box of the segment from `(x0, y0)`
/// to `(x1, y1)`.
pub open spec fn in_segment_box(x0: int, y0: int, x1: int, y1: int, px: int, py: int) -> bool {
    &&& (x0 <= px <= x1 || x1 <= px <= x0)
    &&& (y0 <= py <= y1 || y1 <= py <= y0)
}

/// Draw a point marker: a small cross of arms `size` pixels long.
pub fn draw_marker(canvas: &mut BrailleCanvas, x: i32, y: i32, size: i32)
    requires
        old(canvas)@.wf(),
    ensures
        final(canvas)@.adds(
            old(canvas)@,
            |px: int, py: int| marker_dot(x as int, y as int, size as int, px, py),
        ),
{
    let ghost c0 = canvas@;
    let s = size as i64;
    let mut i: i64 = -s;
    while i <= s
        invariant
            c0.wf(),
            s == size,
            (s >= 0 && -s <= i <= s + 1) || (s < 0 && i == -s),
            canvas@.adds(
                c0,
                |px: int, py: int|
                    (py == y && x - s <= px < x + i) || (px == x && y - s <= py < y + i),
            ),
        decreases s + 1 - i,
    {
        let ghost c1 = canvas@;
        plot(canvas, x as i64 + i, y as i64);
        let ghost c2 = canvas@;
        plot(canvas, x as i64, y as i64 + i);
        proof {
            let f = |px: int, py: int|
                (py == y && x - s <= px < x + i) || (px == x && y - s <= py < y + i);
            let g1 = |px: int, py: int| px == x + i && py == y;
            let h1 = |px: int, py: int|
                (py == y && x - s <= px < x + i + 1) || (px == x && y - s <= py < y + i);
            lemma_adds_then(c0, c1, c2, f, g1, h1);
            let g2 = |px: int, py: int| px == x && py == y + i;
            let h2 = |px: int, py: int|
                (py == y && x - s <= px < x + i + 1) || (px == x && y - s <= py < y + i + 1);
            lemma_adds_then(c0, c2, canvas@, h1, g2, h2);
        }
        i = i + 1;
    }
    proof {
        let f = |px: int, py: int| (py == y && x - s <= px < x + i) || (px == x && y - s <= py < y + i);
        assert forall|px: int, py: int| #[trigger]
            canvas@.lit(px, py) == (c0.lit(px, py) || (c0.in_bounds(px, py) && marker_dot(
                x as int,
                y as int,
                size as int,
                px,
                py,
            ))) by {
            assert(canvas@.lit(px, py) == (c0.lit(px, py) || (c0.in_bounds(px, py) && f(px, py))));
        }
    }
}

/// A canvas that added the dots of `f` also added those of any `g` that
/// agrees with `f` everywhere.
proof fn lemma_adds_same(c1: CanvasView, c0: CanvasView, f: spec_fn(int, int) -> bool, g: spec_fn(int, int) -> bool)
    requires
        c1.adds(c0, f),
        forall|x: int, y: int| #[trigger] f(x, y) == g(x, y),
    ensures
        c1.adds(c0, g),
{
    assert forall|x: int, y: int| #[trigger]
        c1.lit(x, y) == (c0.lit(x, y) || (c0.in_bounds(x, y) && g(x, y))) by {
        assert(f(x, y) == g(x, y));
    }
}

/// Pixels of the disc drawn before offset `(dx, dy)` in row-major order.
pub open spec fn disc_dot_before(cx: int, cy: int, radius: int, dx: int, dy: int, px: int, py: int) -> bool {
    disc_dot(cx, cy, radius, px, py) && (py - cy < dy || (py - cy == dy && px - cx < dx))
}

proof fn lemma_square_bound(d: int, r: int)
    requires
        0 <= r <= 0x8000_0000,
        -r <= d <= r,
    ensures
        0 <= d * d <= r * r,
        r * r <= 0x4000_0000_0000_0000,
{
    assert(0 <= d * d <= r * r && r * r <= 0x4000_0000_0000_0000) by (nonlinear_arith)
        requires
            0 <= r <= 0x8000_0000,
            -r <= d <= r,
    ;
}

/// Draw a filled disc of the given radius around `(cx, cy)`.
pub fn draw_circle(canvas: &mut BrailleCanvas, cx: i32, cy: i32, radius: i32)
    requires
        old(canvas)@.wf(),
    ensures
        final(canvas)@.adds(
            old(canvas)@,
            |px: int, py: int| disc_dot(cx as int, cy as int, radius as int, px, py),
        ),
{
    let ghost c0 = canvas@;
    let r = radius as i64;
    assert(0 <= (r as int) * (r as int) <= 0x4000_0000_0000_0000) by (nonlinear_arith)
        requires
            -0x8000_0000 <= r < 0x8000_0000,
    ;
    let rr = (r as i128) * (r as i128);
    let mut dy: i64 = -r;
    proof {
        lemma_adds_same(
            canvas@,
            c0,
            |px: int, py: int| false,
            |px: int, py: int| disc_dot_before(cx as int, cy as int, r as int, -r, -r, px, py),
        );
    }
    while dy <= r
        invariant
            c0.wf(),
            r == radius,
            rr == r * r,
            (r >= 0 && -r <= dy <= r + 1) || (r < 0 && dy == -r),
            canvas@.adds(
                c0,
                |px: int, py: int| disc_dot_before(cx as int, cy as int, r as int, -r, dy as int, px, py),
            ),
        decreases r + 1 - dy,
    {
        let mut dx: i64 = -r;
        proof {
            lemma_adds_same(
                canvas@,
                c0,
                |px: int, py: int| disc_dot_before(cx as int, cy as int, r as int, -r, dy as int, px, py),
                |px: int, py: int| disc_dot_before(cx as int, cy as int, r as int, dx as int, dy as int, px, py),
            );
        }
        while dx <= r
            invariant
                c0.wf(),
                r == radius,
                rr == r * r,
                r >= 0,
                -r <= dy <= r,
                -r <= dx <= r + 1,
                canvas@.adds(
                    c0,
                    |px: int, py: int| disc_dot_before(cx as int, cy as int, r as int, dx as int, dy as int, px, py),
                ),
            decreases r + 1 - dx,
        {
            proof {
                lemma_square_bound(dx as int, r as int);
                lemma_square_bound(dy as int, r as int);
            }
            let d2 = (dx as i128) * (dx as i128) + (dy as i128) * (dy as i128);
            let ghost c1 = canvas@;
            let ghost f = |px: int, py: int| disc_dot_before(cx as int, cy as int, r as int, dx as int, dy as int, px, py);
            let ghost h = |px: int, py: int| disc_dot_before(cx as int, cy as int, r as int, dx + 1, dy as int, px, py);
            if d2 <= rr {
                plot(canvas, cx as i64 + dx, cy as i64 + dy);
                proof {
                    let g = |px: int, py: int| px == cx + dx && py == cy + dy;
                    lemma_adds_then(c0, c1, canvas@, f, g, h);
                }
            } else {
                proof {
                    assert forall|px: int, py: int| #[trigger] f(px, py) == h(px, py) by {
                        if px == cx + dx && py == cy + dy {
                            assert((px - cx) * (px - cx) + (py - cy) * (py - cy) > r * r);
                        }
                    }
                    lemma_adds_same(canvas@, c0, f, h);
                }
            }
            dx = dx + 1;
        }
        proof {
            lemma_adds_same(
                canvas@,
                c0,
                |px: int, py: int| disc_dot_before(cx as int, cy as int, r as int, dx as int, dy as int, px, py),
                |px: int, py: int| disc_dot_before(cx as int, cy as int, r as int, -r, dy + 1, px, py),
            );
        }
        dy = dy + 1;
    }
    proof {
        lemma_adds_same(
            canvas@,
            c0,
            |px: int, py: int| disc_dot_before(cx as int, cy as int, r as int, -r, dy as int, px, py),
            |px: int, py: int| disc_dot(cx as int, cy as int, radius as int, px, py),
        );
    }
}

/// Draw the segment from `(x0, y0)` to `(x1, y1)` with Bresenham's
/// algorithm: both end points are set, and every dot set lies in the
/// segment's bounding box.
pub fn draw_line(canvas: &mut BrailleCanvas, x0: i32, y0: i32, x1: i32, y1: i32)
    requires
        old(canvas)@.wf(),
    ensures
        final(canvas)@.adds_within(
            old(canvas)@,
            |px: int, py: int| in_segment_box(x0 as int, y0 as int, x1 as int, y1 as int, px, py),
        ),
        old(canvas)@.in_bounds(x0 as int, y0 as int) ==> final(canvas)@.lit(x0 as int, y0 as int),
        old(canvas)@.in_bounds(x1 as int, y1 as int) ==> final(canvas)@.lit(x1 as int, y1 as int),
{
    let ghost c0 = canvas@;
    let ghost bbox = |px: int, py: int| in_segment_box(x0 as int, y0 as int, x1 as int, y1 as int, px, py);
    let ax = x0 as i64;
    let ay = y0 as i64;
    let bx = x1 as i64;
    let by = y1 as i64;
    let dx: i64 = if bx >= ax { bx - ax } else { ax - bx };
    let ady: i64 = if by >= ay { by - ay } else { ay - by };
    let dy: i64 = -ady;
    let sx: i64 = if ax < bx { 1 } else { -1 };
    let sy: i64 = if ay < by { 1 } else { -1 };
    let mut err: i64 = dx + dy;
    let mut x = ax;
    let mut y = ay;
    let ghost mut kx: int = 0;
    let ghost mut ky: int = 0;
    let ghost mut first = true;
    let mut done = false;
    proof {
        assert(dx * (ky + 1) + dy * (kx + 1) == dx + dy) by (nonlinear_arith)
            requires
                kx == 0,
                ky == 0,
        ;
    }
    while !done
        invariant
            c0.wf(),
            bbox == (|px: int, py: int| in_segment_box(x0 as int, y0 as int, x1 as int, y1 as int, px, py)),
            ax == x0,
            ay == y0,
            bx == x1,
            by == y1,
            dx == (if bx >= ax { bx - ax } else { ax - bx }),
            ady == (if by >= ay { by - ay } else { ay - by }),
            dy == -ady,
            sx == (if ax < bx { 1i64 } else { -1i64 }),
            sy == (if ay < by { 1i64 } else { -1i64 }),
            0 <= kx <= dx,
            0 <= ky <= ady,
            x == (if ax < bx { ax + kx } else { ax - kx }),
            y == (if ay < by { ay + ky } else { ay - ky }),
            err == dx * (ky + 1) + dy * (kx + 1),
            -2 * (dx + ady) <= err <= 2 * (dx + ady),
            first ==> kx == 0 && ky == 0 && !done,
            canvas@.adds_within(c0, bbox),
            !first && c0.in_bounds(ax as int, ay as int) ==> canvas@.lit(ax as int, ay as int),
            done && c0.in_bounds(bx as int, by as int) ==> canvas@.lit(bx as int, by as int),
        decreases (dx - kx) + (ady - ky) + (if done { 0int } else { 1int }),
    {
        let ghost c1 = canvas@;
        plot(canvas, x, y);
        proof {
            assert(in_segment_box(x0 as int, y0 as int, x1 as int, y1 as int, x as int, y as int));
            let g = |px: int, py: int| px == x && py == y;
            assert forall|px: int, py: int| #[trigger] g(px, py) implies bbox(px, py) by {
                assert(px == x && py == y);
                assert(in_segment_box(x0 as int, y0 as int, x1 as int, y1 as int, px, py));
            }
            lemma_adds_within_then(c0, c1, canvas@, bbox, g, bbox);
            first = false;
        }
        if x == bx && y == by {
            done = true;
        } else {
            let ghost kx_pre = kx;
            let ghost err_pre = err;
            let e2 = 2 * err;
            if e2 >= dy {
                if x == bx {
                    proof {
                        assert(ky + 1 <= ady);
                        assert(kx == dx);
                        assert(false) by (nonlinear_arith)
                            requires
                                ky + 1 <= ady,
                                ady > 0,
                                dx >= 0,
                                err == dx * (ky + 1) + dy * (kx + 1),
                                kx == dx,
                                dy == -ady,
                                2 * err >= -ady,
                        ;
                    }
                    done = true;
                } else {
                    proof {
                        assert(dy * (kx + 2) == dy * (kx + 1) + dy) by (nonlinear_arith);
                    }
                    err = err + dy;
                    x = x + sx;
                    proof {
                        kx = kx + 1;
                    }
                }
            }
            if !done && e2 <= dx {
                if y == by {
                    proof {
                        assert(kx_pre + 1 <= dx);
                        assert(ky == ady);
                        assert(false) by (nonlinear_arith)
                            requires
                                kx_pre + 1 <= dx,
                                dx > 0,
                                ady >= 0,
                                err_pre == dx * (ky + 1) + dy * (kx_pre + 1),
                                ky == ady,
                                dy == -ady,
                                2 * err_pre <= dx,
                        ;
                    }
                    done = true;
                } else {
                    proof {
                        assert(dx * (ky + 2) == dx * (ky + 1) + dx) by (nonlinear_arith);
                    }
                    err = err + dx;
                    y = y + sy;
                    proof {
                        ky = ky + 1;
                    }
                }
            }
        }
    }
}

/// Draw a line three pixels thick: the segment itself, shifted one pixel
/// right, and shifted one pixel down.
pub fn draw_thick_line(canvas: &mut BrailleCanvas, x0: i32, y0: i32, x1: i32, y1: i32)
    requires
        old(canvas)@.wf(),
        x0 < i32::MAX,
        x1 < i32::MAX,
        y0 < i32::MAX,
        y1 < i32::MAX,
    ensures
        final(canvas)@.adds_within(
            old(canvas)@,
            |px: int, py: int|
                in_segment_box(x0 as int, y0 as int, x1 as int, y1 as int, px, py)
                || in_segment_box(x0 + 1, y0 as int, x1 + 1, y1 as int, px, py)
                || in_segment_box(x0 as int, y0 + 1, x1 as int, y1 + 1, px, py),
        ),
        old(canvas)@.in_bounds(x0 as int, y0 as int) ==> final(canvas)@.lit(x0 as int, y0 as int),
        old(canvas)@.in_bounds(x1 as int, y1 as int) ==> final(canvas)@.lit(x1 as int, y1 as int),
{
    let ghost c0 = canvas@;
    draw_line(canvas, x0, y0, x1, y1);
    let ghost c1 = canvas@;
    draw_line(canvas, x0 + 1, y0, x1 + 1, y1);
    let ghost c2 = canvas@;
    draw_line(canvas, x0, y0 + 1, x1, y1 + 1);
    proof {
        let c3 = canvas@;
        assert forall|px: int, py: int| #[trigger] c3.lit(px, py) implies c0.lit(px, py)
            || in_segment_box(x0 as int, y0 as int, x1 as int, y1 as int, px, py)
            || in_segment_box(x0 + 1, y0 as int, x1 + 1, y1 as int, px, py)
            || in_segment_box(x0 as int, y0 + 1, x1 as int, y1 + 1, px, py) by {
            if !c2.lit(px, py) {
            } else if !c1.lit(px, py) {
            } else {
            }
        }
    }
}

} // verus!
