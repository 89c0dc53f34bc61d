//! Minimal RGBA rasterizer for the video panels (no image crate).

use vstd::prelude::*;

use crate::grid::{lemma_cell_in_range, lemma_cell_unique};

verus! {

/// Byte `c` (0 = red, 1 = green, 2 = blue, 3 = alpha) of pixel (x, y) of a
/// row-major RGBA buffer `w` pixels wide.
pub open spec fn pixel_byte(s: Seq<u8>, w: int, x: int, y: int, c: int) -> u8 {
    s[(y * w + x) * 4 + c]
}

/// Pixel (x, y) lies in the closed disc of radius `r` around (cx, cy).
pub open spec fn in_disc(cx: int, cy: int, r: int, x: int, y: int) -> bool {
    (x - cx) * (x - cx) + (y - cy) * (y - cy) <= r * r
}

/// Number of interpolation steps of a line: the larger coordinate span,
/// at least 1.
pub open spec fn line_steps(x0: int, y0: int, x1: int, y1: int) -> int {
    let dx = if x1 >= x0 {
        x1 - x0
    } else {
        x0 - x1
    };
    let dy = if y1 >= y0 {
        y1 - y0
    } else {
        y0 - y1
    };
    let m = if dx >= dy {
        dx
    } else {
        dy
    };
    if m >= 1 {
        m
    } else {
        1
    }
}

/// Coordinate `a + (s / n) * (b - a)` of step `s` out of `n`, rounded
/// towards `a` (the truncation of the non-negative interpolated value).
pub open spec fn lerp(a: int, b: int, s: int, n: int) -> int {
    if b >= a {
        a + (s * (b - a)) / n
    } else {
        a - (s * (a - b) + n - 1) / n
    }
}

/// Pixel (x, y) is one of the interpolation points 0..m of the line.
pub open spec fn on_line_before(x0: int, y0: int, x1: int, y1: int, m: int, x: int, y: int) -> bool {
    let n = line_steps(x0, y0, x1, y1);
    exists|s: int| 0 <= s < m && x == #[trigger] lerp(x0, x1, s, n) && y == lerp(y0, y1, s, n)
}

/// Pixel (x, y) is one of the interpolation points 0..=n of the line.
pub open spec fn on_line(x0: int, y0: int, x1: int, y1: int, x: int, y: int) -> bool {
    on_line_before(x0, y0, x1, y1, line_steps(x0, y0, x1, y1) + 1, x, y)
}

/// A line passes through both of its endpoints.
pub proof fn lemma_line_endpoints(x0: int, y0: int, x1: int, y1: int)
    ensures
        on_line(x0, y0, x1, y1, x0, y0),
        on_line(x0, y0, x1, y1, x1, y1),
{
    let n = line_steps(x0, y0, x1, y1);
    assert(n >= 1);
    vstd::arithmetic::div_mod::lemma_basic_div(n - 1, n);
    assert(lerp(x0, x1, 0, n) == x0 && lerp(y0, y1, 0, n) == y0);
    assert(lerp(x0, x1, n, n) == x1) by {
        if x1 >= x0 {
            vstd::arithmetic::div_mod::lemma_div_multiples_vanish(x1 - x0, n);
            vstd::arithmetic::mul::lemma_mul_is_commutative(n, x1 - x0);
        } else {
            assert((n * (x0 - x1) + n - 1) / n == x0 - x1) by {
                vstd::arithmetic::div_mod::lemma_fundamental_div_mod_converse(n * (x0 - x1) + n - 1, n, x0 - x1, n - 1);
            }
        }
    }
    assert(lerp(y0, y1, n, n) == y1) by {
        if y1 >= y0 {
            vstd::arithmetic::div_mod::lemma_div_multiples_vanish(y1 - y0, n);
            vstd::arithmetic::mul::lemma_mul_is_commutative(n, y1 - y0);
        } else {
            assert((n * (y0 - y1) + n - 1) / n == y0 - y1) by {
                vstd::arithmetic::div_mod::lemma_fundamental_div_mod_converse(n * (y0 - y1) + n - 1, n, y0 - y1, n - 1);
            }
        }
    }
}

/// Along its own span `n`, a coordinate moves by exactly one per step.
proof fn lemma_lerp_unit(a: int, b: int, s: int)
    requires
        a != b,
        0 <= s <= (if b >= a { b - a } else { a - b }),
    ensures
        lerp(a, b, s, if b >= a { b - a } else { a - b }) == if b >= a { a + s } else { a - s },
{
    if b >= a {
        let n = b - a;
        vstd::arithmetic::div_mod::lemma_fundamental_div_mod_converse(s * n, n, s, 0);
    } else {
        let n = a - b;
        vstd::arithmetic::div_mod::lemma_fundamental_div_mod_converse(s * n + n - 1, n, s, n - 1);
    }
}

/// A coordinate whose span is at most the step count stays between its
/// endpoints at every step.
proof fn lemma_lerp_between(a: int, b: int, s: int, n: int)
    requires
        1 <= n,
        0 <= s <= n,
        (if b >= a { b - a } else { a - b }) <= n,
    ensures
        (if a <= b { a } else { b }) <= lerp(a, b, s, n) <= (if a <= b { b } else { a }),
{
    if b >= a {
        let d = b - a;
        assert(0 <= s * d <= n * d) by (nonlinear_arith)
            requires
                0 <= s <= n,
                0 <= d,
        ;
        vstd::arithmetic::div_mod::lemma_div_is_ordered(0, s * d, n);
        vstd::arithmetic::div_mod::lemma_div_is_ordered(s * d, n * d, n);
        vstd::arithmetic::div_mod::lemma_div_multiples_vanish(d, n);
        assert(0int / n == 0);
    } else {
        let d = a - b;
        assert(0 <= s * d <= n * d) by (nonlinear_arith)
            requires
                0 <= s <= n,
                0 <= d,
        ;
        vstd::arithmetic::div_mod::lemma_div_is_ordered(0, s * d + n - 1, n);
        vstd::arithmetic::div_mod::lemma_div_is_ordered(s * d + n - 1, n * d + n - 1, n);
        vstd::arithmetic::div_mod::lemma_fundamental_div_mod_converse(n * d + n - 1, n, d, n - 1);
        assert(0int / n == 0);
    }
}

/// The step count of a line is the larger of its two spans: a line at
/// least as tall as it is wide lights one pixel in every row between its
/// endpoints, and that pixel lies within the line's column range.
pub proof fn lemma_steep_line_lights_every_row(x0: int, y0: int, x1: int, y1: int, y: int) -> (x: int)
    requires
        (if x1 >= x0 { x1 - x0 } else { x0 - x1 }) <= (if y1 >= y0 { y1 - y0 } else { y0 - y1 }),
        (if y0 <= y1 { y0 } else { y1 }) <= y <= (if y0 <= y1 { y1 } else { y0 }),
    ensures
        on_line(x0, y0, x1, y1, x, y),
        (if x0 <= x1 { x0 } else { x1 }) <= x <= (if x0 <= x1 { x1 } else { x0 }),
{
    if y0 == y1 {
        lemma_line_endpoints(x0, y0, x1, y1);
        x0
    } else {
        let n = line_steps(x0, y0, x1, y1);
        let s = if y1 >= y0 { y - y0 } else { y0 - y };
        assert(n == (if y1 >= y0 { y1 - y0 } else { y0 - y1 }));
        lemma_lerp_unit(y0, y1, s);
        lemma_lerp_between(x0, x1, s, n);
        let x = lerp(x0, x1, s, n);
        assert(lerp(y0, y1, s, n) == y);
        assert(on_line_before(x0, y0, x1, y1, n + 1, x, y));
        x
    }
}

/// Symmetrically, a line at least as wide as it is tall lights one pixel in
/// every column between its endpoints, within its row range.
pub proof fn lemma_shallow_line_lights_every_column(x0: int, y0: int, x1: int, y1: int, x: int) -> (y: int)
    requires
        (if y1 >= y0 { y1 - y0 } else { y0 - y1 }) <= (if x1 >= x0 { x1 - x0 } else { x0 - x1 }),
        (if x0 <= x1 { x0 } else { x1 }) <= x <= (if x0 <= x1 { x1 } else { x0 }),
    ensures
        on_line(x0, y0, x1, y1, x, y),
        (if y0 <= y1 { y0 } else { y1 }) <= y <= (if y0 <= y1 { y1 } else { y0 }),
{
    if x0 == x1 {
        lemma_line_endpoints(x0, y0, x1, y1);
        y0
    } else {
        let n = line_steps(x0, y0, x1, y1);
        let s = if x1 >= x0 { x - x0 } else { x0 - x };
        assert(n == (if x1 >= x0 { x1 - x0 } else { x0 - x1 }));
        lemma_lerp_unit(x0, x1, s);
        lemma_lerp_between(y0, y1, s, n);
        let y = lerp(y0, y1, s, n);
        assert(lerp(x0, x1, s, n) == x);
        assert(on_line_before(x0, y0, x1, y1, n + 1, x, y));
        y
    }
}

/// A vertical line covers every pixel between its endpoints.
pub proof fn lemma_vertical_line_covers(x: int, y0: int, y1: int, y: int)
    requires
        (if y0 <= y1 { y0 } else { y1 }) <= y <= (if y0 <= y1 { y1 } else { y0 }),
    ensures
        on_line(x, y0, x, y1, x, y),
{
    let x2 = lemma_steep_line_lights_every_row(x, y0, x, y1, y);
    assert(x2 == x);
}

/// A horizontal line covers every pixel between its endpoints.
pub proof fn lemma_horizontal_line_covers(x0: int, x1: int, y: int, x: int)
    requires
        x0 <= x <= x1,
    ensures
        on_line(x0, y, x1, y, x, y),
{
    let n = line_steps(x0, y, x1, y);
    let s = x - x0;
    if x1 > x0 {
        assert(n == x1 - x0);
        assert(s * (x1 - x0) / n == s) by {
            vstd::arithmetic::div_mod::lemma_div_multiples_vanish(s, n);
            vstd::arithmetic::mul::lemma_mul_is_commutative(n, s);
        }
        assert(lerp(x0, x1, s, n) == x && lerp(y, y, s, n) == y);
    } else {
        assert(n == 1 && s == 0);
        assert(lerp(x0, x1, 0, n) == x && lerp(y, y, 0, n) == y);
    }
}

/// A simple RGBA canvas.
#[derive(Clone, Debug)]
pub struct Canvas {
    pub width: usize,
    pub height: usize,
    pub rgba: Vec<u8>,
}

/// Distinct pixels occupy disjoint groups of four bytes inside the buffer.
proof fn lemma_pixel_bytes(w: int, h: int, x: int, y: int, x2: int, y2: int, c: int)
    requires
        0 <= x < w,
        0 <= y < h,
        0 <= x2 < w,
        0 <= y2 < h,
        0 <= c < 4,
    ensures
        0 <= (y * w + x) * 4 + c < w * h * 4,
        !(x == x2 && y == y2) ==> ((y * w + x) * 4 + c < (y2 * w + x2) * 4 || (y * w + x) * 4 + c >= (
        y2 * w + x2) * 4 + 4),
{
    lemma_cell_in_range(w, h, x, y);
    lemma_cell_in_range(w, h, x2, y2);
    if y * w + x == y2 * w + x2 {
        lemma_cell_unique(w, x, y, x2, y2);
    }
}

/// A point of the closed disc is at most `r` away along each axis.
proof fn lemma_disc_bounds(a: int, b: int, r: int)
    requires
        0 <= r,
        a * a + b * b <= r * r,
    ensures
        -r <= a <= r,
        -r <= b <= r,
{
    assert(-r <= a <= r) by (nonlinear_arith)
        requires
            0 <= r,
            a * a + b * b <= r * r,
    ;
    assert(-r <= b <= r) by (nonlinear_arith)
        requires
            0 <= r,
            a * a + b * b <= r * r,
    ;
}

/// Exact interpolation `lerp(a, b, s, n)` in machine integers; it lies
/// between `a` and `b`.
fn interpolate(a: usize, b: usize, s: usize, n: usize) -> (r: usize)
    requires
        0 < n,
        s <= n,
    ensures
        r as int == lerp(a as int, b as int, s as int, n as int),
{
    proof {
        assert(s * n <= usize::MAX * usize::MAX) by (nonlinear_arith)
            requires
                s <= n,
                n <= usize::MAX,
        ;
    }
    if b >= a {
        let d = b - a;
        proof {
            assert(s * d <= n * d) by (nonlinear_arith)
                requires
                    s <= n,
                    0 <= d,
            ;
            assert(s * d <= usize::MAX * usize::MAX) by (nonlinear_arith)
                requires
                    s <= usize::MAX,
                    d <= usize::MAX,
                    0 <= d,
            ;
            assert(usize::MAX * usize::MAX < u128::MAX) by (nonlinear_arith)
                requires
                    usize::MAX <= 0xffff_ffff_ffff_ffff,
            ;
        }
        let q = (s as u128 * d as u128) / n as u128;
        proof {
            let x: int = s * d;
            let nn: int = n as int;
            let qq: int = q as int;
            vstd::arithmetic::div_mod::lemma_fundamental_div_mod(x, nn);
            assert(qq == x / nn);
            assert(qq <= d) by (nonlinear_arith)
                requires
                    x == nn * qq + x % nn,
                    0 <= x % nn,
                    x <= nn * d,
                    0 < nn,
            ;
        }
        a + q as usize
    } else {
        let d = a - b;
        proof {
            assert(s * d <= n * d) by (nonlinear_arith)
                requires
                    s <= n,
                    0 <= d,
            ;
            assert(s * d + n <= usize::MAX * usize::MAX + usize::MAX) by (nonlinear_arith)
                requires
                    s <= usize::MAX,
                    d <= usize::MAX,
                    n <= usize::MAX,
                    0 <= d,
            ;
            assert(usize::MAX * usize::MAX + usize::MAX < u128::MAX) by (nonlinear_arith)
                requires
                    usize::MAX <= 0xffff_ffff_ffff_ffff,
            ;
        }
        let q = (s as u128 * d as u128 + n as u128 - 1) / n as u128;
        proof {
            let x: int = s * d + n - 1;
            let nn: int = n as int;
            let qq: int = q as int;
            vstd::arithmetic::div_mod::lemma_fundamental_div_mod(x, nn);
            assert(qq == x / nn);
            assert(qq <= d) by (nonlinear_arith)
                requires
                    x == nn * qq + x % nn,
                    0 <= x % nn,
                    x <= nn * d + nn - 1,
                    0 < nn,
            ;
        }
        a - q as usize
    }
}

impl Canvas {
    /// Well-formedness: one RGBA quadruple per pixel.
    pub open spec fn wf(&self) -> bool {
        &&& self.width * self.height * 4 <= usize::MAX
        &&& self.rgba@.len() == self.width * self.height * 4
    }

    /// Byte `c` of pixel (x, y).
    pub open spec fn byte_at(&self, x: int, y: int, c: int) -> u8 {
        pixel_byte(self.rgba@, self.width as int, x, y, c)
    }

    /// New canvas starting opaque black (alpha 255, so video frames are not
    /// transparent).
    pub fn new(width: usize, height: usize) -> (c: Canvas)
        requires
            width * height * 4 <= usize::MAX,
        ensures
            c.wf(),
            c.width == width,
            c.height == height,
            forall|k: int| 0 <= k < c.rgba@.len() ==> #[trigger] c.rgba@[k] == if k % 4 == 3 {
                255u8
            } else {
                0u8
            },
    {
        proof {
            assert(width * height <= width * height * 4) by (nonlinear_arith);
        }
        let n = width * height * 4;
        let mut rgba: Vec<u8> = Vec::with_capacity(n);
        let mut k: usize = 0;
        while k < n
            invariant
                k <= n,
                rgba@.len() == k,
                forall|j: int| 0 <= j < k ==> #[trigger] rgba@[j] == if j % 4 == 3 {
                    255u8
                } else {
                    0u8
                },
            decreases n - k,
        {
            if k % 4 == 3 {
                rgba.push(255);
            } else {
                rgba.push(0);
            }
            k = k + 1;
        }
        Canvas { width, height, rgba }
    }

    /// Fill the whole canvas with one color.
    pub fn fill(&mut self, color: [u8; 4])
        requires
            old(self).wf(),
        ensures
            final(self).wf(),
            final(self).width == old(self).width,
            final(self).height == old(self).height,
            final(self).rgba@.len() == old(self).rgba@.len(),
            forall|k: int| 0 <= k < final(self).rgba@.len() ==> #[trigger] final(self).rgba@[k] == color@[k % 4],
    {
        let n = self.rgba.len();
        let mut k: usize = 0;
        while k < n
            invariant
                self.wf(),
                self.width == old(self).width,
                self.height == old(self).height,
                n == self.rgba@.len(),
                k <= n,
                forall|j: int| 0 <= j < k ==> #[trigger] self.rgba@[j] == color@[j % 4],
            decreases n - k,
        {
            self.rgba.set(k, color[k % 4]);
            k = k + 1;
        }
    }

    /// Set one pixel (out-of-bounds is ignored).
    pub fn set(&mut self, x: usize, y: usize, color: [u8; 4])
        requires
            old(self).wf(),
        ensures
            final(self).wf(),
            final(self).width == old(self).width,
            final(self).height == old(self).height,
            final(self).rgba@.len() == old(self).rgba@.len(),
            x < old(self).width && y < old(self).height ==> forall|px: int, py: int, c: int|
                0 <= px < old(self).width && 0 <= py < old(self).height && 0 <= c < 4
                    ==> #[trigger] final(self).byte_at(px, py, c) == if px == x && py == y {
                    color@[c]
                } else {
                    old(self).byte_at(px, py, c)
                },
            !(x < old(self).width && y < old(self).height) ==> final(self).rgba@ == old(self).rgba@,
    {
        if x < self.width && y < self.height {
            let ghost w = self.width as int;
            let ghost h = self.height as int;
            proof {
                lemma_pixel_bytes(w, h, x as int, y as int, x as int, y as int, 3);
            }
            let i = (y * self.width + x) * 4;
            self.rgba.set(i, color[0]);
            self.rgba.set(i + 1, color[1]);
            self.rgba.set(i + 2, color[2]);
            self.rgba.set(i + 3, color[3]);
            proof {
                assert forall|px: int, py: int, c: int|
                    0 <= px < w && 0 <= py < h && 0 <= c < 4 implies #[trigger] self.byte_at(px, py, c)
                    == if px == x && py == y {
                    color@[c]
                } else {
                    old(self).byte_at(px, py, c)
                } by {
                    lemma_pixel_bytes(w, h, px, py, x as int, y as int, c);
                }
            }
        }
    }

    /// Filled disc via integer radius scan (small radii only).
    pub fn filled_disc(&mut self, cx: usize, cy: usize, radius: usize, color: [u8; 4])
        requires
            old(self).wf(),
            radius * radius * 2 <= isize::MAX,
            cx + radius <= isize::MAX,
            cy + radius <= isize::MAX,
        ensures
            final(self).wf(),
            final(self).width == old(self).width,
            final(self).height == old(self).height,
            final(self).rgba@.len() == old(self).rgba@.len(),
            forall|px: int, py: int, c: int|
                0 <= px < old(self).width && 0 <= py < old(self).height && 0 <= c < 4
                    ==> #[trigger] final(self).byte_at(px, py, c) == if in_disc(
                    cx as int,
                    cy as int,
                    radius as int,
                    px,
                    py,
                ) {
                    color@[c]
                } else {
                    old(self).byte_at(px, py, c)
                },
    {
        let ghost w = self.width as int;
        let ghost h = self.height as int;
        let ghost orig = self.rgba@;
        let ghost rr = radius as int;
        proof {
            assert(rr <= isize::MAX / 2) by (nonlinear_arith)
                requires
                    0 <= rr,
                    rr * rr * 2 <= isize::MAX,
            ;
            assert forall|px: int, py: int, c: int|
                0 <= px < w && 0 <= py < h && 0 <= c < 4 implies #[trigger] self.byte_at(px, py, c)
                == if in_disc(cx as int, cy as int, rr, px, py) && py - cy < -rr {
                color@[c]
            } else {
                pixel_byte(orig, w, px, py, c)
            } by {
                if in_disc(cx as int, cy as int, rr, px, py) {
                    lemma_disc_bounds(px - cx, py - cy, rr);
                }
            }
        }
        let r = radius as isize;
        let mut dy: isize = -r;
        while dy <= r
            invariant
                self.wf(),
                self.width == w,
                self.height == h,
                self.rgba@.len() == orig.len(),
                r == rr,
                0 <= rr,
                rr * rr * 2 <= isize::MAX,
                rr <= isize::MAX / 2,
                cx + rr <= isize::MAX,
                cy + rr <= isize::MAX,
                -r <= dy <= r + 1,
                forall|px: int, py: int, c: int|
                    0 <= px < w && 0 <= py < h && 0 <= c < 4 ==> #[trigger] self.byte_at(px, py, c)
                        == if in_disc(cx as int, cy as int, rr, px, py) && py - cy < dy {
                        color@[c]
                    } else {
                        pixel_byte(orig, w, px, py, c)
                    },
            decreases r + 1 - dy,
        {
            proof {
                assert forall|px: int, py: int, c: int|
                    0 <= px < w && 0 <= py < h && 0 <= c < 4 implies #[trigger] self.byte_at(px, py, c)
                    == if in_disc(cx as int, cy as int, rr, px, py) && (py - cy < dy || (py - cy == dy
                    && px - cx < -rr)) {
                    color@[c]
                } else {
                    pixel_byte(orig, w, px, py, c)
                } by {
                    if in_disc(cx as int, cy as int, rr, px, py) {
                        lemma_disc_bounds(px - cx, py - cy, rr);
                    }
                }
            }
            let mut dx: isize = -r;
            while dx <= r
                invariant
                    self.wf(),
                    self.width == w,
                    self.height == h,
                    self.rgba@.len() == orig.len(),
                    r == rr,
                    0 <= rr,
                    rr * rr * 2 <= isize::MAX,
                rr <= isize::MAX / 2,
                    cx + rr <= isize::MAX,
                    cy + rr <= isize::MAX,
                    -r <= dy <= r,
                    -r <= dx <= r + 1,
                    forall|px: int, py: int, c: int|
                        0 <= px < w && 0 <= py < h && 0 <= c < 4 ==> #[trigger] self.byte_at(px, py, c)
                            == if in_disc(cx as int, cy as int, rr, px, py) && (py - cy < dy || (py
                            - cy == dy && px - cx < dx)) {
                            color@[c]
                        } else {
                            pixel_byte(orig, w, px, py, c)
                        },
                decreases r + 1 - dx,
            {
                proof {
                    assert(0 <= dx * dx <= rr * rr && 0 <= dy * dy <= rr * rr) by (nonlinear_arith)
                        requires
                            -rr <= dx <= rr,
                            -rr <= dy <= rr,
                    ;
                }
                if dx * dx + dy * dy <= r * r {
                    let x = cx as isize + dx;
                    let y = cy as isize + dy;
                    if x >= 0 && y >= 0 {
                        let ghost prev = *self;
                        self.set(x as usize, y as usize, color);
                        proof {
                            assert forall|px: int, py: int, c: int|
                                0 <= px < w && 0 <= py < h && 0 <= c < 4 implies #[trigger] self.byte_at(
                                px,
                                py,
                                c,
                            ) == if in_disc(cx as int, cy as int, rr, px, py) && (py - cy < dy || (
                            py - cy == dy && px - cx < dx + 1)) {
                                color@[c]
                            } else {
                                pixel_byte(orig, w, px, py, c)
                            } by {
                                assert(prev.byte_at(px, py, c) == if in_disc(
                                    cx as int,
                                    cy as int,
                                    rr,
                                    px,
                                    py,
                                ) && (py - cy < dy || (py - cy == dy && px - cx < dx)) {
                                    color@[c]
                                } else {
                                    pixel_byte(orig, w, px, py, c)
                                });
                            }
                        }
                    }
                }
                dx = dx + 1;
            }
            proof {
                assert forall|px: int, py: int, c: int|
                    0 <= px < w && 0 <= py < h && 0 <= c < 4 implies #[trigger] self.byte_at(px, py, c)
                    == if in_disc(cx as int, cy as int, rr, px, py) && py - cy < dy + 1 {
                    color@[c]
                } else {
                    pixel_byte(orig, w, px, py, c)
                } by {
                    if in_disc(cx as int, cy as int, rr, px, py) {
                        lemma_disc_bounds(px - cx, py - cy, rr);
                    }
                }
            }
            dy = dy + 1;
        }
        proof {
            assert forall|px: int, py: int, c: int|
                0 <= px < w && 0 <= py < h && 0 <= c < 4 implies #[trigger] self.byte_at(px, py, c)
                == if in_disc(cx as int, cy as int, rr, px, py) {
                color@[c]
            } else {
                pixel_byte(orig, w, px, py, c)
            } by {
                if in_disc(cx as int, cy as int, rr, px, py) {
                    lemma_disc_bounds(px - cx, py - cy, rr);
                }
            }
        }
    }

    /// Straight line by linear interpolation: the `n + 1` points
    /// `lerp(p0, p1, s, n)`, `s = 0..=n`, where `n` is the larger coordinate
    /// span (at least 1). Each point is the exact rational interpolant
    /// `p0 + s * (p1 - p0) / n` truncated towards zero, computed in integers
    /// with no rounding error, so along the major axis every pixel between
    /// the endpoints is drawn (as in Bresenham's algorithm). Interpolating in
    /// floating point instead can fall just below an integer and skip a
    /// pixel: on `line(0, 0, 49, 0)` it would miss x = 1.
    pub fn line(&mut self, x0: usize, y0: usize, x1: usize, y1: usize, color: [u8; 4])
        requires
            old(self).wf(),
        ensures
            final(self).wf(),
            final(self).width == old(self).width,
            final(self).height == old(self).height,
            final(self).rgba@.len() == old(self).rgba@.len(),
            forall|px: int, py: int, c: int|
                0 <= px < old(self).width && 0 <= py < old(self).height && 0 <= c < 4
                    ==> #[trigger] final(self).byte_at(px, py, c) == if on_line(
                    x0 as int,
                    y0 as int,
                    x1 as int,
                    y1 as int,
                    px,
                    py,
                ) {
                    color@[c]
                } else {
                    old(self).byte_at(px, py, c)
                },
    {
        let ghost w = self.width as int;
        let ghost h = self.height as int;
        let ghost orig = self.rgba@;
        let dx = if x1 >= x0 {
            x1 - x0
        } else {
            x0 - x1
        };
        let dy = if y1 >= y0 {
            y1 - y0
        } else {
            y0 - y1
        };
        let m = if dx >= dy {
            dx
        } else {
            dy
        };
        let steps = if m >= 1 {
            m
        } else {
            1
        };
        let ghost n = line_steps(x0 as int, y0 as int, x1 as int, y1 as int);
        assert(steps as int == n);
        let mut s: usize = 0;
        loop
            invariant_except_break
                self.wf(),
                self.width == w,
                self.height == h,
                self.rgba@.len() == orig.len(),
                steps as int == n,
                n == line_steps(x0 as int, y0 as int, x1 as int, y1 as int),
                0 < n,
                s <= steps,
                forall|px: int, py: int, c: int|
                    0 <= px < w && 0 <= py < h && 0 <= c < 4 ==> #[trigger] self.byte_at(px, py, c)
                        == if on_line_before(x0 as int, y0 as int, x1 as int, y1 as int, s as int, px, py) {
                        color@[c]
                    } else {
                        pixel_byte(orig, w, px, py, c)
                    },
            ensures
                self.wf(),
                self.width == w,
                self.height == h,
                self.rgba@.len() == orig.len(),
                forall|px: int, py: int, c: int|
                    0 <= px < w && 0 <= py < h && 0 <= c < 4 ==> #[trigger] self.byte_at(px, py, c)
                        == if on_line_before(x0 as int, y0 as int, x1 as int, y1 as int, n + 1, px, py) {
                        color@[c]
                    } else {
                        pixel_byte(orig, w, px, py, c)
                    },
            decreases steps - s,
        {
            let x = interpolate(x0, x1, s, steps);
            let y = interpolate(y0, y1, s, steps);
            let ghost prev = *self;
            self.set(x, y, color);
            proof {
                assert forall|px: int, py: int, c: int|
                    0 <= px < w && 0 <= py < h && 0 <= c < 4 implies #[trigger] self.byte_at(px, py, c)
                    == if on_line_before(x0 as int, y0 as int, x1 as int, y1 as int, s + 1, px, py) {
                    color@[c]
                } else {
                    pixel_byte(orig, w, px, py, c)
                } by {
                    let before = on_line_before(x0 as int, y0 as int, x1 as int, y1 as int, s as int, px, py);
                    let after = on_line_before(x0 as int, y0 as int, x1 as int, y1 as int, s + 1, px, py);
                    assert(prev.byte_at(px, py, c) == if before {
                        color@[c]
                    } else {
                        pixel_byte(orig, w, px, py, c)
                    });
                    if px == x && py == y {
                        assert(lerp(x0 as int, x1 as int, s as int, n) == x);
                        assert(lerp(y0 as int, y1 as int, s as int, n) == y);
                        assert(after);
                    } else {
                        if after {
                            let t = choose|t: int|
                                0 <= t < s + 1 && px == #[trigger] lerp(x0 as int, x1 as int, t, n) && py
                                    == lerp(y0 as int, y1 as int, t, n);
                            if t == s {
                                assert(px == x && py == y);
                            }
                            assert(before);
                        }
                        if before {
                            let t = choose|t: int|
                                0 <= t < s && px == #[trigger] lerp(x0 as int, x1 as int, t, n) && py
                                    == lerp(y0 as int, y1 as int, t, n);
                            assert(after);
                        }
                    }
                }
            }
            if s == steps {
                break ;
            }
            s = s + 1;
        }
    }

    /// The RGBA bytes, row-major.
    pub fn into_pixels(self) -> (p: Vec<u8>)
        ensures
            p@ == self.rgba@,
    {
        self.rgba
    }
}

} // verus!
