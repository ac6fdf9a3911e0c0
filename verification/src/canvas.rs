use vstd::prelude::*;

use crate::raster::{
    abs, advance_sum, black, disk, glyph_colors, glyph_region, glyph_scan, half_width,
    image_colors, image_fits, lemma_between, lemma_channels_bits, lemma_index_in_bounds,
    lemma_line_init, lemma_max_height_nonneg, lemma_measured_width_nonneg, lemma_mix_bound,
    lemma_paint_empty, lemma_paint_same_region, lemma_paint_with_same_region,
    lemma_plot_extends_paint, lemma_plot_extends_paint_with, lemma_size_as_i32,
    lemma_small_radius, lemma_sq_le, lemma_walk_step, line_fits, line_points, line_walk, max,
    max_height, measured_width, min, mix, packed, paint, paint_with, plot, rect, rect_fits,
    rect_prefix, ring, ring_fits, rounded_rect_fits, rounded_rect_paint, sampled_colors,
    scanned, square, square_fits, stamps, text_fits, text_paint, walk_fits, walk_inv,
};

verus! {

// ── Color ─────────────────────────────────────────────────────────────────────

/// An 8-bit RGBA color.
#[derive(Clone, Copy, Debug, PartialEq, Eq, Structural)]
pub struct Color {
    pub r: u8,
    pub g: u8,
    pub b: u8,
    pub a: u8,
}

impl Color {
    /// An opaque color.
    pub fn rgb(r: u8, g: u8, b: u8) -> (c: Self)
        ensures
            c == (Color { r, g, b, a: 255 }),
    {
        Self { r, g, b, a: 255 }
    }

    /// A color with the given alpha.
    pub fn rgba(r: u8, g: u8, b: u8, a: u8) -> (c: Self)
        ensures
            c == (Color { r, g, b, a }),
    {
        Self { r, g, b, a }
    }
}

/// Packs three channels into a pixel.
pub fn pack(r: u8, g: u8, b: u8) -> (p: u32)
    ensures
        p == packed(r as int, g as int, b as int),
{
    let p = ((r as u32) << 16) | ((g as u32) << 8) | b as u32;
    assert(((r as u32) << 16) | ((g as u32) << 8) | (b as u32)
        == (r as u32) * 0x10000 + (g as u32) * 0x100 + (b as u32)) by (bit_vector);
    p
}

/// One channel of `src` over `dst`, computed in 32-bit integers.
fn mix_channel(src: u8, dst: u8, a: u8) -> (m: u8)
    requires
        0 < a < 255,
    ensures
        m == mix(src as int, dst as int, a as int),
{
    let af = a as u32;
    proof {
        lemma_mix_bound(src as int, dst as int, a as int);
        assert(src as u32 * af <= 255 * 255) by (nonlinear_arith)
            requires src <= 255, af <= 255;
        assert(dst as u32 * (255 - af) <= 255 * 255) by (nonlinear_arith)
            requires dst <= 255, af <= 255;
    }
    ((src as u32 * af + dst as u32 * (255 - af)) / 255) as u8
}

// ── Canvas ────────────────────────────────────────────────────────────────────

/// Pixel buffer: each u32 = 0x00RRGGBB, row-major, `width` pixels per row.
pub struct Canvas {
    pub buf: Vec<u32>,
    pub width: u32,
    pub height: u32,
}

/// An RGBA image: `width` pixels per row, row after row.
pub struct Image {
    pub width: u32,
    pub height: u32,
    pub pixels: Vec<Color>,
}

impl Image {
    /// The image holds exactly one color per point.
    pub open spec fn wf(&self) -> bool {
        self.pixels@.len() == self.width * self.height
    }
}

/// A rasterized glyph: its placement and its coverage bitmap.
pub struct Glyph {
    /// Offset of the bitmap's left edge from the pen.
    pub xmin: i32,
    /// Offset of the bitmap's bottom edge above the baseline.
    pub ymin: i32,
    pub width: u32,
    pub height: u32,
    /// How far the pen moves after the glyph, in whole pixels.
    pub advance: i32,
    /// Coverage from 0 to 255, `width` values per row.
    pub coverage: Vec<u8>,
}

impl Canvas {
    /// The buffer holds exactly one pixel per point of the canvas.
    pub open spec fn wf(&self) -> bool {
        self.buf@.len() == self.width * self.height
    }

    /// A black canvas of the given size.
    pub fn new(width: u32, height: u32) -> (c: Self)
        requires
            width * height <= u32::MAX,
        ensures
            c.wf(),
            c.width == width,
            c.height == height,
            c.buf@ == black(width * height),
    {
        let buf = vec![0u32; (width * height) as usize];
        assert(buf@ =~= black(width * height));
        Self { buf, width, height }
    }

    /// Sets the size; the buffer keeps its first pixels, is cut or grown
    /// with black to the new number of pixels (rows are not moved).
    pub fn resize(&mut self, width: u32, height: u32)
        requires
            width * height <= u32::MAX,
        ensures
            final(self).wf(),
            final(self).width == width,
            final(self).height == height,
            final(self).buf@ == (if width * height <= old(self).buf@.len() {
                old(self).buf@.subrange(0, width * height)
            } else {
                old(self).buf@ + black(width * height - old(self).buf@.len())
            }),
    {
        self.width = width;
        self.height = height;
        let ghost old_buf = self.buf@;
        self.buf.resize((width * height) as usize, 0);
        proof {
            if width * height > old_buf.len() {
                assert(self.buf@ =~= old_buf + black(width * height - old_buf.len())) by {
                    assert forall|i: int| old_buf.len() <= i < self.buf@.len() implies self.buf@[i] == 0u32 by {
                        assert(cloned::<u32>(0u32, self.buf@[i]));
                    }
                    assert forall|i: int| 0 <= i < old_buf.len() implies self.buf@[i] == old_buf[i] by {
                        assert(self.buf@.subrange(0, old_buf.len() as int)[i] == self.buf@[i]);
                    }
                }
            }
        }
    }

    /// Makes every pixel black.
    pub fn clear(&mut self)
        ensures
            final(self).width == old(self).width,
            final(self).height == old(self).height,
            final(self).buf@ == black(old(self).buf@.len() as int),
    {
        let n = self.buf.len();
        let mut i: usize = 0;
        while i < n
            invariant
                self.buf@.len() == n,
                self.width == old(self).width,
                self.height == old(self).height,
                0 <= i <= n,
                forall|j: int| 0 <= j < i ==> self.buf@[j] == 0u32,
            decreases n - i,
        {
            self.buf.set(i, 0);
            i = i + 1;
        }
        assert(self.buf@ =~= black(n as int));
    }

    /// Draws `c` at `(x, y)`, blending by its alpha; points off the canvas are ignored.
    pub fn set_pixel(&mut self, x: i32, y: i32, c: Color)
        requires
            old(self).wf(),
        ensures
            final(self).wf(),
            final(self).width == old(self).width,
            final(self).height == old(self).height,
            final(self).buf@ == plot(old(self).buf@, old(self).width, old(self).height, x as int, y as int, c),
    {
        if x < 0 || y < 0 || x >= self.width as i32 || y >= self.height as i32 {
            return;
        }
        let len = self.buf.len();
        proof {
            lemma_size_as_i32(self.width);
            lemma_size_as_i32(self.height);
            lemma_index_in_bounds(self.width as int, self.height as int, x as int, y as int);
        }
        assert(y * self.width + x < len);
        let idx = y as usize * self.width as usize + x as usize;
        if c.a == 255 {
            self.buf.set(idx, pack(c.r, c.g, c.b));
        } else if c.a > 0 {
            let dst = self.buf[idx];
            proof { lemma_channels_bits(dst); }
            let dr = ((dst >> 16) & 0xff) as u8;
            let dg = ((dst >> 8) & 0xff) as u8;
            let db = (dst & 0xff) as u8;
            let or_ = mix_channel(c.r, dr, c.a);
            let og = mix_channel(c.g, dg, c.a);
            let ob = mix_channel(c.b, db, c.a);
            self.buf.set(idx, pack(or_, og, ob));
        }
    }

    /// Fills the disk of radius `radius` around `(cx, cy)` with `c`.
    pub fn draw_circle(&mut self, cx: i32, cy: i32, radius: i32, c: Color)
        requires
            old(self).wf(),
            square_fits(cx, cy, radius),
        ensures
            final(self).wf(),
            final(self).width == old(self).width,
            final(self).height == old(self).height,
            final(self).buf@ == paint(
                old(self).buf@,
                old(self).width,
                old(self).height,
                disk(cx as int, cy as int, radius as int),
                c,
            ),
    {
        let ghost s0 = self.buf@;
        let ghost (cw, ch) = (self.width, self.height);
        let ghost shape = disk(cx as int, cy as int, radius as int);
        let ghost r = radius as int;
        proof {
            lemma_paint_empty(s0, cw, ch, scanned(shape, cx as int, cy as int, r, -r, -r), c);
        }
        let mut dy: i32 = -radius;
        while dy <= radius
            invariant
                self.wf(),
                self.width == cw,
                self.height == ch,
                s0.len() == cw * ch,
                square_fits(cx, cy, radius),
                shape == disk(cx as int, cy as int, radius as int),
                r == radius,
                -r <= dy,
                r >= -r ==> dy <= r + 1,
                r < -r ==> dy == -r,
                self.buf@ == paint(s0, cw, ch, scanned(shape, cx as int, cy as int, r, dy as int, -r), c),
            decreases r + 1 - dy,
        {
            let mut dx: i32 = -radius;
            while dx <= radius
                invariant
                    self.wf(),
                    self.width == cw,
                    self.height == ch,
                    s0.len() == cw * ch,
                    square_fits(cx, cy, radius),
                    shape == disk(cx as int, cy as int, radius as int),
                    r == radius,
                    -r <= dy <= r,
                    -r <= dx <= r + 1,
                    self.buf@ == paint(s0, cw, ch, scanned(shape, cx as int, cy as int, r, dy as int, dx as int), c),
                decreases r + 1 - dx,
            {
                proof {
                    lemma_sq_le(dx as int, r);
                    lemma_sq_le(dy as int, r);
                    lemma_small_radius(r);
                }
                if dx * dx + dy * dy <= radius * radius {
                    proof {
                        lemma_plot_extends_paint(
                            s0, cw, ch,
                            scanned(shape, cx as int, cy as int, r, dy as int, dx as int),
                            scanned(shape, cx as int, cy as int, r, dy as int, dx + 1),
                            cx + dx, cy + dy, c,
                        );
                    }
                    self.set_pixel(cx + dx, cy + dy, c);
                } else {
                    proof {
                        lemma_paint_same_region(
                            s0, cw, ch,
                            scanned(shape, cx as int, cy as int, r, dy as int, dx as int),
                            scanned(shape, cx as int, cy as int, r, dy as int, dx + 1),
                            c,
                        );
                    }
                }
                dx = dx + 1;
            }
            proof {
                lemma_paint_same_region(
                    s0, cw, ch,
                    scanned(shape, cx as int, cy as int, r, dy as int, dx as int),
                    scanned(shape, cx as int, cy as int, r, dy + 1, -r),
                    c,
                );
            }
            dy = dy + 1;
        }
        proof {
            lemma_paint_same_region(
                s0, cw, ch,
                scanned(shape, cx as int, cy as int, r, dy as int, -r),
                shape,
                c,
            );
        }
    }

    /// Fills the ring around `(cx, cy)` between radii `inner` and `outer` with `c`.
    pub fn draw_ring(&mut self, cx: i32, cy: i32, outer: i32, inner: i32, c: Color)
        requires
            old(self).wf(),
            ring_fits(cx, cy, outer, inner),
        ensures
            final(self).wf(),
            final(self).width == old(self).width,
            final(self).height == old(self).height,
            final(self).buf@ == paint(
                old(self).buf@,
                old(self).width,
                old(self).height,
                ring(cx as int, cy as int, outer as int, inner as int),
                c,
            ),
    {
        let ghost s0 = self.buf@;
        let ghost (cw, ch) = (self.width, self.height);
        let ghost shape = ring(cx as int, cy as int, outer as int, inner as int);
        let ghost r = outer as int;
        proof {
            lemma_paint_empty(s0, cw, ch, scanned(shape, cx as int, cy as int, r, -r, -r), c);
        }
        let mut dy: i32 = -outer;
        while dy <= outer
            invariant
                self.wf(),
                self.width == cw,
                self.height == ch,
                s0.len() == cw * ch,
                ring_fits(cx, cy, outer, inner),
                shape == ring(cx as int, cy as int, outer as int, inner as int),
                r == outer,
                -r <= dy,
                r >= -r ==> dy <= r + 1,
                r < -r ==> dy == -r,
                self.buf@ == paint(s0, cw, ch, scanned(shape, cx as int, cy as int, r, dy as int, -r), c),
            decreases r + 1 - dy,
        {
            let mut dx: i32 = -outer;
            while dx <= outer
                invariant
                    self.wf(),
                    self.width == cw,
                    self.height == ch,
                    s0.len() == cw * ch,
                    ring_fits(cx, cy, outer, inner),
                    shape == ring(cx as int, cy as int, outer as int, inner as int),
                    r == outer,
                    -r <= dy <= r,
                    -r <= dx <= r + 1,
                    self.buf@ == paint(s0, cw, ch, scanned(shape, cx as int, cy as int, r, dy as int, dx as int), c),
                decreases r + 1 - dx,
            {
                proof {
                    lemma_sq_le(dx as int, r);
                    lemma_sq_le(dy as int, r);
                    lemma_small_radius(r);
                }
                assert(0 <= inner * inner) by (nonlinear_arith);
                let d2 = dx * dx + dy * dy;
                if d2 <= outer * outer && d2 >= inner * inner {
                    proof {
                        lemma_plot_extends_paint(
                            s0, cw, ch,
                            scanned(shape, cx as int, cy as int, r, dy as int, dx as int),
                            scanned(shape, cx as int, cy as int, r, dy as int, dx + 1),
                            cx + dx, cy + dy, c,
                        );
                    }
                    self.set_pixel(cx + dx, cy + dy, c);
                } else {
                    proof {
                        lemma_paint_same_region(
                            s0, cw, ch,
                            scanned(shape, cx as int, cy as int, r, dy as int, dx as int),
                            scanned(shape, cx as int, cy as int, r, dy as int, dx + 1),
                            c,
                        );
                    }
                }
                dx = dx + 1;
            }
            proof {
                lemma_paint_same_region(
                    s0, cw, ch,
                    scanned(shape, cx as int, cy as int, r, dy as int, dx as int),
                    scanned(shape, cx as int, cy as int, r, dy + 1, -r),
                    c,
                );
            }
            dy = dy + 1;
        }
        proof {
            lemma_paint_same_region(
                s0, cw, ch,
                scanned(shape, cx as int, cy as int, r, dy as int, -r),
                shape,
                c,
            );
        }
    }

    /// Fills the square of half-side `half` around `(x, y)`: one brush stamp of a line.
    fn stamp(&mut self, x: i32, y: i32, half: i32, c: Color)
        requires
            old(self).wf(),
            -0x4000_0000 <= half <= 0x4000_0000,
            half >= 0 ==> i32::MIN <= x - half && x + half <= i32::MAX && i32::MIN <= y - half
                && y + half <= i32::MAX,
        ensures
            final(self).wf(),
            final(self).width == old(self).width,
            final(self).height == old(self).height,
            final(self).buf@ == paint(old(self).buf@, old(self).width, old(self).height, square(x as int, y as int, half as int), c),
    {
        let ghost s0 = self.buf@;
        let ghost (cw, ch) = (self.width, self.height);
        let ghost shape = square(x as int, y as int, half as int);
        let ghost r = half as int;
        proof {
            lemma_paint_empty(s0, cw, ch, scanned(shape, x as int, y as int, r, -r, -r), c);
        }
        let mut ty: i32 = -half;
        while ty <= half
            invariant
                self.wf(),
                self.width == cw,
                self.height == ch,
                s0.len() == cw * ch,
                -0x4000_0000 <= half <= 0x4000_0000,
                half >= 0 ==> i32::MIN <= x - half && x + half <= i32::MAX && i32::MIN <= y - half
                    && y + half <= i32::MAX,
                shape == square(x as int, y as int, half as int),
                r == half,
                -r <= ty,
                r >= -r ==> ty <= r + 1,
                r < -r ==> ty == -r,
                self.buf@ == paint(s0, cw, ch, scanned(shape, x as int, y as int, r, ty as int, -r), c),
            decreases r + 1 - ty,
        {
            let mut tx: i32 = -half;
            while tx <= half
                invariant
                    self.wf(),
                    self.width == cw,
                    self.height == ch,
                    s0.len() == cw * ch,
                    -0x4000_0000 <= half <= 0x4000_0000,
                    half >= 0 ==> i32::MIN <= x - half && x + half <= i32::MAX && i32::MIN <= y - half
                        && y + half <= i32::MAX,
                    shape == square(x as int, y as int, half as int),
                    r == half,
                    -r <= ty <= r,
                    -r <= tx <= r + 1,
                    self.buf@ == paint(s0, cw, ch, scanned(shape, x as int, y as int, r, ty as int, tx as int), c),
                decreases r + 1 - tx,
            {
                proof {
                    lemma_plot_extends_paint(
                        s0, cw, ch,
                        scanned(shape, x as int, y as int, r, ty as int, tx as int),
                        scanned(shape, x as int, y as int, r, ty as int, tx + 1),
                        x + tx, y + ty, c,
                    );
                }
                self.set_pixel(x + tx, y + ty, c);
                tx = tx + 1;
            }
            proof {
                lemma_paint_same_region(
                    s0, cw, ch,
                    scanned(shape, x as int, y as int, r, ty as int, tx as int),
                    scanned(shape, x as int, y as int, r, ty + 1, -r),
                    c,
                );
            }
            ty = ty + 1;
        }
        proof {
            lemma_paint_same_region(
                s0, cw, ch,
                scanned(shape, x as int, y as int, r, ty as int, -r),
                shape,
                c,
            );
        }
    }

    /// Draws the line from `(x0, y0)` to `(x1, y1)` with Bresenham's
    /// algorithm, stamping at each of its points a square brush `thickness`
    /// wide (halved toward zero on each side).
    pub fn draw_line(&mut self, x0: i32, y0: i32, x1: i32, y1: i32, thickness: u32, c: Color)
        requires
            old(self).wf(),
            line_fits(x0, y0, x1, y1, thickness),
        ensures
            final(self).wf(),
            final(self).width == old(self).width,
            final(self).height == old(self).height,
            final(self).buf@ == stamps(
                old(self).buf@,
                old(self).width,
                old(self).height,
                line_points(x0 as int, y0 as int, x1 as int, y1 as int),
                half_width(thickness),
                c,
            ),
    {
        let ghost s0 = self.buf@;
        let ghost (cw, ch) = (self.width, self.height);
        let ddx = x1 - x0;
        let ddy = y1 - y0;
        let dx = if ddx < 0 { -ddx } else { ddx };
        let dy = if ddy < 0 { -ddy } else { ddy };
        let sx: i32 = if x0 < x1 { 1 } else { -1 };
        let sy: i32 = if y0 < y1 { 1 } else { -1 };
        let mut err = dx - dy;
        let mut x = x0;
        let mut y = y0;
        let t = thickness as i32;
        let half = t / 2;
        assert(half == half_width(thickness));
        let ghost target = stamps(
            s0, cw, ch, line_points(x0 as int, y0 as int, x1 as int, y1 as int), half as int, c);
        let ghost mut fuel: nat = (dx + dy) as nat;
        proof {
            lemma_line_init(x0 as int, y0 as int, x1 as int, y1 as int);
        }
        loop
            invariant_except_break
                target == stamps(
                    self.buf@, cw, ch,
                    line_walk(x as int, y as int, err as int, x1 as int, y1 as int, dx as int, dy as int, sx as int, sy as int, fuel),
                    half as int, c),
            invariant
                self.wf(),
                self.width == cw,
                self.height == ch,
                s0.len() == cw * ch,
                line_fits(x0, y0, x1, y1, thickness),
                dx == abs(x1 - x0),
                dy == abs(y1 - y0),
                sx == (if x0 < x1 { 1int } else { -1int }),
                sy == (if y0 < y1 { 1int } else { -1int }),
                half == half_width(thickness),
                walk_inv(x as int, y as int, err as int, x1 as int, y1 as int, dx as int, dy as int, sx as int, sy as int, fuel),
                walk_fits(x as int, y as int, err as int, x1 as int, y1 as int, dx as int, dy as int, sx as int, sy as int, fuel),
                min(x0 as int, x1 as int) <= x <= max(x0 as int, x1 as int),
                min(y0 as int, y1 as int) <= y <= max(y0 as int, y1 as int),
            ensures
                self.wf(),
                self.width == cw,
                self.height == ch,
                self.buf@ == target,
            decreases fuel,
        {
            let ghost walk = line_walk(x as int, y as int, err as int, x1 as int, y1 as int, dx as int, dy as int, sx as int, sy as int, fuel);
            let ghost prev = self.buf@;
            self.stamp(x, y, half, c);
            assert(stamps(prev, cw, ch, walk, half as int, c)
                == stamps(self.buf@, cw, ch, walk.drop_first(), half as int, c));
            if x == x1 && y == y1 {
                assert(walk.drop_first() =~= Seq::<(int, int)>::empty());
                assert(stamps(self.buf@, cw, ch, walk.drop_first(), half as int, c) == self.buf@);
                break;
            }
            proof {
                lemma_walk_step(x as int, y as int, err as int, x1 as int, y1 as int, dx as int, dy as int, sx as int, sy as int, fuel);
            }
            let e2 = 2 * err;
            if e2 > -dy {
                err = err - dy;
                x = x + sx;
            }
            if e2 < dx {
                err = err + dx;
                y = y + sy;
            }
            proof {
                fuel = (fuel - 1) as nat;
                assert(walk.drop_first() == line_walk(x as int, y as int, err as int, x1 as int, y1 as int, dx as int, dy as int, sx as int, sy as int, fuel));
                lemma_between(x as int, x0 as int, x1 as int, sx as int, dx as int);
                lemma_between(y as int, y0 as int, y1 as int, sy as int, dy as int);
            }
        }
    }

    /// Fills a `w` by `h` rectangle at `(x, y)` whose corners are rounded
    /// with radius `radius`.
    pub fn draw_rounded_rect(&mut self, x: i32, y: i32, w: u32, h: u32, radius: u32, c: Color)
        requires
            old(self).wf(),
            rounded_rect_fits(x, y, w, h, radius),
        ensures
            final(self).wf(),
            final(self).width == old(self).width,
            final(self).height == old(self).height,
            final(self).buf@ == rounded_rect_paint(
                old(self).buf@, old(self).width, old(self).height, x as int, y as int, w, h, radius, c),
    {
        proof {
            lemma_size_as_i32(radius);
        }
        let rad = radius as i32;
        self.fill_rect(x + rad, y, w - 2 * radius, h, c);
        self.fill_rect(x, y + rad, w, h - 2 * radius, c);
        let corners = [
            (x + rad, y + rad),
            (x + w as i32 - rad - 1, y + rad),
            (x + rad, y + h as i32 - rad - 1),
            (x + w as i32 - rad - 1, y + h as i32 - rad - 1),
        ];
        self.draw_circle(corners[0].0, corners[0].1, rad, c);
        self.draw_circle(corners[1].0, corners[1].1, rad, c);
        self.draw_circle(corners[2].0, corners[2].1, rad, c);
        self.draw_circle(corners[3].0, corners[3].1, rad, c);
    }

    /// Draws `img` with its top-left corner at `(x, y)`, pixel by pixel,
    /// blending each by its alpha.
    pub fn draw_image(&mut self, x: i32, y: i32, img: &Image)
        requires
            old(self).wf(),
            img.wf(),
            image_fits(x, y, img.width as int, img.height as int),
        ensures
            final(self).wf(),
            final(self).width == old(self).width,
            final(self).height == old(self).height,
            final(self).buf@ == paint_with(
                old(self).buf@,
                old(self).width,
                old(self).height,
                rect(x as int, y as int, img.width as int, img.height as int),
                image_colors(img.pixels@, img.width as int, x as int, y as int),
            ),
    {
        let ghost s0 = self.buf@;
        let ghost (cw, ch) = (self.width, self.height);
        let ghost colors = image_colors(img.pixels@, img.width as int, x as int, y as int);
        let iw = img.width;
        let ih = img.height;
        let n = img.pixels.len();
        proof {
            lemma_paint_with_same_region(s0, cw, ch, rect(x as int, y as int, iw as int, 0), |a: int, b: int| false, colors);
            assert(paint_with(s0, cw, ch, |a: int, b: int| false, colors) =~= s0);
        }
        let mut py: u32 = 0;
        while py < ih
            invariant
                self.wf(),
                self.width == cw,
                self.height == ch,
                s0.len() == cw * ch,
                img.wf(),
                iw == img.width,
                ih == img.height,
                n == iw * ih,
                image_fits(x, y, iw as int, ih as int),
                colors == image_colors(img.pixels@, img.width as int, x as int, y as int),
                py <= ih,
                self.buf@ == paint_with(s0, cw, ch, rect(x as int, y as int, iw as int, py as int), colors),
            decreases ih - py,
        {
            proof {
                lemma_paint_with_same_region(
                    s0, cw, ch,
                    rect(x as int, y as int, iw as int, py as int),
                    rect_prefix(x as int, y as int, iw as int, py as int, 0),
                    colors,
                );
            }
            let mut px: u32 = 0;
            while px < iw
                invariant
                    self.wf(),
                    self.width == cw,
                    self.height == ch,
                    s0.len() == cw * ch,
                    img.wf(),
                    iw == img.width,
                    ih == img.height,
                    n == iw * ih,
                    image_fits(x, y, iw as int, ih as int),
                    colors == image_colors(img.pixels@, img.width as int, x as int, y as int),
                    py < ih,
                    px <= iw,
                    self.buf@ == paint_with(s0, cw, ch, rect_prefix(x as int, y as int, iw as int, py as int, px as int), colors),
                decreases iw - px,
            {
                proof {
                    lemma_index_in_bounds(iw as int, ih as int, px as int, py as int);
                    lemma_plot_extends_paint_with(
                        s0, cw, ch,
                        rect_prefix(x as int, y as int, iw as int, py as int, px as int),
                        rect_prefix(x as int, y as int, iw as int, py as int, px + 1),
                        x + px, y + py, colors,
                    );
                }
                let p = img.pixels[py as usize * iw as usize + px as usize];
                self.set_pixel(x + px as i32, y + py as i32, p);
                px = px + 1;
            }
            proof {
                lemma_paint_with_same_region(
                    s0, cw, ch,
                    rect_prefix(x as int, y as int, iw as int, py as int, px as int),
                    rect(x as int, y as int, iw as int, py + 1),
                    colors,
                );
            }
            py = py + 1;
        }
    }

    /// Draws `img` resampled into a `cols.len()` by `rows.len()` rectangle
    /// at `(x, y)`: the point at offset `(dx, dy)` takes the source column
    /// `cols[dx]` and row `rows[dy]`, each clamped to the image.
    pub fn draw_image_scaled(&mut self, x: i32, y: i32, img: &Image, cols: &[u32], rows: &[u32])
        requires
            old(self).wf(),
            img.wf(),
            image_fits(x, y, cols@.len() as int, rows@.len() as int),
            cols@.len() > 0 && rows@.len() > 0 ==> img.width > 0 && img.height > 0,
        ensures
            final(self).wf(),
            final(self).width == old(self).width,
            final(self).height == old(self).height,
            final(self).buf@ == paint_with(
                old(self).buf@,
                old(self).width,
                old(self).height,
                rect(x as int, y as int, cols@.len() as int, rows@.len() as int),
                sampled_colors(img.pixels@, img.width as int, img.height as int, cols@, rows@, x as int, y as int),
            ),
    {
        let ghost s0 = self.buf@;
        let ghost (cw, ch) = (self.width, self.height);
        let ghost colors = sampled_colors(img.pixels@, img.width as int, img.height as int, cols@, rows@, x as int, y as int);
        let sw = img.width;
        let sh = img.height;
        let w = cols.len();
        let h = rows.len();
        let n = img.pixels.len();
        proof {
            lemma_paint_with_same_region(s0, cw, ch, rect(x as int, y as int, w as int, 0), |a: int, b: int| false, colors);
            assert(paint_with(s0, cw, ch, |a: int, b: int| false, colors) =~= s0);
        }
        let mut dy: usize = 0;
        while dy < h
            invariant
                self.wf(),
                self.width == cw,
                self.height == ch,
                s0.len() == cw * ch,
                img.wf(),
                sw == img.width,
                sh == img.height,
                n == sw * sh,
                w == cols@.len(),
                h == rows@.len(),
                image_fits(x, y, w as int, h as int),
                w > 0 && h > 0 ==> sw > 0 && sh > 0,
                colors == sampled_colors(img.pixels@, img.width as int, img.height as int, cols@, rows@, x as int, y as int),
                dy <= h,
                self.buf@ == paint_with(s0, cw, ch, rect(x as int, y as int, w as int, dy as int), colors),
            decreases h - dy,
        {
            proof {
                lemma_paint_with_same_region(
                    s0, cw, ch,
                    rect(x as int, y as int, w as int, dy as int),
                    rect_prefix(x as int, y as int, w as int, dy as int, 0),
                    colors,
                );
            }
            let mut dx: usize = 0;
            while dx < w
                invariant
                    self.wf(),
                    self.width == cw,
                    self.height == ch,
                    s0.len() == cw * ch,
                    img.wf(),
                    sw == img.width,
                    sh == img.height,
                    n == sw * sh,
                    w == cols@.len(),
                    h == rows@.len(),
                    image_fits(x, y, w as int, h as int),
                    w > 0 && h > 0 ==> sw > 0 && sh > 0,
                    colors == sampled_colors(img.pixels@, img.width as int, img.height as int, cols@, rows@, x as int, y as int),
                    dy < h,
                    dx <= w,
                    self.buf@ == paint_with(s0, cw, ch, rect_prefix(x as int, y as int, w as int, dy as int, dx as int), colors),
                decreases w - dx,
            {
                let sx = if cols[dx] < sw - 1 { cols[dx] } else { sw - 1 };
                let sy = if rows[dy] < sh - 1 { rows[dy] } else { sh - 1 };
                proof {
                    lemma_index_in_bounds(sw as int, sh as int, sx as int, sy as int);
                    lemma_plot_extends_paint_with(
                        s0, cw, ch,
                        rect_prefix(x as int, y as int, w as int, dy as int, dx as int),
                        rect_prefix(x as int, y as int, w as int, dy as int, dx + 1),
                        x + dx, y + dy, colors,
                    );
                }
                let p = img.pixels[sy as usize * sw as usize + sx as usize];
                self.set_pixel(x + dx as i32, y + dy as i32, p);
                dx = dx + 1;
            }
            proof {
                lemma_paint_with_same_region(
                    s0, cw, ch,
                    rect_prefix(x as int, y as int, w as int, dy as int, dx as int),
                    rect(x as int, y as int, w as int, dy + 1),
                    colors,
                );
            }
            dy = dy + 1;
        }
    }

    /// Draws one glyph with its bitmap's top-left corner at `(bx, by)`.
    fn draw_glyph(&mut self, bx: i32, by: i32, g: &Glyph, c: Color)
        requires
            old(self).wf(),
            g.coverage@.len() == g.width * g.height,
            image_fits(bx, by, g.width as int, g.height as int),
        ensures
            final(self).wf(),
            final(self).width == old(self).width,
            final(self).height == old(self).height,
            final(self).buf@ == paint_with(
                old(self).buf@,
                old(self).width,
                old(self).height,
                glyph_region(*g, bx as int, by as int),
                glyph_colors(*g, bx as int, by as int, c),
            ),
    {
        let ghost s0 = self.buf@;
        let ghost (cw, ch) = (self.width, self.height);
        let ghost colors = glyph_colors(*g, bx as int, by as int, c);
        let ghost gl = *g;
        let gw = g.width;
        let gh = g.height;
        let clen = g.coverage.len();
        proof {
            lemma_paint_with_same_region(
                s0, cw, ch,
                glyph_scan(gl, bx as int, by as int, 0, 0),
                |a: int, b: int| false,
                colors,
            );
            assert(paint_with(s0, cw, ch, |a: int, b: int| false, colors) =~= s0);
        }
        let mut py: u32 = 0;
        while py < gh
            invariant
                self.wf(),
                self.width == cw,
                self.height == ch,
                s0.len() == cw * ch,
                gl == *g,
                gw == g.width,
                gh == g.height,
                g.coverage@.len() == gw * gh,
                clen == g.coverage@.len(),
                image_fits(bx, by, gw as int, gh as int),
                colors == glyph_colors(*g, bx as int, by as int, c),
                py <= gh,
                self.buf@ == paint_with(s0, cw, ch, glyph_scan(gl, bx as int, by as int, py as int, 0), colors),
            decreases gh - py,
        {
            let mut px: u32 = 0;
            while px < gw
                invariant
                    self.wf(),
                    self.width == cw,
                    self.height == ch,
                    s0.len() == cw * ch,
                    gl == *g,
                    gw == g.width,
                    gh == g.height,
                    g.coverage@.len() == gw * gh,
                    clen == g.coverage@.len(),
                    image_fits(bx, by, gw as int, gh as int),
                    colors == glyph_colors(*g, bx as int, by as int, c),
                    py < gh,
                    px <= gw,
                    self.buf@ == paint_with(s0, cw, ch, glyph_scan(gl, bx as int, by as int, py as int, px as int), colors),
                decreases gw - px,
            {
                proof {
                    lemma_index_in_bounds(gw as int, gh as int, px as int, py as int);
                }
                let cov = g.coverage[py as usize * gw as usize + px as usize];
                if cov > 0 {
                    assert(cov as u32 * c.a as u32 <= 255 * 255) by (nonlinear_arith)
                        requires cov <= 255, c.a <= 255;
                    let a = ((cov as u32 * c.a as u32) / 255) as u8;
                    proof {
                        lemma_plot_extends_paint_with(
                            s0, cw, ch,
                            glyph_scan(gl, bx as int, by as int, py as int, px as int),
                            glyph_scan(gl, bx as int, by as int, py as int, px + 1),
                            bx + px, by + py, colors,
                        );
                    }
                    self.set_pixel(bx + px as i32, by + py as i32, Color::rgba(c.r, c.g, c.b, a));
                } else {
                    proof {
                        lemma_paint_with_same_region(
                            s0, cw, ch,
                            glyph_scan(gl, bx as int, by as int, py as int, px as int),
                            glyph_scan(gl, bx as int, by as int, py as int, px + 1),
                            colors,
                        );
                    }
                }
                px = px + 1;
            }
            proof {
                lemma_paint_with_same_region(
                    s0, cw, ch,
                    glyph_scan(gl, bx as int, by as int, py as int, px as int),
                    glyph_scan(gl, bx as int, by as int, py + 1, 0),
                    colors,
                );
            }
            py = py + 1;
        }
        proof {
            lemma_paint_with_same_region(
                s0, cw, ch,
                glyph_scan(gl, bx as int, by as int, py as int, 0),
                glyph_region(gl, bx as int, by as int),
                colors,
            );
        }
    }

    /// Draws `glyphs` left to right on the baseline `y`, the pen starting at
    /// `x`; each covered bitmap point gets `c` with its alpha scaled by the
    /// coverage. Returns the distance the pen moved, as `u32`, and the
    /// greatest glyph height.
    pub fn draw_text(&mut self, x: i32, y: i32, glyphs: &[Glyph], c: Color) -> (r: (u32, u32))
        requires
            old(self).wf(),
            text_fits(x as int, x as int, y as int, glyphs@),
            max_height(glyphs@) <= u32::MAX,
        ensures
            final(self).wf(),
            final(self).width == old(self).width,
            final(self).height == old(self).height,
            final(self).buf@ == text_paint(old(self).buf@, old(self).width, old(self).height, x as int, y as int, glyphs@, c),
            r.0 == advance_sum(glyphs@) as u32,
            r.1 == max_height(glyphs@),
    {
        let ghost (cw, ch) = (self.width, self.height);
        let ghost target = text_paint(self.buf@, cw, ch, x as int, y as int, glyphs@, c);
        let mut cursor = x;
        let mut max_h: u32 = 0;
        assert(glyphs@.skip(0) =~= glyphs@);
        proof { lemma_max_height_nonneg(glyphs@); }
        let n = glyphs.len();
        let mut k: usize = 0;
        while k < n
            invariant
                self.wf(),
                self.width == cw,
                self.height == ch,
                n == glyphs@.len(),
                k <= n,
                text_fits(cursor as int, x as int, y as int, glyphs@.skip(k as int)),
                target == text_paint(self.buf@, cw, ch, cursor as int, y as int, glyphs@.skip(k as int), c),
                cursor - x + advance_sum(glyphs@.skip(k as int)) == advance_sum(glyphs@),
                max(max_h as int, max_height(glyphs@.skip(k as int))) == max_height(glyphs@),
            decreases n - k,
        {
            let ghost rest = glyphs@.skip(k as int);
            assert(rest[0] == glyphs@[k as int]);
            assert(rest.drop_first() =~= glyphs@.skip(k + 1));
            let g = &glyphs[k];
            let bx = cursor + g.xmin;
            let by = y - g.height as i32 - g.ymin;
            self.draw_glyph(bx, by, g, c);
            cursor = cursor + g.advance;
            max_h = if max_h < g.height { g.height } else { max_h };
            k = k + 1;
        }
        assert(glyphs@.skip(n as int) =~= Seq::<Glyph>::empty());
        ((cursor - x) as u32, max_h)
    }

    /// Width and height of a text: the sum of the glyph advances (negative
    /// ones counted as zero) and the greatest glyph height.
    pub fn measure_text(glyphs: &[Glyph]) -> (r: (u32, u32))
        requires
            measured_width(glyphs@) <= u32::MAX,
        ensures
            r.0 == measured_width(glyphs@),
            r.1 == max_height(glyphs@),
    {
        let mut w: u32 = 0;
        let mut h: u32 = 0;
        assert(glyphs@.skip(0) =~= glyphs@);
        proof { lemma_max_height_nonneg(glyphs@); }
        let n = glyphs.len();
        let mut k: usize = 0;
        while k < n
            invariant
                n == glyphs@.len(),
                k <= n,
                w + measured_width(glyphs@.skip(k as int)) == measured_width(glyphs@),
                measured_width(glyphs@) <= u32::MAX,
                max(h as int, max_height(glyphs@.skip(k as int))) == max_height(glyphs@),
            decreases n - k,
        {
            let ghost rest = glyphs@.skip(k as int);
            assert(rest[0] == glyphs@[k as int]);
            assert(rest.drop_first() =~= glyphs@.skip(k + 1));
            proof { lemma_measured_width_nonneg(rest.drop_first()); }
            let g = &glyphs[k];
            let adv: u32 = if g.advance > 0 { g.advance as u32 } else { 0 };
            w = w + adv;
            h = if h < g.height { g.height } else { h };
            k = k + 1;
        }
        assert(glyphs@.skip(n as int) =~= Seq::<Glyph>::empty());
        (w, h)
    }

    /// Fills the `w` by `h` rectangle at `(x, y)` with `c`; sizes are read as
    /// `i32`, and one above `i32::MAX` fills nothing.
    pub fn fill_rect(&mut self, x: i32, y: i32, w: u32, h: u32, c: Color)
        requires
            old(self).wf(),
            rect_fits(x, y, w, h),
        ensures
            final(self).wf(),
            final(self).width == old(self).width,
            final(self).height == old(self).height,
            final(self).buf@ == paint(
                old(self).buf@,
                old(self).width,
                old(self).height,
                rect(x as int, y as int, (w as i32) as int, (h as i32) as int),
                c,
            ),
    {
        let ghost s0 = self.buf@;
        let ghost (cw, ch) = (self.width, self.height);
        let wi = w as i32;
        let hi = h as i32;
        proof {
            lemma_paint_empty(s0, cw, ch, rect(x as int, y as int, wi as int, 0), c);
        }
        let mut dy: i32 = 0;
        while dy < hi
            invariant
                self.wf(),
                self.width == cw,
                self.height == ch,
                s0.len() == cw * ch,
                wi == w as i32,
                hi == h as i32,
                rect_fits(x, y, w, h),
                0 <= dy,
                hi > 0 ==> dy <= hi,
                hi <= 0 ==> dy == 0,
                self.buf@ == paint(s0, cw, ch, rect(x as int, y as int, wi as int, dy as int), c),
            decreases hi - dy,
        {
            proof {
                lemma_paint_same_region(
                    s0, cw, ch,
                    rect(x as int, y as int, wi as int, dy as int),
                    rect_prefix(x as int, y as int, wi as int, dy as int, 0),
                    c,
                );
            }
            let mut dx: i32 = 0;
            while dx < wi
                invariant
                    self.wf(),
                    self.width == cw,
                    self.height == ch,
                    s0.len() == cw * ch,
                    wi == w as i32,
                    hi == h as i32,
                    rect_fits(x, y, w, h),
                    0 <= dy < hi,
                    0 <= dx,
                    wi > 0 ==> dx <= wi,
                    wi <= 0 ==> dx == 0,
                    self.buf@ == paint(s0, cw, ch, rect_prefix(x as int, y as int, wi as int, dy as int, dx as int), c),
                decreases wi - dx,
            {
                proof {
                    lemma_plot_extends_paint(
                        s0, cw, ch,
                        rect_prefix(x as int, y as int, wi as int, dy as int, dx as int),
                        rect_prefix(x as int, y as int, wi as int, dy as int, dx + 1),
                        x + dx, y + dy, c,
                    );
                }
                self.set_pixel(x + dx, y + dy, c);
                dx = dx + 1;
            }
            proof {
                lemma_paint_same_region(
                    s0, cw, ch,
                    rect_prefix(x as int, y as int, wi as int, dy as int, dx as int),
                    rect(x as int, y as int, wi as int, dy + 1),
                    c,
                );
            }
            dy = dy + 1;
        }
        proof {
            lemma_paint_same_region(
                s0, cw, ch,
                rect(x as int, y as int, wi as int, dy as int),
                rect(x as int, y as int, wi as int, hi as int),
                c,
            );
        }
    }
}

} // verus!
