//! Executable tests of the conditions under which the drawing and timing
//! functions compute without overflow, for callers that cannot prove them.

use vstd::prelude::*;

use crate::app::blit_fits;
use crate::canvas::Glyph;
use crate::raster::{
    abs, glyph_fits, glyph_left, glyph_top, half_width, image_fits, lemma_measured_width_nonneg,
    lemma_size_as_i32, lemma_walk_step, lemma_line_init, line_fits, measured_width, max,
    rect_fits, ring_fits, rounded_rect_fits, square_fits, text_fits, walk_fits, walk_inv,
};

verus! {

fn in_i32(v: i128) -> (b: bool)
    ensures
        b == (i32::MIN <= v <= i32::MAX),
{
    -0x8000_0000 <= v && v <= 0x7fff_ffff
}

/// Whether `fill_rect(x, y, w, h, _)` computes without overflow.
pub fn fits_rect(x: i32, y: i32, w: u32, h: u32) -> (b: bool)
    ensures
        b == rect_fits(x, y, w, h),
{
    let wi = w as i32 as i128;
    let hi = h as i32 as i128;
    !(wi > 0 && hi > 0) || (x as i128 + wi - 1 <= 0x7fff_ffff && y as i128 + hi - 1 <= 0x7fff_ffff)
}

/// Whether scanning the square of half-side `r` around `(cx, cy)`, as
/// `draw_circle` does, computes without overflow.
pub fn fits_square(cx: i32, cy: i32, r: i32) -> (b: bool)
    ensures
        b == square_fits(cx, cy, r),
{
    if r == i32::MIN {
        return false;
    }
    if r < 0 {
        return true;
    }
    let (c, d, r) = (cx as i128, cy as i128, r as i128);
    assert(r * r <= 0x8000_0000 * 0x8000_0000) by (nonlinear_arith)
        requires 0 <= r <= 0x8000_0000;
    2 * (r * r) <= 0x7fff_ffff && in_i32(c - r) && in_i32(c + r) && in_i32(d - r) && in_i32(d + r)
}

/// Whether `draw_ring(cx, cy, outer, inner, _)` computes without overflow.
pub fn fits_ring(cx: i32, cy: i32, outer: i32, inner: i32) -> (b: bool)
    ensures
        b == ring_fits(cx, cy, outer, inner),
{
    let i = inner as i128;
    assert(0 <= i * i <= 0x8000_0000 * 0x8000_0000) by (nonlinear_arith)
        requires -0x8000_0000 <= i <= 0x8000_0000;
    fits_square(cx, cy, outer) && (outer < 0 || i * i <= 0x7fff_ffff)
}

/// Whether `draw_rounded_rect(x, y, w, h, radius, _)` computes without overflow.
pub fn fits_rounded_rect(x: i32, y: i32, w: u32, h: u32, radius: u32) -> (b: bool)
    ensures
        b == rounded_rect_fits(x, y, w, h, radius),
{
    let rad = radius as i128;
    if 2 * rad > w as i128 || 2 * rad > h as i128 {
        return false;
    }
    let wi = w as i32 as i128;
    let hi = h as i32 as i128;
    let (xx, yy) = (x as i128, y as i128);
    if !(xx + rad <= 0x7fff_ffff && yy + rad <= 0x7fff_ffff && xx + wi <= 0x7fff_ffff && in_i32(
        xx + wi - rad - 1,
    ) && yy + hi <= 0x7fff_ffff && in_i32(yy + hi - rad - 1)) {
        return false;
    }
    let left = (xx + rad) as i32;
    let top = (yy + rad) as i32;
    let right = (xx + wi - rad - 1) as i32;
    let bottom = (yy + hi - rad - 1) as i32;
    let r = radius as i32;
    fits_rect(left, y, w - 2 * radius, h) && fits_rect(x, top, w, h - 2 * radius)
        && fits_square(left, top, r) && fits_square(right, top, r) && fits_square(left, bottom, r)
        && fits_square(right, bottom, r)
}

/// Whether an image of the given size can be drawn at `(x, y)`.
pub fn fits_image(x: i32, y: i32, w: u64, h: u64) -> (b: bool)
    ensures
        b == image_fits(x, y, w as int, h as int),
{
    w <= 0x7fff_ffff && h <= 0x7fff_ffff && (!(w > 0 && h > 0) || (x as i128 + w as i128 - 1
        <= 0x7fff_ffff && y as i128 + h as i128 - 1 <= 0x7fff_ffff))
}

fn fits_glyph(g: &Glyph, cursor: i128, y: i128) -> (b: bool)
    requires
        i32::MIN <= cursor <= i32::MAX,
        i32::MIN <= y <= i32::MAX,
    ensures
        b == glyph_fits(*g, cursor as int, y as int),
{
    let bx = cursor + g.xmin as i128;
    let by = y - g.height as i128 - g.ymin as i128;
    assert(g.width as u128 * g.height as u128 <= 0xffff_ffff * 0xffff_ffff) by (nonlinear_arith)
        requires g.width <= 0xffff_ffff, g.height <= 0xffff_ffff;
    assert(bx == glyph_left(*g, cursor as int));
    assert(by == glyph_top(*g, y as int));
    g.coverage.len() as u128 == g.width as u128 * g.height as u128 && g.width <= 0x7fff_ffff
        && g.height <= 0x7fff_ffff && in_i32(bx) && in_i32(y - g.height as i128) && in_i32(by) && (
    !(g.width > 0 && g.height > 0) || (bx + g.width as i128 - 1 <= 0x7fff_ffff && by
        + g.height as i128 - 1 <= 0x7fff_ffff))
}

/// Whether `draw_text(x, y, glyphs, _)` computes without overflow.
pub fn fits_text(x: i32, y: i32, glyphs: &[Glyph]) -> (b: bool)
    ensures
        b == text_fits(x as int, x as int, y as int, glyphs@),
{
    let n = glyphs.len();
    let mut cursor: i128 = x as i128;
    let mut k: usize = 0;
    assert(glyphs@.skip(0) =~= glyphs@);
    while k < n
        invariant
            n == glyphs@.len(),
            k <= n,
            i32::MIN <= cursor <= i32::MAX,
            text_fits(x as int, x as int, y as int, glyphs@) == text_fits(
                cursor as int,
                x as int,
                y as int,
                glyphs@.skip(k as int),
            ),
        decreases n - k,
    {
        let ghost rest = glyphs@.skip(k as int);
        assert(rest[0] == glyphs@[k as int]);
        assert(rest.drop_first() =~= glyphs@.skip(k + 1));
        let g = &glyphs[k];
        if !fits_glyph(g, cursor, y as i128) || !in_i32(cursor + g.advance as i128) {
            return false;
        }
        cursor = cursor + g.advance as i128;
        k = k + 1;
    }
    assert(glyphs@.skip(n as int) =~= Seq::<Glyph>::empty());
    in_i32(cursor - x as i128)
}

/// Whether the measured width of `glyphs` fits a `u32`, as `measure_text` needs.
pub fn fits_measure(glyphs: &[Glyph]) -> (b: bool)
    ensures
        b == (measured_width(glyphs@) <= u32::MAX),
{
    let n = glyphs.len();
    let mut w: u64 = 0;
    let mut k: usize = 0;
    assert(glyphs@.skip(0) =~= glyphs@);
    while k < n
        invariant
            n == glyphs@.len(),
            k <= n,
            w <= u32::MAX,
            w + measured_width(glyphs@.skip(k as int)) == measured_width(glyphs@),
        decreases n - k,
    {
        let ghost rest = glyphs@.skip(k as int);
        assert(rest[0] == glyphs@[k as int]);
        assert(rest.drop_first() =~= glyphs@.skip(k + 1));
        proof {
            lemma_measured_width_nonneg(rest.drop_first());
        }
        let g = &glyphs[k];
        let adv: u64 = if g.advance > 0 { g.advance as u64 } else { 0 };
        w = w + adv;
        if w > 0xffff_ffff {
            return false;
        }
        k = k + 1;
    }
    assert(glyphs@.skip(n as int) =~= Seq::<Glyph>::empty());
    true
}

/// Whether `draw_line(x0, y0, x1, y1, thickness, _)` computes without
/// overflow; it walks the line once to see.
pub fn fits_line(x0: i32, y0: i32, x1: i32, y1: i32, thickness: u32) -> (b: bool)
    ensures
        b == line_fits(x0, y0, x1, y1, thickness),
{
    let ddx = x1 as i128 - x0 as i128;
    let ddy = y1 as i128 - y0 as i128;
    if !(-0x8000_0000 < ddx && ddx <= 0x7fff_ffff && -0x8000_0000 < ddy && ddy <= 0x7fff_ffff) {
        return false;
    }
    let t = thickness as i32;
    let half = (t / 2) as i128;
    assert(half == half_width(thickness));
    if half >= 0 && !(in_i32(x0 as i128 - half) && in_i32(x0 as i128 + half) && in_i32(
        x1 as i128 - half,
    ) && in_i32(x1 as i128 + half) && in_i32(y0 as i128 - half) && in_i32(y0 as i128 + half)
        && in_i32(y1 as i128 - half) && in_i32(y1 as i128 + half)) {
        return false;
    }
    let dx = if ddx < 0 { -ddx } else { ddx };
    let dy = if ddy < 0 { -ddy } else { ddy };
    let sx: i128 = if x0 < x1 { 1 } else { -1 };
    let sy: i128 = if y0 < y1 { 1 } else { -1 };
    let mut err = dx - dy;
    let mut x = x0 as i128;
    let mut y = y0 as i128;
    let ghost mut fuel: nat = (dx + dy) as nat;
    proof {
        lemma_line_init(x0 as int, y0 as int, x1 as int, y1 as int);
    }
    while !(x == x1 as i128 && y == y1 as i128)
        invariant
            dx == abs(x1 - x0),
            dy == abs(y1 - y0),
            0 <= dx <= i32::MAX,
            0 <= dy <= i32::MAX,
            sx == (if x0 < x1 { 1int } else { -1int }),
            sy == (if y0 < y1 { 1int } else { -1int }),
            i32::MIN <= err <= i32::MAX,
            walk_inv(x as int, y as int, err as int, x1 as int, y1 as int, dx as int, dy as int, sx as int, sy as int, fuel),
            line_fits(x0, y0, x1, y1, thickness) == walk_fits(
                x as int, y as int, err as int, x1 as int, y1 as int, dx as int, dy as int,
                sx as int, sy as int, fuel),
        decreases fuel,
    {
        proof {
            lemma_walk_step(x as int, y as int, err as int, x1 as int, y1 as int, dx as int, dy as int, sx as int, sy as int, fuel);
        }
        let e2 = 2 * err;
        if !in_i32(e2) {
            return false;
        }
        if e2 > -dy {
            err = err - dy;
            x = x + sx;
        }
        if !in_i32(err) {
            return false;
        }
        if e2 < dx {
            err = err + dx;
            y = y + sy;
        }
        if !in_i32(err) {
            return false;
        }
        proof {
            fuel = (fuel - 1) as nat;
        }
    }
    true
}

/// Whether `apply_shifted` can copy a canvas of the given size moved by `(sx, sy)`.
pub fn fits_blit(width: u32, height: u32, sx: i32, sy: i32) -> (b: bool)
    ensures
        b == blit_fits(width, height, sx, sy),
{
    let w = width as i32 as i128;
    let h = height as i32 as i128;
    if !(w > 0 && h > 0) {
        return true;
    }
    assert(w * h <= 0x8000_0000 * 0x8000_0000) by (nonlinear_arith)
        requires 0 < w <= 0x8000_0000, 0 < h <= 0x8000_0000;
    w * h <= 0x8000_0000 && in_i32(0 - sx as i128) && in_i32(w - 1 - sx as i128) && in_i32(
        0 - sy as i128,
    ) && in_i32(h - 1 - sy as i128)
}

/// Whether a picture of the given size can be centred on a screen of the
/// given size, as `centered_origin` needs.
pub fn fits_centering(cw: u32, ch: u32, iw: u32, ih: u32) -> (b: bool)
    ensures
        b == (i32::MIN <= (cw as i32) - (iw as i32) <= i32::MAX && i32::MIN <= (ch as i32) - (
        ih as i32) <= i32::MAX),
{
    in_i32(cw as i32 as i128 - iw as i32 as i128) && in_i32(ch as i32 as i128 - ih as i32 as i128)
}

} // verus!
