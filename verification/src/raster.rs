//! The mathematical model of drawing: pixels, blending, the regions that the
//! canvas primitives paint, and the lemmas that relate them.

use vstd::prelude::*;

use crate::canvas::{Color, Glyph};

verus! {

// ── Pixel model ──────────────────────────────────────────────────────────────
// A pixel is a u32 holding 0x00RRGGBB.

/// The pixel value `0x00RRGGBB` of three channels.
pub open spec fn packed(r: int, g: int, b: int) -> int {
    r * 0x10000 + g * 0x100 + b
}

/// The red channel of a pixel (bits 16..24).
pub open spec fn red(p: u32) -> int {
    (p as int / 0x10000) % 0x100
}

/// The green channel of a pixel (bits 8..16).
pub open spec fn green(p: u32) -> int {
    (p as int / 0x100) % 0x100
}

/// The blue channel of a pixel (bits 0..8).
pub open spec fn blue(p: u32) -> int {
    p as int % 0x100
}

/// One channel of `src` laid over `dst` with coverage `a` out of 255.
pub open spec fn mix(src: int, dst: int, a: int) -> int {
    (src * a + dst * (255 - a)) / 255
}

/// The pixel that results from drawing `c` over the pixel `dst`:
/// unchanged when `c` is fully transparent, replaced when it is opaque,
/// blended channel by channel otherwise.
pub open spec fn blend(dst: u32, c: Color) -> u32 {
    if c.a == 0 {
        dst
    } else if c.a == 255 {
        packed(c.r as int, c.g as int, c.b as int) as u32
    } else {
        packed(
            mix(c.r as int, red(dst), c.a as int),
            mix(c.g as int, green(dst), c.a as int),
            mix(c.b as int, blue(dst), c.a as int),
        ) as u32
    }
}

/// A blended channel is again a byte.
pub proof fn lemma_mix_bound(s: int, d: int, a: int)
    requires
        0 <= s < 256,
        0 <= d < 256,
        0 <= a <= 255,
    ensures
        0 <= mix(s, d, a) < 256,
{
    assert(0 <= s * a <= 255 * a) by (nonlinear_arith)
        requires 0 <= s < 256, 0 <= a <= 255;
    assert(0 <= d * (255 - a) <= 255 * (255 - a)) by (nonlinear_arith)
        requires 0 <= d < 256, 0 <= a <= 255;
}

/// The channels of a packed pixel are the ones it was packed from.
pub proof fn lemma_pack_channels(r: u8, g: u8, b: u8)
    ensures
        red(packed(r as int, g as int, b as int) as u32) == r,
        green(packed(r as int, g as int, b as int) as u32) == g,
        blue(packed(r as int, g as int, b as int) as u32) == b,
{
    let p = packed(r as int, g as int, b as int);
    assert(0 <= p < 0x1000000);
    assert((r as int * 0x10000 + g as int * 0x100 + b as int) / 0x10000 == r as int);
    assert((r as int * 0x10000 + g as int * 0x100 + b as int) / 0x100 == r as int * 0x100 + g as int);
    assert((r as int * 0x100 + g as int) % 0x100 == g as int);
    assert((r as int * 0x10000 + g as int * 0x100 + b as int) % 0x100 == b as int);
}


/// Shifting and masking a pixel reads its channels.
pub proof fn lemma_channels_bits(p: u32)
    ensures
        ((p >> 16) & 0xff) as int == red(p),
        ((p >> 8) & 0xff) as int == green(p),
        (p & 0xff) as int == blue(p),
{
    assert((p >> 16) & 0xff == (p / 0x10000) % 0x100) by (bit_vector);
    assert((p >> 8) & 0xff == (p / 0x100) % 0x100) by (bit_vector);
    assert(p & 0xff == p % 0x100) by (bit_vector);
}

/// Whether `(x, y)` lies on a canvas of the given size. Sizes are read as
/// `i32`, as the drawing code compares them: a width or height above
/// `i32::MAX` makes every point invisible.
pub open spec fn visible(w: u32, h: u32, x: int, y: int) -> bool {
    0 <= x < (w as i32) as int && 0 <= y < (h as i32) as int
}

/// The buffer after drawing `c` at `(x, y)`; a point off the canvas changes nothing.
pub open spec fn plot(s: Seq<u32>, w: u32, h: u32, x: int, y: int, c: Color) -> Seq<u32> {
    if visible(w, h, x, y) {
        s.update(y * w + x, blend(s[y * w + x], c))
    } else {
        s
    }
}

/// A buffer of `n` black pixels.
pub open spec fn black(n: int) -> Seq<u32> {
    Seq::new(n as nat, |i: int| 0u32)
}



/// How a canvas size reads as `i32`: itself below `2^31`, wrapped negative above.
pub proof fn lemma_size_as_i32(w: u32)
    ensures
        w <= 0x7fff_ffff ==> (w as i32) as int == w as int,
        w > 0x7fff_ffff ==> (w as i32) < 0,
{
    assert(w <= 0x7fff_ffff ==> (w as i32) as int == w as int) by (bit_vector);
    assert(w > 0x7fff_ffff ==> (w as i32) < 0) by (bit_vector);
}

/// The buffer after drawing `c` once at every visible point of `region`.
pub open spec fn paint(s: Seq<u32>, w: u32, h: u32, region: spec_fn(int, int) -> bool, c: Color) -> Seq<u32> {
    paint_with(s, w, h, region, |a: int, b: int| c)
}

/// The buffer after drawing, once at every visible point `(a, b)` of
/// `region`, the color `color(a, b)`.
pub open spec fn paint_with(
    s: Seq<u32>,
    w: u32,
    h: u32,
    region: spec_fn(int, int) -> bool,
    color: spec_fn(int, int) -> Color,
) -> Seq<u32> {
    Seq::new(
        s.len(),
        |i: int|
            if region(i % (w as int), i / (w as int)) && visible(w, h, i % (w as int), i / (w as int)) {
                blend(s[i], color(i % (w as int), i / (w as int)))
            } else {
                s[i]
            },
    )
}

/// Row and column of a buffer index.
pub proof fn lemma_coords(i: int, w: int, h: int)
    requires
        0 <= i < w * h,
        0 < w,
    ensures
        i == (i / w) * w + i % w,
        0 <= i % w < w,
        0 <= i / w < h,
{
    vstd::arithmetic::div_mod::lemma_fundamental_div_mod(i, w);
    vstd::arithmetic::div_mod::lemma_mod_pos_bound(i, w);
    vstd::arithmetic::div_mod::lemma_div_pos_is_pos(i, w);
    let q = i / w;
    let r = i % w;
    assert(w * q == q * w) by (nonlinear_arith);
    if q >= h {
        assert(q * w >= h * w) by (nonlinear_arith)
            requires q >= h, w > 0;
        assert(h * w == w * h) by (nonlinear_arith);
    }
}

/// Buffer index of a visible point, and back.
pub proof fn lemma_index_coords(w: u32, h: u32, x: int, y: int)
    requires
        visible(w, h, x, y),
    ensures
        0 <= y * w + x < w * h,
        (y * w + x) % (w as int) == x,
        (y * w + x) / (w as int) == y,
{
    lemma_size_as_i32(w);
    lemma_size_as_i32(h);
    lemma_index_in_bounds(w as int, h as int, x, y);
    vstd::arithmetic::div_mod::lemma_fundamental_div_mod_converse(y * w + x, w as int, y, x);
}

/// Drawing one more point that a painted region does not hold yet paints the
/// region grown by that point.
pub proof fn lemma_plot_extends_paint(
    s: Seq<u32>,
    w: u32,
    h: u32,
    r1: spec_fn(int, int) -> bool,
    r2: spec_fn(int, int) -> bool,
    x: int,
    y: int,
    c: Color,
)
    requires
        s.len() == w * h,
        !r1(x, y),
        forall|a: int, b: int| #[trigger] r2(a, b) == (r1(a, b) || (a == x && b == y)),
    ensures
        plot(paint(s, w, h, r1, c), w, h, x, y, c) == paint(s, w, h, r2, c),
{
    lemma_plot_extends_paint_with(s, w, h, r1, r2, x, y, |a: int, b: int| c);
}

/// Drawing one more point that a painted region does not hold yet paints the
/// region grown by that point, whatever color each point gets.
pub proof fn lemma_plot_extends_paint_with(
    s: Seq<u32>,
    w: u32,
    h: u32,
    r1: spec_fn(int, int) -> bool,
    r2: spec_fn(int, int) -> bool,
    x: int,
    y: int,
    color: spec_fn(int, int) -> Color,
)
    requires
        s.len() == w * h,
        !r1(x, y),
        forall|a: int, b: int| #[trigger] r2(a, b) == (r1(a, b) || (a == x && b == y)),
    ensures
        plot(paint_with(s, w, h, r1, color), w, h, x, y, color(x, y)) == paint_with(s, w, h, r2, color),
{
    let p = paint_with(s, w, h, r1, color);
    let q = paint_with(s, w, h, r2, color);
    let pl = plot(p, w, h, x, y, color(x, y));
    if visible(w, h, x, y) {
        lemma_index_coords(w, h, x, y);
    }
    assert forall|i: int| 0 <= i < s.len() implies #[trigger] pl[i] == q[i] by {
        if w == 0 {
            assert(w * h == 0);
        }
        lemma_coords(i, w as int, h as int);
        let a = i % (w as int);
        let b = i / (w as int);
        if visible(w, h, x, y) && i == y * w + x {
        } else {
            if a == x && b == y {
                assert(i == y * w + x) by (nonlinear_arith)
                    requires i == b * w + a, a == x, b == y;
            } else {
                assert(r2(a, b) == r1(a, b));
            }
        }
    }
    assert(pl =~= q);
}

/// Painting changes exactly the visible points of the region: each is
/// blended with its color once, every other pixel keeps its value.
pub proof fn lemma_paint_pixel(
    s: Seq<u32>,
    w: u32,
    h: u32,
    region: spec_fn(int, int) -> bool,
    color: spec_fn(int, int) -> Color,
    x: int,
    y: int,
)
    requires
        s.len() == w * h,
        visible(w, h, x, y),
    ensures
        paint_with(s, w, h, region, color).len() == s.len(),
        paint_with(s, w, h, region, color)[y * w + x] == (if region(x, y) {
            blend(s[y * w + x], color(x, y))
        } else {
            s[y * w + x]
        }),
{
    lemma_index_coords(w, h, x, y);
}

/// Drawing an opaque color twice at a point leaves what drawing it once
/// does; drawing a fully transparent color changes nothing.
pub proof fn lemma_plot_opaque_idempotent(s: Seq<u32>, w: u32, h: u32, x: int, y: int, c: Color)
    requires
        s.len() == w * h,
    ensures
        c.a == 255 ==> plot(plot(s, w, h, x, y, c), w, h, x, y, c) == plot(s, w, h, x, y, c),
        c.a == 0 ==> plot(s, w, h, x, y, c) == s,
{
    if visible(w, h, x, y) {
        lemma_index_coords(w, h, x, y);
        let i = y * w + x;
        if c.a == 0 {
            assert(s.update(i, s[i]) =~= s);
        }
        if c.a == 255 {
            assert(plot(s, w, h, x, y, c).update(i, blend(plot(s, w, h, x, y, c)[i], c)) =~= plot(s, w, h, x, y, c));
        }
    }
}

/// Painting two regions that hold the same points gives the same buffer.
pub proof fn lemma_paint_with_same_region(
    s: Seq<u32>,
    w: u32,
    h: u32,
    r1: spec_fn(int, int) -> bool,
    r2: spec_fn(int, int) -> bool,
    color: spec_fn(int, int) -> Color,
)
    requires
        forall|a: int, b: int| #[trigger] r1(a, b) == r2(a, b),
    ensures
        paint_with(s, w, h, r1, color) == paint_with(s, w, h, r2, color),
{
    assert(paint_with(s, w, h, r1, color) =~= paint_with(s, w, h, r2, color));
}

/// Painting two regions that hold the same points gives the same buffer.
pub proof fn lemma_paint_same_region(
    s: Seq<u32>,
    w: u32,
    h: u32,
    r1: spec_fn(int, int) -> bool,
    r2: spec_fn(int, int) -> bool,
    c: Color,
)
    requires
        forall|a: int, b: int| #[trigger] r1(a, b) == r2(a, b),
    ensures
        paint(s, w, h, r1, c) == paint(s, w, h, r2, c),
{
    assert(paint(s, w, h, r1, c) =~= paint(s, w, h, r2, c));
}

/// Painting an empty region changes nothing.
pub proof fn lemma_paint_empty(s: Seq<u32>, w: u32, h: u32, r: spec_fn(int, int) -> bool, c: Color)
    requires
        forall|a: int, b: int| !(#[trigger] r(a, b)),
    ensures
        paint(s, w, h, r, c) == s,
{
    assert(paint(s, w, h, r, c) =~= s);
}

/// The points of the `w` by `h` rectangle whose top-left corner is `(x, y)`.
pub open spec fn rect(x: int, y: int, w: int, h: int) -> spec_fn(int, int) -> bool {
    |a: int, b: int| x <= a < x + w && y <= b < y + h
}

/// The first `rows` rows of a rectangle, and the first `cols` points of the row after them.
pub open spec fn rect_prefix(x: int, y: int, w: int, rows: int, cols: int) -> spec_fn(int, int) -> bool {
    |a: int, b: int| (x <= a < x + w && y <= b < y + rows) || (b == y + rows && x <= a < x + cols)
}

/// No coordinate of a filled rectangle overflows `i32`. Sizes are read as
/// `i32`; one that reads negative or zero fills nothing.
pub open spec fn rect_fits(x: i32, y: i32, w: u32, h: u32) -> bool {
    (w as i32) > 0 && (h as i32) > 0 ==> x + (w as i32) - 1 <= i32::MAX && y + (h as i32) - 1 <= i32::MAX
}

/// The points within distance `r` of `(cx, cy)`: the disk drawn by `draw_circle`.
/// A negative radius holds no point.
pub open spec fn disk(cx: int, cy: int, r: int) -> spec_fn(int, int) -> bool {
    |a: int, b: int|
        -r <= a - cx <= r && -r <= b - cy <= r
        && (a - cx) * (a - cx) + (b - cy) * (b - cy) <= r * r
}

/// The points whose distance from `(cx, cy)` lies between `inner` and `outer`,
/// both included: the ring drawn by `draw_ring`.
pub open spec fn ring(cx: int, cy: int, outer: int, inner: int) -> spec_fn(int, int) -> bool {
    |a: int, b: int|
        -outer <= a - cx <= outer && -outer <= b - cy <= outer
        && (a - cx) * (a - cx) + (b - cy) * (b - cy) <= outer * outer
        && (a - cx) * (a - cx) + (b - cy) * (b - cy) >= inner * inner
}

/// The points of `shape` that a row-by-row scan of the square of half-side
/// `r` around `(cx, cy)` has passed when it stands at offset `(dx_at, dy_at)`.
pub open spec fn scanned(
    shape: spec_fn(int, int) -> bool,
    cx: int,
    cy: int,
    r: int,
    dy_at: int,
    dx_at: int,
) -> spec_fn(int, int) -> bool {
    |a: int, b: int|
        shape(a, b) && -r <= a - cx <= r && -r <= b - cy <= r
        && (b - cy < dy_at || (b - cy == dy_at && a - cx < dx_at))
}

/// No value computed while scanning the square of half-side `r` around
/// `(cx, cy)` overflows `i32`; `r` bounds the squared distances computed.
pub open spec fn square_fits(cx: i32, cy: i32, r: i32) -> bool {
    &&& r > i32::MIN
    &&& r >= 0 ==> {
        &&& 2 * (r * r) <= i32::MAX
        &&& i32::MIN <= cx - r
        &&& cx + r <= i32::MAX
        &&& i32::MIN <= cy - r
        &&& cy + r <= i32::MAX
    }
}

/// The values computed while drawing a ring fit `i32`.
pub open spec fn ring_fits(cx: i32, cy: i32, outer: i32, inner: i32) -> bool {
    &&& square_fits(cx, cy, outer)
    &&& outer >= 0 ==> inner * inner <= i32::MAX
}

// ── Images ────────────────────────────────────────────────────────────────────

/// The color that an image of row length `iw`, drawn with its top-left
/// corner at `(x, y)`, gives the point `(a, b)`.
pub open spec fn image_colors(pixels: Seq<Color>, iw: int, x: int, y: int) -> spec_fn(int, int) -> Color {
    |a: int, b: int| pixels[(b - y) * iw + (a - x)]
}

/// The color that a sampled image gives the point `(a, b)`: column
/// `cols[a - x]` and row `rows[b - y]` of the source, each clamped to its
/// last column or row.
pub open spec fn sampled_colors(
    pixels: Seq<Color>,
    sw: int,
    sh: int,
    cols: Seq<u32>,
    rows: Seq<u32>,
    x: int,
    y: int,
) -> spec_fn(int, int) -> Color {
    |a: int, b: int| pixels[min(rows[b - y] as int, sh - 1) * sw + min(cols[a - x] as int, sw - 1)]
}

/// No coordinate of an image of the given size drawn at `(x, y)` overflows
/// `i32`.
pub open spec fn image_fits(x: i32, y: i32, w: int, h: int) -> bool {
    &&& 0 <= w <= i32::MAX
    &&& 0 <= h <= i32::MAX
    &&& w > 0 && h > 0 ==> x + w - 1 <= i32::MAX && y + h - 1 <= i32::MAX
}

// ── Text ──────────────────────────────────────────────────────────────────────

/// Coverage of glyph `g` at the point `(a, b)` when its bitmap's top-left
/// corner stands at `(bx, by)`.
pub open spec fn coverage_at(g: Glyph, bx: int, by: int, a: int, b: int) -> int {
    g.coverage@[(b - by) * g.width + (a - bx)] as int
}

/// The points of glyph `g`, placed with its bitmap at `(bx, by)`, that it covers at all.
pub open spec fn glyph_region(g: Glyph, bx: int, by: int) -> spec_fn(int, int) -> bool {
    |a: int, b: int| bx <= a < bx + g.width && by <= b < by + g.height && coverage_at(g, bx, by, a, b) > 0
}

/// The color a glyph gives a point: the text color, with its alpha scaled
/// by the glyph's coverage there.
pub open spec fn glyph_colors(g: Glyph, bx: int, by: int, c: Color) -> spec_fn(int, int) -> Color {
    |a: int, b: int| Color { r: c.r, g: c.g, b: c.b, a: (coverage_at(g, bx, by, a, b) * c.a / 255) as u8 }
}

/// Column of the left edge of a glyph's bitmap for a pen at `cursor`.
pub open spec fn glyph_left(g: Glyph, cursor: int) -> int {
    cursor + g.xmin
}

/// Row of the top edge of a glyph's bitmap for the baseline `y`.
pub open spec fn glyph_top(g: Glyph, y: int) -> int {
    y - g.height - g.ymin
}

/// The buffer after drawing `glyphs` one after the other on the baseline
/// `y`, the pen starting at `cursor` and moving by each glyph's advance.
pub open spec fn text_paint(s: Seq<u32>, w: u32, h: u32, cursor: int, y: int, glyphs: Seq<Glyph>, c: Color) -> Seq<u32>
    decreases glyphs.len(),
{
    if glyphs.len() == 0 {
        s
    } else {
        let g = glyphs[0];
        let bx = glyph_left(g, cursor);
        let by = glyph_top(g, y);
        text_paint(
            paint_with(s, w, h, glyph_region(g, bx, by), glyph_colors(g, bx, by, c)),
            w, h, cursor + g.advance, y, glyphs.drop_first(), c,
        )
    }
}

/// The covered points of a glyph that a row-by-row scan of its bitmap has
/// passed when it stands at row `rows`, column `cols`.
pub open spec fn glyph_scan(g: Glyph, bx: int, by: int, rows: int, cols: int) -> spec_fn(int, int) -> bool {
    |a: int, b: int| rect_prefix(bx, by, g.width as int, rows, cols)(a, b) && coverage_at(g, bx, by, a, b) > 0
}

/// A measured width is never negative.
pub proof fn lemma_measured_width_nonneg(glyphs: Seq<Glyph>)
    ensures
        measured_width(glyphs) >= 0,
    decreases glyphs.len(),
{
    if glyphs.len() > 0 {
        lemma_measured_width_nonneg(glyphs.drop_first());
    }
}

/// The greatest height is never negative.
pub proof fn lemma_max_height_nonneg(glyphs: Seq<Glyph>)
    ensures
        max_height(glyphs) >= 0,
    decreases glyphs.len(),
{
    if glyphs.len() > 0 {
        lemma_max_height_nonneg(glyphs.drop_first());
    }
}

/// The sum of the advances of `glyphs`.
pub open spec fn advance_sum(glyphs: Seq<Glyph>) -> int
    decreases glyphs.len(),
{
    if glyphs.len() == 0 {
        0
    } else {
        glyphs[0].advance + advance_sum(glyphs.drop_first())
    }
}

/// The sum of the advances of `glyphs`, each negative one counted as zero.
pub open spec fn measured_width(glyphs: Seq<Glyph>) -> int
    decreases glyphs.len(),
{
    if glyphs.len() == 0 {
        0
    } else {
        max(glyphs[0].advance as int, 0) + measured_width(glyphs.drop_first())
    }
}

/// Measuring a text gives the width that drawing it covers, as long as no
/// glyph moves the pen backwards.
pub proof fn lemma_measure_matches_draw(glyphs: Seq<Glyph>)
    requires
        forall|i: int| 0 <= i < glyphs.len() ==> (#[trigger] glyphs[i]).advance >= 0,
    ensures
        measured_width(glyphs) == advance_sum(glyphs),
    decreases glyphs.len(),
{
    if glyphs.len() > 0 {
        assert forall|i: int| 0 <= i < glyphs.drop_first().len() implies (#[trigger] glyphs.drop_first()[i]).advance >= 0 by {
            assert(glyphs.drop_first()[i] == glyphs[i + 1]);
        }
        lemma_measure_matches_draw(glyphs.drop_first());
        assert(glyphs[0].advance >= 0);
    }
}

/// The greatest height of `glyphs`, zero when there is none.
pub open spec fn max_height(glyphs: Seq<Glyph>) -> int
    decreases glyphs.len(),
{
    if glyphs.len() == 0 {
        0
    } else {
        max(glyphs[0].height as int, max_height(glyphs.drop_first()))
    }
}

/// A glyph's bitmap matches its size, and no coordinate of it drawn with
/// the pen at `cursor` on baseline `y` overflows `i32`.
pub open spec fn glyph_fits(g: Glyph, cursor: int, y: int) -> bool {
    let bx = glyph_left(g, cursor);
    let by = glyph_top(g, y);
    &&& g.coverage@.len() == g.width * g.height
    &&& g.width <= i32::MAX
    &&& g.height <= i32::MAX
    &&& i32::MIN <= bx <= i32::MAX
    &&& i32::MIN <= y - g.height <= i32::MAX
    &&& i32::MIN <= by <= i32::MAX
    &&& g.width > 0 && g.height > 0 ==> bx + g.width - 1 <= i32::MAX && by + g.height - 1 <= i32::MAX
}

/// Every glyph fits and the pen stays within `i32` along the whole text
/// started at `x`, as does its distance from `x`.
pub open spec fn text_fits(cursor: int, x: int, y: int, glyphs: Seq<Glyph>) -> bool
    decreases glyphs.len(),
{
    if glyphs.len() == 0 {
        i32::MIN <= cursor - x <= i32::MAX
    } else {
        let g = glyphs[0];
        &&& glyph_fits(g, cursor, y)
        &&& i32::MIN <= cursor + g.advance <= i32::MAX
        &&& text_fits(cursor + g.advance, x, y, glyphs.drop_first())
    }
}

// ── Lines ─────────────────────────────────────────────────────────────────────

/// The square of half-side `half` around `(x, y)`; empty when `half` is negative.
pub open spec fn square(x: int, y: int, half: int) -> spec_fn(int, int) -> bool {
    |a: int, b: int| -half <= a - x <= half && -half <= b - y <= half
}

/// Half the brush width of a line: the thickness read as `i32`, halved
/// toward zero.
pub open spec fn half_width(thickness: u32) -> int {
    let t = (thickness as i32) as int;
    if t >= 0 {
        t / 2
    } else {
        -((-t) / 2)
    }
}

/// The absolute value of `v`.
pub open spec fn abs(v: int) -> int {
    if v < 0 {
        -v
    } else {
        v
    }
}

/// The greater of `a` and `b`.
pub open spec fn max(a: int, b: int) -> int {
    if a < b {
        b
    } else {
        a
    }
}

/// The points that Bresenham's walk visits from `(x, y)` with error term
/// `err` toward `(x1, y1)`, taking at most `fuel` steps.
pub open spec fn line_walk(
    x: int,
    y: int,
    err: int,
    x1: int,
    y1: int,
    dx: int,
    dy: int,
    sx: int,
    sy: int,
    fuel: nat,
) -> Seq<(int, int)>
    decreases fuel,
{
    if (x == x1 && y == y1) || fuel == 0 {
        seq![(x, y)]
    } else {
        let e2 = 2 * err;
        let err_a = if e2 > -dy { err - dy } else { err };
        let xa = if e2 > -dy { x + sx } else { x };
        let err_b = if e2 < dx { err_a + dx } else { err_a };
        let yb = if e2 < dx { y + sy } else { y };
        seq![(x, y)] + line_walk(xa, yb, err_b, x1, y1, dx, dy, sx, sy, (fuel - 1) as nat)
    }
}

/// The points of the line from `(x0, y0)` to `(x1, y1)` in the order
/// Bresenham's algorithm visits them.
pub open spec fn line_points(x0: int, y0: int, x1: int, y1: int) -> Seq<(int, int)> {
    let dx = abs(x1 - x0);
    let dy = abs(y1 - y0);
    let sx = if x0 < x1 { 1int } else { -1int };
    let sy = if y0 < y1 { 1int } else { -1int };
    line_walk(x0, y0, dx - dy, x1, y1, dx, dy, sx, sy, (dx + dy) as nat)
}

/// The buffer after painting, in order, the square of half-side `half`
/// around each of `pts`.
pub open spec fn stamps(s: Seq<u32>, w: u32, h: u32, pts: Seq<(int, int)>, half: int, c: Color) -> Seq<u32>
    decreases pts.len(),
{
    if pts.len() == 0 {
        s
    } else {
        stamps(paint(s, w, h, square(pts[0].0, pts[0].1, half), c), w, h, pts.drop_first(), half, c)
    }
}

/// The state of a walk that still has `(x1 - x) * sx` steps to go along x and
/// `(y1 - y) * sy` along y, within the fuel left.
pub open spec fn walk_inv(
    x: int,
    y: int,
    err: int,
    x1: int,
    y1: int,
    dx: int,
    dy: int,
    sx: int,
    sy: int,
    fuel: nat,
) -> bool {
    let rx = (x1 - x) * sx;
    let ry = (y1 - y) * sy;
    &&& sx == 1 || sx == -1
    &&& sy == 1 || sy == -1
    &&& 0 <= rx <= dx
    &&& 0 <= ry <= dy
    &&& err == dx - dy + rx * dy - ry * dx
    &&& rx + ry <= fuel
}

/// One step of the walk keeps its invariant, with one unit of fuel less.
pub proof fn lemma_walk_step(
    x: int,
    y: int,
    err: int,
    x1: int,
    y1: int,
    dx: int,
    dy: int,
    sx: int,
    sy: int,
    fuel: nat,
)
    requires
        walk_inv(x, y, err, x1, y1, dx, dy, sx, sy, fuel),
        !(x == x1 && y == y1),
    ensures
        fuel > 0,
        ({
            let e2 = 2 * err;
            let err_a = if e2 > -dy { err - dy } else { err };
            let xa = if e2 > -dy { x + sx } else { x };
            let err_b = if e2 < dx { err_a + dx } else { err_a };
            let yb = if e2 < dx { y + sy } else { y };
            &&& walk_inv(xa, yb, err_b, x1, y1, dx, dy, sx, sy, (fuel - 1) as nat)
            &&& -1 <= xa - x <= 1
            &&& -1 <= yb - y <= 1
        }),
{
    let rx = (x1 - x) * sx;
    let ry = (y1 - y) * sy;
    assert(rx == 0 <==> x == x1) by (nonlinear_arith)
        requires rx == (x1 - x) * sx, sx == 1 || sx == -1;
    assert(ry == 0 <==> y == y1) by (nonlinear_arith)
        requires ry == (y1 - y) * sy, sy == 1 || sy == -1;
    let e2 = 2 * err;
    if rx == 0 {
        assert(ry * dx >= dx) by (nonlinear_arith)
            requires ry >= 1, dx >= 0;
        assert(rx * dy == 0) by (nonlinear_arith)
            requires rx == 0;
    }
    if ry == 0 {
        assert(rx * dy >= dy) by (nonlinear_arith)
            requires rx >= 1, dy >= 0;
        assert(ry * dx == 0) by (nonlinear_arith)
            requires ry == 0;
    }
    let mx = e2 > -dy;
    let my = e2 < dx;
    let rx2 = if mx { rx - 1 } else { rx };
    let ry2 = if my { ry - 1 } else { ry };
    let xa = if mx { x + sx } else { x };
    let yb = if my { y + sy } else { y };
    assert((x1 - xa) * sx == rx2) by (nonlinear_arith)
        requires rx == (x1 - x) * sx, sx == 1 || sx == -1, xa == (if mx { x + sx } else { x }),
            rx2 == (if mx { rx - 1 } else { rx });
    assert((y1 - yb) * sy == ry2) by (nonlinear_arith)
        requires ry == (y1 - y) * sy, sy == 1 || sy == -1, yb == (if my { y + sy } else { y }),
            ry2 == (if my { ry - 1 } else { ry });
    assert(rx2 * dy == (if mx { rx * dy - dy } else { rx * dy })) by (nonlinear_arith)
        requires rx2 == (if mx { rx - 1 } else { rx });
    assert(ry2 * dx == (if my { ry * dx - dx } else { ry * dx })) by (nonlinear_arith)
        requires ry2 == (if my { ry - 1 } else { ry });
    let err_a = if mx { err - dy } else { err };
    let err_b = if my { err_a + dx } else { err_a };
    assert(mx || my);
    assert(0 <= rx2 <= dx);
    assert(0 <= ry2 <= dy);
    assert(err_b == dx - dy + rx2 * dy - ry2 * dx);
    assert(rx2 + ry2 <= fuel - 1);
}

/// Every value the walk from `(x, y)` computes fits `i32`: the doubled
/// error term, and the error term after each move.
pub open spec fn walk_fits(
    x: int,
    y: int,
    err: int,
    x1: int,
    y1: int,
    dx: int,
    dy: int,
    sx: int,
    sy: int,
    fuel: nat,
) -> bool
    decreases fuel,
{
    if (x == x1 && y == y1) || fuel == 0 {
        true
    } else {
        let e2 = 2 * err;
        let err_a = if e2 > -dy { err - dy } else { err };
        let xa = if e2 > -dy { x + sx } else { x };
        let err_b = if e2 < dx { err_a + dx } else { err_a };
        let yb = if e2 < dx { y + sy } else { y };
        &&& i32::MIN <= e2 <= i32::MAX
        &&& i32::MIN <= err_a <= i32::MAX
        &&& i32::MIN <= err_b <= i32::MAX
        &&& walk_fits(xa, yb, err_b, x1, y1, dx, dy, sx, sy, (fuel - 1) as nat)
    }
}

/// No value computed while drawing the line overflows `i32`: the
/// differences of the endpoints and their absolute values, every value of
/// the walk, and every coordinate the brush touches.
pub open spec fn line_fits(x0: i32, y0: i32, x1: i32, y1: i32, thickness: u32) -> bool {
    let half = half_width(thickness);
    let dx = abs(x1 - x0);
    let dy = abs(y1 - y0);
    let sx = if x0 < x1 { 1int } else { -1int };
    let sy = if y0 < y1 { 1int } else { -1int };
    &&& i32::MIN < x1 - x0 <= i32::MAX
    &&& i32::MIN < y1 - y0 <= i32::MAX
    &&& walk_fits(x0 as int, y0 as int, dx - dy, x1 as int, y1 as int, dx, dy, sx, sy, (dx + dy) as nat)
    &&& half >= 0 ==> {
        &&& i32::MIN <= x0 - half && x0 + half <= i32::MAX
        &&& i32::MIN <= x1 - half && x1 + half <= i32::MAX
        &&& i32::MIN <= y0 - half && y0 + half <= i32::MAX
        &&& i32::MIN <= y1 - half && y1 + half <= i32::MAX
    }
}

/// The walk from `(x, y)` ends at `(x1, y1)`, moves one point at a time,
/// and starts where it stands.
pub proof fn lemma_walk_reaches_end(
    x: int,
    y: int,
    err: int,
    x1: int,
    y1: int,
    dx: int,
    dy: int,
    sx: int,
    sy: int,
    fuel: nat,
)
    requires
        walk_inv(x, y, err, x1, y1, dx, dy, sx, sy, fuel),
    ensures
        ({
            let pts = line_walk(x, y, err, x1, y1, dx, dy, sx, sy, fuel);
            &&& pts.len() >= 1
            &&& pts[0] == (x, y)
            &&& pts.last() == (x1, y1)
            &&& forall|i: int| #![trigger pts[i]] 0 <= i < pts.len() - 1 ==>
                -1 <= pts[i + 1].0 - pts[i].0 <= 1 && -1 <= pts[i + 1].1 - pts[i].1 <= 1
            &&& forall|i: int| #![trigger pts[i]] 0 <= i < pts.len() ==>
                min(x, x1) <= pts[i].0 <= max(x, x1) && min(y, y1) <= pts[i].1 <= max(y, y1)
        }),
    decreases fuel,
{
    if !(x == x1 && y == y1) {
        lemma_walk_step(x, y, err, x1, y1, dx, dy, sx, sy, fuel);
        let e2 = 2 * err;
        let err_a = if e2 > -dy { err - dy } else { err };
        let xa = if e2 > -dy { x + sx } else { x };
        let err_b = if e2 < dx { err_a + dx } else { err_a };
        let yb = if e2 < dx { y + sy } else { y };
        lemma_walk_reaches_end(xa, yb, err_b, x1, y1, dx, dy, sx, sy, (fuel - 1) as nat);
        let rest = line_walk(xa, yb, err_b, x1, y1, dx, dy, sx, sy, (fuel - 1) as nat);
        let pts = line_walk(x, y, err, x1, y1, dx, dy, sx, sy, fuel);
        assert(pts == seq![(x, y)] + rest);
        assert((x1 - x) * sx >= 0 && (x1 - xa) * sx >= 0);
        assert((y1 - y) * sy >= 0 && (y1 - yb) * sy >= 0);
        assert((x1 - x) * sx == (if sx == 1 { x1 - x } else { x - x1 })) by (nonlinear_arith)
            requires sx == 1 || sx == -1;
        assert((x1 - xa) * sx == (if sx == 1 { x1 - xa } else { xa - x1 })) by (nonlinear_arith)
            requires sx == 1 || sx == -1;
        assert((y1 - y) * sy == (if sy == 1 { y1 - y } else { y - y1 })) by (nonlinear_arith)
            requires sy == 1 || sy == -1;
        assert((y1 - yb) * sy == (if sy == 1 { y1 - yb } else { yb - y1 })) by (nonlinear_arith)
            requires sy == 1 || sy == -1;
        assert forall|i: int| #![trigger pts[i]] 0 <= i < pts.len() - 1 implies
            -1 <= pts[i + 1].0 - pts[i].0 <= 1 && -1 <= pts[i + 1].1 - pts[i].1 <= 1 by {
            if i > 0 {
                assert(pts[i] == rest[i - 1]);
                assert(pts[i + 1] == rest[i]);
            }
        }
        assert forall|i: int| #![trigger pts[i]] 0 <= i < pts.len() implies
            min(x, x1) <= pts[i].0 <= max(x, x1) && min(y, y1) <= pts[i].1 <= max(y, y1) by {
            if i > 0 {
                assert(pts[i] == rest[i - 1]);
            }
        }
    }
}

/// The walk of a line starts in a state that keeps the walk invariant.
pub proof fn lemma_line_init(x0: int, y0: int, x1: int, y1: int)
    ensures
        walk_inv(
            x0, y0, abs(x1 - x0) - abs(y1 - y0), x1, y1, abs(x1 - x0), abs(y1 - y0),
            if x0 < x1 { 1int } else { -1int },
            if y0 < y1 { 1int } else { -1int },
            (abs(x1 - x0) + abs(y1 - y0)) as nat,
        ),
{
    let dx = abs(x1 - x0);
    let dy = abs(y1 - y0);
    let sx = if x0 < x1 { 1int } else { -1int };
    let sy = if y0 < y1 { 1int } else { -1int };
    assert((x1 - x0) * sx == dx) by (nonlinear_arith)
        requires sx == (if x0 < x1 { 1int } else { -1int }), dx == abs(x1 - x0);
    assert((y1 - y0) * sy == dy) by (nonlinear_arith)
        requires sy == (if y0 < y1 { 1int } else { -1int }), dy == abs(y1 - y0);
    assert(dx * dy == dy * dx) by (nonlinear_arith);
}

/// A line starts at its first endpoint, ends at its second, and each of its
/// points touches the one before it (8-connected); it stays within the box
/// spanned by its endpoints.
pub proof fn lemma_line_connects(x0: int, y0: int, x1: int, y1: int)
    ensures
        ({
            let pts = line_points(x0, y0, x1, y1);
            &&& pts.len() >= 1
            &&& pts[0] == (x0, y0)
            &&& pts.last() == (x1, y1)
            &&& forall|i: int| #![trigger pts[i]] 0 <= i < pts.len() - 1 ==>
                -1 <= pts[i + 1].0 - pts[i].0 <= 1 && -1 <= pts[i + 1].1 - pts[i].1 <= 1
            &&& forall|i: int| #![trigger pts[i]] 0 <= i < pts.len() ==>
                min(x0, x1) <= pts[i].0 <= max(x0, x1) && min(y0, y1) <= pts[i].1 <= max(y0, y1)
        }),
{
    lemma_line_init(x0, y0, x1, y1);
    let dx = abs(x1 - x0);
    let dy = abs(y1 - y0);
    let sx = if x0 < x1 { 1int } else { -1int };
    let sy = if y0 < y1 { 1int } else { -1int };
    lemma_walk_reaches_end(x0, y0, dx - dy, x1, y1, dx, dy, sx, sy, (dx + dy) as nat);
}

/// A point of the walk that still has steps to go lies between the endpoints.
pub proof fn lemma_between(x: int, x0: int, x1: int, sx: int, dx: int)
    requires
        sx == (if x0 < x1 { 1int } else { -1int }),
        dx == abs(x1 - x0),
        0 <= (x1 - x) * sx <= dx,
    ensures
        min(x0, x1) <= x <= max(x0, x1),
{
    assert((x1 - x) * sx == (if sx == 1 { x1 - x } else { x - x1 })) by (nonlinear_arith)
        requires sx == 1 || sx == -1;
}

/// The lesser of `a` and `b`.
pub open spec fn min(a: int, b: int) -> int {
    if a < b {
        a
    } else {
        b
    }
}

/// The buffer after drawing a rounded rectangle as `draw_rounded_rect`
/// does: two overlapping bands, then a disk at each corner. Where they
/// overlap a translucent color is blended more than once.
pub open spec fn rounded_rect_paint(
    s: Seq<u32>,
    cw: u32,
    ch: u32,
    x: int,
    y: int,
    w: u32,
    h: u32,
    radius: u32,
    c: Color,
) -> Seq<u32> {
    let rad = radius as int;
    let wi = (w as i32) as int;
    let hi = (h as i32) as int;
    let s1 = paint(s, cw, ch, rect(x + rad, y, ((w - 2 * radius) as u32 as i32) as int, hi), c);
    let s2 = paint(s1, cw, ch, rect(x, y + rad, wi, ((h - 2 * radius) as u32 as i32) as int), c);
    let s3 = paint(s2, cw, ch, disk(x + rad, y + rad, rad), c);
    let s4 = paint(s3, cw, ch, disk(x + wi - rad - 1, y + rad, rad), c);
    let s5 = paint(s4, cw, ch, disk(x + rad, y + hi - rad - 1, rad), c);
    paint(s5, cw, ch, disk(x + wi - rad - 1, y + hi - rad - 1, rad), c)
}

/// The radius fits twice in each side, and no coordinate of the bands and
/// corners overflows `i32`.
pub open spec fn rounded_rect_fits(x: i32, y: i32, w: u32, h: u32, radius: u32) -> bool {
    let rad = radius as int;
    let wi = (w as i32) as int;
    let hi = (h as i32) as int;
    &&& 2 * radius <= w
    &&& 2 * radius <= h
    &&& x + rad <= i32::MAX
    &&& y + rad <= i32::MAX
    &&& x + wi <= i32::MAX && i32::MIN <= x + wi - rad - 1
    &&& y + hi <= i32::MAX && i32::MIN <= y + hi - rad - 1
    &&& rect_fits((x + rad) as i32, y, (w - 2 * radius) as u32, h)
    &&& rect_fits(x, (y + rad) as i32, w, (h - 2 * radius) as u32)
    &&& square_fits((x + rad) as i32, (y + rad) as i32, rad as i32)
    &&& square_fits((x + wi - rad - 1) as i32, (y + rad) as i32, rad as i32)
    &&& square_fits((x + rad) as i32, (y + hi - rad - 1) as i32, rad as i32)
    &&& square_fits((x + wi - rad - 1) as i32, (y + hi - rad - 1) as i32, rad as i32)
}

/// A radius whose squared distances fit `i32` is below `2^16`.
pub proof fn lemma_small_radius(r: int)
    requires
        0 <= r,
        2 * (r * r) <= i32::MAX,
    ensures
        r < 0x10000,
{
    if r >= 0x10000 {
        assert(r * r >= 0x10000 * 0x10000) by (nonlinear_arith)
            requires r >= 0x10000;
    }
}

/// A coordinate within `r` of the centre has a square within `r * r`.
pub proof fn lemma_sq_le(d: int, r: int)
    requires
        -r <= d <= r,
    ensures
        0 <= d * d <= r * r,
{
    assert(0 <= d * d <= r * r) by (nonlinear_arith)
        requires -r <= d <= r;
}

/// The row-major index of a point of a `w` by `h` grid lies inside it.
pub proof fn lemma_index_in_bounds(w: int, h: int, x: int, y: int)
    requires
        0 <= x < w,
        0 <= y < h,
    ensures
        0 <= y * w + x < w * h,
        y * w + x <= y * w + w,
{
    assert(y * w + x < w * h) by (nonlinear_arith)
        requires 0 <= x < w, 0 <= y < h;
    assert(0 <= y * w) by (nonlinear_arith)
        requires 0 <= y, 0 <= w;
}



// ── Laws of the drawn shapes ──────────────────────────────────────────────────

/// A point lies in the disk of radius `r >= 0` around `(cx, cy)` exactly
/// when its squared distance from the centre is at most `r * r`.
pub proof fn lemma_disk_is_euclidean(cx: int, cy: int, r: int, a: int, b: int)
    requires
        0 <= r,
    ensures
        disk(cx, cy, r)(a, b) <==> (a - cx) * (a - cx) + (b - cy) * (b - cy) <= r * r,
{
    let dx = a - cx;
    let dy = b - cy;
    if dx * dx + dy * dy <= r * r {
        assert(-r <= dx <= r && -r <= dy <= r) by (nonlinear_arith)
            requires dx * dx + dy * dy <= r * r, 0 <= r;
    }
}

/// Drawing a filled circle of radius `r >= 0` blends `c` into exactly the
/// visible points whose squared distance from the centre is at most
/// `r * r`, once each; a negative radius draws nothing.
pub proof fn lemma_circle_pixel(s: Seq<u32>, w: u32, h: u32, cx: int, cy: int, r: int, c: Color, a: int, b: int)
    requires
        s.len() == w * h,
        visible(w, h, a, b),
    ensures
        paint(s, w, h, disk(cx, cy, r), c)[b * w + a] == (if 0 <= r && (a - cx) * (a - cx) + (b - cy) * (b - cy)
            <= r * r {
            blend(s[b * w + a], c)
        } else {
            s[b * w + a]
        }),
{
    lemma_paint_pixel(s, w, h, disk(cx, cy, r), |p: int, q: int| c, a, b);
    if 0 <= r {
        lemma_disk_is_euclidean(cx, cy, r, a, b);
    }
}

/// Whether `(a, b)` lies within distance `r` of `(cx, cy)`.
pub open spec fn within(a: int, b: int, cx: int, cy: int, r: int) -> bool {
    (a - cx) * (a - cx) + (b - cy) * (b - cy) <= r * r
}

/// The points of the `w` by `h` rectangle at `(x, y)` with corners rounded
/// to radius `r`: the two bands that cross it, and the points within `r`
/// of the four corner centres, each `r` pixels in from two sides.
pub open spec fn in_rounded_rect(x: int, y: int, w: int, h: int, r: int, a: int, b: int) -> bool {
    ||| (x + r <= a < x + w - r && y <= b < y + h)
    ||| (x <= a < x + w && y + r <= b < y + h - r)
    ||| within(a, b, x + r, y + r, r)
    ||| within(a, b, x + w - r - 1, y + r, r)
    ||| within(a, b, x + r, y + h - r - 1, r)
    ||| within(a, b, x + w - r - 1, y + h - r - 1, r)
}

/// An opaque rounded rectangle replaces exactly the visible points of the
/// rectangle with its corners rounded, and leaves every other pixel.
pub proof fn lemma_rounded_rect_pixel(
    s: Seq<u32>,
    cw: u32,
    ch: u32,
    x: i32,
    y: i32,
    w: u32,
    h: u32,
    radius: u32,
    c: Color,
    a: int,
    b: int,
)
    requires
        s.len() == cw * ch,
        visible(cw, ch, a, b),
        w <= 0x7fff_ffff,
        h <= 0x7fff_ffff,
        rounded_rect_fits(x, y, w, h, radius),
        c.a == 255,
    ensures
        rounded_rect_paint(s, cw, ch, x as int, y as int, w, h, radius, c)[b * cw + a] == (if in_rounded_rect(
            x as int, y as int, w as int, h as int, radius as int, a, b) {
            packed(c.r as int, c.g as int, c.b as int) as u32
        } else {
            s[b * cw + a]
        }),
{
    let rad = radius as int;
    lemma_size_as_i32(w);
    lemma_size_as_i32(h);
    lemma_size_as_i32((w - 2 * radius) as u32);
    lemma_size_as_i32((h - 2 * radius) as u32);
    let wi = (w as i32) as int;
    let hi = (h as i32) as int;
    let i = b * cw + a;
    let k = |p: int, q: int| c;
    let r1 = rect(x + rad, y as int, ((w - 2 * radius) as u32 as i32) as int, hi);
    let r2 = rect(x as int, y + rad, wi, ((h - 2 * radius) as u32 as i32) as int);
    let d1 = disk(x + rad, y + rad, rad);
    let d2 = disk(x + wi - rad - 1, y + rad, rad);
    let d3 = disk(x + rad, y + hi - rad - 1, rad);
    let d4 = disk(x + wi - rad - 1, y + hi - rad - 1, rad);
    let s1 = paint(s, cw, ch, r1, c);
    let s2 = paint(s1, cw, ch, r2, c);
    let s3 = paint(s2, cw, ch, d1, c);
    let s4 = paint(s3, cw, ch, d2, c);
    let s5 = paint(s4, cw, ch, d3, c);
    let s6 = paint(s5, cw, ch, d4, c);
    lemma_paint_pixel(s, cw, ch, r1, k, a, b);
    lemma_paint_pixel(s1, cw, ch, r2, k, a, b);
    lemma_paint_pixel(s2, cw, ch, d1, k, a, b);
    lemma_paint_pixel(s3, cw, ch, d2, k, a, b);
    lemma_paint_pixel(s4, cw, ch, d3, k, a, b);
    lemma_paint_pixel(s5, cw, ch, d4, k, a, b);
    lemma_disk_is_euclidean(x + rad, y + rad, rad, a, b);
    lemma_disk_is_euclidean(x + wi - rad - 1, y + rad, rad, a, b);
    lemma_disk_is_euclidean(x + rad, y + hi - rad - 1, rad, a, b);
    lemma_disk_is_euclidean(x + wi - rad - 1, y + hi - rad - 1, rad, a, b);
    assert(s6 == rounded_rect_paint(s, cw, ch, x as int, y as int, w, h, radius, c));
}

/// A rounded rectangle looks the same turned half a turn about its centre:
/// where a pixel and its mirror image `(2x + w - 1 - a, 2y + h - 1 - b)`
/// start equal, drawing an opaque rounded rectangle leaves them equal.
pub proof fn lemma_rounded_rect_symmetric(
    s: Seq<u32>,
    cw: u32,
    ch: u32,
    x: i32,
    y: i32,
    w: u32,
    h: u32,
    radius: u32,
    c: Color,
    a: int,
    b: int,
)
    requires
        s.len() == cw * ch,
        visible(cw, ch, a, b),
        visible(cw, ch, 2 * x + w - 1 - a, 2 * y + h - 1 - b),
        s[b * cw + a] == s[(2 * y + h - 1 - b) * cw + (2 * x + w - 1 - a)],
        w <= 0x7fff_ffff,
        h <= 0x7fff_ffff,
        rounded_rect_fits(x, y, w, h, radius),
        c.a == 255,
    ensures
        rounded_rect_paint(s, cw, ch, x as int, y as int, w, h, radius, c)[b * cw + a]
            == rounded_rect_paint(s, cw, ch, x as int, y as int, w, h, radius, c)[(2 * y + h - 1 - b) * cw + (2
            * x + w - 1 - a)],
{
    let ma = 2 * x + w - 1 - a;
    let mb = 2 * y + h - 1 - b;
    let r = radius as int;
    lemma_rounded_rect_pixel(s, cw, ch, x, y, w, h, radius, c, a, b);
    lemma_rounded_rect_pixel(s, cw, ch, x, y, w, h, radius, c, ma, mb);
    assert(ma - (x + w - r - 1) == -(a - (x + r)));
    assert(mb - (y + h - r - 1) == -(b - (y + r)));
    assert(ma - (x + r) == -(a - (x + w - r - 1)));
    assert(mb - (y + r) == -(b - (y + h - r - 1)));
    assert(forall|d: int| #[trigger] ((-d) * (-d)) == d * d) by (nonlinear_arith);
    assert(in_rounded_rect(x as int, y as int, w as int, h as int, r, a, b) == in_rounded_rect(
        x as int, y as int, w as int, h as int, r, ma, mb));
}

/// A scaled image gives the point at offset `(dx, dy)` inside its rectangle
/// the source pixel at row `rows[dy]` and column `cols[dx]`; a row or column
/// past the source's last one reads that last one. Points outside the
/// rectangle keep their pixel.
pub proof fn lemma_scaled_pixel(
    s: Seq<u32>,
    cw: u32,
    ch: u32,
    pixels: Seq<Color>,
    sw: int,
    sh: int,
    cols: Seq<u32>,
    rows: Seq<u32>,
    x: int,
    y: int,
    a: int,
    b: int,
)
    requires
        s.len() == cw * ch,
        visible(cw, ch, a, b),
    ensures
        paint_with(s, cw, ch, rect(x, y, cols.len() as int, rows.len() as int), sampled_colors(
            pixels, sw, sh, cols, rows, x, y))[b * cw + a] == (if x <= a < x + cols.len() && y <= b < y
            + rows.len() {
            let sy: int = if (rows[b - y] as int) < sh { rows[b - y] as int } else { sh - 1 };
            let sx: int = if (cols[a - x] as int) < sw { cols[a - x] as int } else { sw - 1 };
            blend(s[b * cw + a], pixels[sy * sw + sx])
        } else {
            s[b * cw + a]
        }),
{
    lemma_paint_pixel(
        s, cw, ch, rect(x, y, cols.len() as int, rows.len() as int),
        sampled_colors(pixels, sw, sh, cols, rows, x, y), a, b,
    );
}

/// A glyph's bitmap is placed with its left column `xmin` past the pen and
/// its bottom row `ymin` rows above the baseline (a negative `ymin`, a
/// descender, hangs below it): drawing one glyph blends each covered point
/// of that box with the text color scaled by its coverage, and leaves every
/// other pixel.
pub proof fn lemma_glyph_pixel(
    s: Seq<u32>,
    w: u32,
    h: u32,
    cursor: int,
    y: int,
    g: Glyph,
    c: Color,
    a: int,
    b: int,
)
    requires
        s.len() == w * h,
        visible(w, h, a, b),
    ensures
        text_paint(s, w, h, cursor, y, seq![g], c)[b * w + a] == (if cursor + g.xmin <= a < cursor + g.xmin
            + g.width && y - g.ymin - g.height <= b < y - g.ymin && g.coverage@[(b - (y - g.ymin - g.height))
            * g.width + (a - (cursor + g.xmin))] > 0 {
            let cov = g.coverage@[(b - (y - g.ymin - g.height)) * g.width + (a - (cursor + g.xmin))] as int;
            blend(s[b * w + a], Color { r: c.r, g: c.g, b: c.b, a: (cov * c.a / 255) as u8 })
        } else {
            s[b * w + a]
        }),
{
    let bx = glyph_left(g, cursor);
    let by = glyph_top(g, y);
    let s1 = paint_with(s, w, h, glyph_region(g, bx, by), glyph_colors(g, bx, by, c));
    assert(seq![g].drop_first() =~= Seq::<Glyph>::empty());
    reveal_with_fuel(text_paint, 2);
    assert(text_paint(s, w, h, cursor, y, seq![g], c) == s1);
    lemma_paint_pixel(s, w, h, glyph_region(g, bx, by), glyph_colors(g, bx, by, c), a, b);
}


/// Drawing a ring with outer radius `outer >= 0` blends `c` into exactly the
/// visible points whose squared distance from the centre lies between
/// `inner * inner` and `outer * outer`, both included; a negative outer
/// radius draws nothing.
pub proof fn lemma_ring_pixel(
    s: Seq<u32>,
    w: u32,
    h: u32,
    cx: int,
    cy: int,
    outer: int,
    inner: int,
    c: Color,
    a: int,
    b: int,
)
    requires
        s.len() == w * h,
        visible(w, h, a, b),
    ensures
        paint(s, w, h, ring(cx, cy, outer, inner), c)[b * w + a] == (if 0 <= outer && inner * inner <= (a - cx) * (
        a - cx) + (b - cy) * (b - cy) <= outer * outer {
            blend(s[b * w + a], c)
        } else {
            s[b * w + a]
        }),
{
    lemma_paint_pixel(s, w, h, ring(cx, cy, outer, inner), |p: int, q: int| c, a, b);
    if 0 <= outer {
        lemma_disk_is_euclidean(cx, cy, outer, a, b);
    }
}

/// Filling the `rw` by `rh` rectangle at `(x, y)` blends `c` into exactly
/// the visible points with `x <= a < x + rw` and `y <= b < y + rh`.
pub proof fn lemma_rect_pixel(s: Seq<u32>, w: u32, h: u32, x: int, y: int, rw: int, rh: int, c: Color, a: int, b: int)
    requires
        s.len() == w * h,
        visible(w, h, a, b),
    ensures
        paint(s, w, h, rect(x, y, rw, rh), c)[b * w + a] == (if x <= a < x + rw && y <= b < y + rh {
            blend(s[b * w + a], c)
        } else {
            s[b * w + a]
        }),
{
    lemma_paint_pixel(s, w, h, rect(x, y, rw, rh), |p: int, q: int| c, a, b);
}

/// An image drawn with its top-left corner at `(x, y)` gives the point at
/// offset `(dx, dy)` inside it the image's pixel in row `dy`, column `dx`,
/// and leaves every point outside it.
pub proof fn lemma_image_pixel(
    s: Seq<u32>,
    cw: u32,
    ch: u32,
    pixels: Seq<Color>,
    iw: int,
    ih: int,
    x: int,
    y: int,
    a: int,
    b: int,
)
    requires
        s.len() == cw * ch,
        visible(cw, ch, a, b),
    ensures
        paint_with(s, cw, ch, rect(x, y, iw, ih), image_colors(pixels, iw, x, y))[b * cw + a] == (if x <= a < x
            + iw && y <= b < y + ih {
            blend(s[b * cw + a], pixels[(b - y) * iw + (a - x)])
        } else {
            s[b * cw + a]
        }),
{
    lemma_paint_pixel(s, cw, ch, rect(x, y, iw, ih), image_colors(pixels, iw, x, y), a, b);
}

/// Drawing a text made of two parts draws the first part, then the second
/// with the pen moved on by the advances of the first.
pub proof fn lemma_text_concat(
    s: Seq<u32>,
    w: u32,
    h: u32,
    cursor: int,
    y: int,
    first: Seq<Glyph>,
    second: Seq<Glyph>,
    c: Color,
)
    ensures
        text_paint(s, w, h, cursor, y, first + second, c) == text_paint(
            text_paint(s, w, h, cursor, y, first, c), w, h, cursor + advance_sum(first), y, second, c),
    decreases first.len(),
{
    if first.len() == 0 {
        assert(first + second =~= second);
    } else {
        let g = first[0];
        let bx = glyph_left(g, cursor);
        let by = glyph_top(g, y);
        let s1 = paint_with(s, w, h, glyph_region(g, bx, by), glyph_colors(g, bx, by, c));
        assert((first + second).drop_first() =~= first.drop_first() + second);
        lemma_text_concat(s1, w, h, cursor + g.advance, y, first.drop_first(), second, c);
    }
}


/// Laying `src` over `dst` with any coverage gives a value between the two.
pub proof fn lemma_mix_between(src: int, dst: int, a: int)
    requires
        0 <= src < 256,
        0 <= dst < 256,
        0 <= a <= 255,
    ensures
        min(src, dst) <= mix(src, dst, a) <= max(src, dst),
        a == 255 ==> mix(src, dst, a) == src,
        a == 0 ==> mix(src, dst, a) == dst,
{
    let t = src * a + dst * (255 - a);
    assert(min(src, dst) * 255 <= t <= max(src, dst) * 255) by (nonlinear_arith)
        requires
            t == src * a + dst * (255 - a),
            0 <= a <= 255,
            min(src, dst) <= src <= max(src, dst),
            min(src, dst) <= dst <= max(src, dst),
    ;
    let lo = min(src, dst);
    let hi = max(src, dst);
    assert(lo <= t / 255 <= hi) by (nonlinear_arith)
        requires lo * 255 <= t <= hi * 255;
    if a == 255 {
        assert(t == src * 255) by (nonlinear_arith)
            requires t == src * a + dst * (255 - a), a == 255;
    }
    if a == 0 {
        assert(t == dst * 255) by (nonlinear_arith)
            requires t == src * a + dst * (255 - a), a == 0;
    }
}

/// Each channel of a pixel drawn over another lies between the channel of
/// the color and that of the pixel beneath: an opaque color gives its own
/// channels, a fully transparent one leaves the pixel.
pub proof fn lemma_blend_between(dst: u32, c: Color)
    ensures
        min(c.r as int, red(dst)) <= red(blend(dst, c)) <= max(c.r as int, red(dst)),
        min(c.g as int, green(dst)) <= green(blend(dst, c)) <= max(c.g as int, green(dst)),
        min(c.b as int, blue(dst)) <= blue(blend(dst, c)) <= max(c.b as int, blue(dst)),
        c.a == 255 ==> red(blend(dst, c)) == c.r && green(blend(dst, c)) == c.g && blue(blend(dst, c)) == c.b,
        c.a == 0 ==> blend(dst, c) == dst,
{
    if c.a == 255 {
        lemma_pack_channels(c.r, c.g, c.b);
    } else if c.a != 0 {
        let mr = mix(c.r as int, red(dst), c.a as int);
        let mg = mix(c.g as int, green(dst), c.a as int);
        let mb = mix(c.b as int, blue(dst), c.a as int);
        lemma_mix_between(c.r as int, red(dst), c.a as int);
        lemma_mix_between(c.g as int, green(dst), c.a as int);
        lemma_mix_between(c.b as int, blue(dst), c.a as int);
        lemma_pack_channels(mr as u8, mg as u8, mb as u8);
    }
}

} // verus!
