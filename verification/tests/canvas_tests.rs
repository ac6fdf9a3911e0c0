use scr33ny::canvas::{Canvas, Color, Glyph, Image};

fn px(c: &Canvas, x: usize, y: usize) -> u32 {
    c.buf[y * c.width as usize + x]
}

#[test]
fn color_constructors() {
    let c = Color::rgb(1, 2, 3);
    assert_eq!((c.r, c.g, c.b, c.a), (1, 2, 3, 255));
    let d = Color::rgba(4, 5, 6, 7);
    assert_eq!((d.r, d.g, d.b, d.a), (4, 5, 6, 7));
}

#[test]
fn pack_layout() {
    assert_eq!(scr33ny::canvas::pack(0x12, 0x34, 0x56), 0x00123456);
    assert_eq!(scr33ny::canvas::pack(255, 255, 255), 0x00ffffff);
}

#[test]
fn new_canvas_is_black() {
    let c = Canvas::new(4, 3);
    assert_eq!(c.buf.len(), 12);
    assert!(c.buf.iter().all(|&p| p == 0));
}

#[test]
fn resize_keeps_prefix_and_grows_black() {
    let mut c = Canvas::new(2, 2);
    c.set_pixel(1, 0, Color::rgb(9, 9, 9));
    c.resize(3, 2);
    assert_eq!(c.buf.len(), 6);
    assert_eq!(c.buf[1], 0x090909);
    assert_eq!(&c.buf[4..], &[0, 0]);
    c.resize(1, 1);
    assert_eq!(c.buf, vec![0]);
}

#[test]
fn clear_blackens_and_is_idempotent() {
    let mut c = Canvas::new(3, 3);
    c.fill_rect(0, 0, 3, 3, Color::rgb(200, 100, 50));
    c.clear();
    assert!(c.buf.iter().all(|&p| p == 0));
    c.clear();
    assert!(c.buf.iter().all(|&p| p == 0));
}

#[test]
fn set_pixel_opaque_and_offscreen() {
    let mut c = Canvas::new(2, 2);
    c.set_pixel(1, 1, Color::rgb(0xaa, 0xbb, 0xcc));
    assert_eq!(px(&c, 1, 1), 0xaabbcc);
    let before = c.buf.clone();
    c.set_pixel(-1, 0, Color::rgb(1, 1, 1));
    c.set_pixel(2, 0, Color::rgb(1, 1, 1));
    c.set_pixel(0, 5, Color::rgb(1, 1, 1));
    assert_eq!(c.buf, before);
}

#[test]
fn set_pixel_blends_by_alpha() {
    let mut c = Canvas::new(1, 1);
    c.set_pixel(0, 0, Color::rgb(200, 100, 0));
    c.set_pixel(0, 0, Color::rgba(0, 0, 255, 51));
    // (0*51 + 200*204)/255 = 160, (0*51 + 100*204)/255 = 80, (255*51 + 0)/255 = 51
    assert_eq!(px(&c, 0, 0), (160 << 16) | (80 << 8) | 51);
}

#[test]
fn transparent_pixel_changes_nothing() {
    let mut c = Canvas::new(1, 1);
    c.buf[0] = 0xff123456;
    c.set_pixel(0, 0, Color::rgba(1, 2, 3, 0));
    assert_eq!(c.buf[0], 0xff123456);
}

#[test]
fn opaque_pixel_twice_is_once() {
    let mut a = Canvas::new(1, 1);
    let mut b = Canvas::new(1, 1);
    a.set_pixel(0, 0, Color::rgb(7, 8, 9));
    b.set_pixel(0, 0, Color::rgb(7, 8, 9));
    b.set_pixel(0, 0, Color::rgb(7, 8, 9));
    assert_eq!(a.buf, b.buf);
}

#[test]
fn fill_rect_paints_inside_only() {
    let mut c = Canvas::new(4, 4);
    c.fill_rect(1, 1, 2, 2, Color::rgb(255, 0, 0));
    for y in 0..4 {
        for x in 0..4 {
            let inside = (1..3).contains(&x) && (1..3).contains(&y);
            assert_eq!(px(&c, x, y), if inside { 0xff0000 } else { 0 });
        }
    }
}

#[test]
fn fill_rect_clips_to_canvas() {
    let mut c = Canvas::new(3, 3);
    c.fill_rect(-2, -2, 4, 4, Color::rgb(0, 255, 0));
    assert_eq!(px(&c, 0, 0), 0x00ff00);
    assert_eq!(px(&c, 1, 1), 0x00ff00);
    assert_eq!(px(&c, 2, 2), 0);
}

#[test]
fn draw_circle_radius_one_is_a_plus() {
    let mut c = Canvas::new(3, 3);
    c.draw_circle(1, 1, 1, Color::rgb(1, 1, 1));
    let on = 0x010101;
    assert_eq!(c.buf, vec![0, on, 0, on, on, on, 0, on, 0]);
}

#[test]
fn draw_circle_negative_radius_draws_nothing() {
    let mut c = Canvas::new(3, 3);
    c.draw_circle(1, 1, -1, Color::rgb(1, 1, 1));
    assert!(c.buf.iter().all(|&p| p == 0));
}

#[test]
fn draw_ring_leaves_the_hole() {
    let mut c = Canvas::new(5, 5);
    c.draw_ring(2, 2, 2, 1, Color::rgb(1, 1, 1));
    assert_eq!(px(&c, 2, 2), 0);
    assert_eq!(px(&c, 2, 1), 0x010101);
    assert_eq!(px(&c, 2, 0), 0x010101);
    assert_eq!(px(&c, 0, 0), 0);
}

#[test]
fn draw_line_connects_endpoints() {
    let mut c = Canvas::new(5, 5);
    c.draw_line(0, 0, 4, 2, 1, Color::rgb(1, 1, 1));
    let on = 0x010101;
    assert_eq!(px(&c, 0, 0), on);
    assert_eq!(px(&c, 4, 2), on);
    let lit: usize = c.buf.iter().filter(|&&p| p == on).count();
    assert_eq!(lit, 5);
    // one point per column
    for x in 0..5 {
        assert_eq!((0..5).filter(|&y| px(&c, x, y) == on).count(), 1);
    }
}

#[test]
fn draw_line_single_point_and_thick() {
    let mut c = Canvas::new(5, 5);
    c.draw_line(2, 2, 2, 2, 3, Color::rgb(1, 1, 1));
    let lit: usize = c.buf.iter().filter(|&&p| p != 0).count();
    assert_eq!(lit, 9);
    assert_eq!(px(&c, 1, 1), 0x010101);
    assert_eq!(px(&c, 3, 3), 0x010101);
}

#[test]
fn draw_line_thickness_two_is_one_pixel_wide_square_of_three() {
    // thickness 2 gives half-width 1: a 3-pixel brush
    let mut c = Canvas::new(5, 5);
    c.draw_line(2, 2, 2, 2, 2, Color::rgb(1, 1, 1));
    assert_eq!(c.buf.iter().filter(|&&p| p != 0).count(), 9);
}

#[test]
fn draw_line_backwards_vertical() {
    let mut c = Canvas::new(3, 4);
    c.draw_line(1, 3, 1, 0, 1, Color::rgb(2, 2, 2));
    for y in 0..4 {
        assert_eq!(px(&c, 1, y), 0x020202);
    }
}

#[test]
fn draw_rounded_rect_fills_body_and_corners() {
    let mut c = Canvas::new(6, 6);
    c.draw_rounded_rect(0, 0, 6, 6, 1, Color::rgb(3, 3, 3));
    let on = 0x030303;
    // corners of a 6x6 box with radius 1 are cut
    assert_eq!(px(&c, 0, 0), 0);
    assert_eq!(px(&c, 5, 0), 0);
    assert_eq!(px(&c, 0, 5), 0);
    assert_eq!(px(&c, 5, 5), 0);
    assert_eq!(px(&c, 1, 0), on);
    assert_eq!(px(&c, 0, 1), on);
    assert_eq!(px(&c, 3, 3), on);
}

#[test]
fn draw_rounded_rect_translucent_overlap_blends_twice() {
    let mut c = Canvas::new(3, 3);
    c.draw_rounded_rect(0, 0, 3, 3, 0, Color::rgba(255, 255, 255, 128));
    // both bands cover the centre: blended twice
    let once = (255 * 128) / 255;
    let twice = (255 * 128 + once * 127) / 255;
    let v = px(&c, 1, 1);
    assert_eq!(v & 0xff, twice as u32);
}

#[test]
fn draw_image_places_pixels() {
    let img = Image {
        width: 2,
        height: 1,
        pixels: vec![Color::rgb(1, 0, 0), Color::rgba(0, 0, 0, 0)],
    };
    let mut c = Canvas::new(3, 2);
    c.draw_image(1, 1, &img);
    assert_eq!(px(&c, 1, 1), 0x010000);
    assert_eq!(px(&c, 2, 1), 0);
    assert_eq!(px(&c, 0, 0), 0);
}

#[test]
fn draw_image_scaled_samples_and_clamps() {
    let img = Image {
        width: 2,
        height: 1,
        pixels: vec![Color::rgb(1, 1, 1), Color::rgb(2, 2, 2)],
    };
    let mut c = Canvas::new(4, 2);
    c.draw_image_scaled(0, 0, &img, &[0, 0, 1, 7], &[0, 9]);
    assert_eq!(&c.buf[0..4], &[0x010101, 0x010101, 0x020202, 0x020202]);
    assert_eq!(&c.buf[4..8], &[0x010101, 0x010101, 0x020202, 0x020202]);
}

fn glyph(w: u32, h: u32, adv: i32, cov: Vec<u8>) -> Glyph {
    Glyph { xmin: 0, ymin: 0, width: w, height: h, advance: adv, coverage: cov }
}

#[test]
fn draw_text_places_glyphs_on_baseline() {
    let mut c = Canvas::new(4, 3);
    let g = vec![glyph(1, 2, 2, vec![255, 0]), glyph(1, 1, 1, vec![255])];
    let (w, h) = c.draw_text(0, 2, &g, Color::rgb(9, 9, 9));
    assert_eq!((w, h), (3, 2));
    // first glyph: bitmap top at 2 - 2 = 0, covered only at its top row
    assert_eq!(px(&c, 0, 0), 0x090909);
    assert_eq!(px(&c, 0, 1), 0);
    // second glyph at pen 2, top at 2 - 1 = 1
    assert_eq!(px(&c, 2, 1), 0x090909);
}

#[test]
fn draw_text_scales_alpha_by_coverage() {
    let mut c = Canvas::new(1, 1);
    let g = vec![glyph(1, 1, 1, vec![51])];
    c.draw_text(0, 1, &g, Color::rgb(255, 255, 255));
    // alpha 51*255/255 = 51 over black: 255*51/255 = 51
    assert_eq!(c.buf[0], 0x333333);
}

#[test]
fn draw_text_negative_advance_wraps_width() {
    let mut c = Canvas::new(1, 1);
    let g = vec![glyph(0, 0, -1, vec![])];
    let (w, h) = c.draw_text(5, 0, &g, Color::rgb(1, 1, 1));
    assert_eq!(w, u32::MAX);
    assert_eq!(h, 0);
}

#[test]
fn measure_text_sums_advances_and_takes_max_height() {
    let g = vec![glyph(0, 5, 3, vec![]), glyph(0, 7, -2, vec![]), glyph(0, 1, 4, vec![])];
    assert_eq!(Canvas::measure_text(&g), (7, 7));
    assert_eq!(Canvas::measure_text(&[]), (0, 0));
}

#[test]
fn measure_matches_drawn_width() {
    let mut c = Canvas::new(8, 2);
    let g = vec![glyph(1, 1, 2, vec![255]), glyph(1, 2, 3, vec![255, 255])];
    let (dw, dh) = c.draw_text(0, 2, &g, Color::rgb(1, 1, 1));
    assert_eq!(Canvas::measure_text(&g), (dw, dh));
    assert_eq!((dw, dh), (5, 2));
}
