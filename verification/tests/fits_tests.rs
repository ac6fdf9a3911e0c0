use scr33ny::canvas::Glyph;
use scr33ny::fits::{
    fits_blit, fits_centering, fits_image, fits_line, fits_measure, fits_rect, fits_ring,
    fits_rounded_rect, fits_square, fits_text,
};

#[test]
fn rect_bounds() {
    assert!(fits_rect(0, 0, 10, 10));
    assert!(!fits_rect(i32::MAX, 0, 2, 1));
    assert!(fits_rect(i32::MAX, 0, 1, 1));
    assert!(fits_rect(i32::MAX, 0, 5, 0));
}

#[test]
fn square_and_ring_bounds() {
    assert!(fits_square(0, 0, 32767));
    assert!(!fits_square(0, 0, 40000));
    assert!(fits_square(0, 0, -5));
    assert!(!fits_square(0, 0, i32::MIN));
    assert!(!fits_square(i32::MAX, 0, 1));
    assert!(fits_ring(10, 10, 5, 4));
    assert!(!fits_ring(10, 10, 5, 50000));
}

#[test]
fn line_bounds_are_exact() {
    // a horizontal line longer than a third of i32::MAX still draws
    let long = i32::MAX / 2 - 10;
    assert!(fits_line(0, 0, long, 0, 1));
    assert!(!fits_line(0, 0, i32::MAX, 0, 1));
    assert!(!fits_line(i32::MIN, 0, 0, 0, 1));
    assert!(fits_line(0, 0, 10, 7, 3));
    assert!(!fits_line(i32::MAX, 0, i32::MAX, 0, 3));
}

#[test]
fn rounded_rect_bounds() {
    assert!(fits_rounded_rect(0, 0, 10, 10, 2));
    assert!(!fits_rounded_rect(0, 0, 10, 10, 6));
    assert!(!fits_rounded_rect(i32::MAX - 3, 0, 10, 10, 1));
}

#[test]
fn image_text_blit_bounds() {
    assert!(fits_image(0, 0, 100, 100));
    assert!(!fits_image(0, 0, 1 << 31, 1));
    let g = vec![Glyph { xmin: 0, ymin: 0, width: 1, height: 1, advance: 5, coverage: vec![1] }];
    assert!(fits_text(0, 10, &g));
    assert!(!fits_text(i32::MAX - 2, 10, &g));
    let bad = vec![Glyph { xmin: 0, ymin: 0, width: 2, height: 1, advance: 5, coverage: vec![1] }];
    assert!(!fits_text(0, 10, &bad));
    assert!(fits_measure(&g));
    let wide: Vec<Glyph> = (0..3)
        .map(|_| Glyph { xmin: 0, ymin: 0, width: 0, height: 0, advance: i32::MAX, coverage: vec![] })
        .collect();
    assert!(!fits_measure(&wide));
    assert!(fits_blit(1920, 1080, 2, 2));
    assert!(!fits_blit(70000, 70000, 0, 0));
    assert!(fits_centering(100, 100, 50, 50));
}
