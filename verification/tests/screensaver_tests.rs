use scr33ny::canvas::{Canvas, Color};
use scr33ny::screensaver::{centered_origin, frame_delay_millis, BlankScreensaver, GifPlayback};

#[test]
fn blank_renders_black() {
    let mut c = Canvas::new(2, 2);
    c.fill_rect(0, 0, 2, 2, Color::rgb(1, 1, 1));
    BlankScreensaver.render(&mut c);
    assert_eq!(c.buf, vec![0; 4]);
}

#[test]
fn centered_origin_centers_and_truncates() {
    assert_eq!(centered_origin(100, 50, 20, 10), (40, 20));
    assert_eq!(centered_origin(10, 10, 15, 13), (-2, -1));
    assert_eq!(centered_origin(5, 5, 2, 2), (1, 1));
}

#[test]
fn frame_delay_from_ratio() {
    assert_eq!(frame_delay_millis(100, 1), 100);
    assert_eq!(frame_delay_millis(7, 0), 7);
    assert_eq!(frame_delay_millis(10, 3), 3);
    assert_eq!(frame_delay_millis(250, 10), 25);
}

#[test]
fn gif_playback_advances_and_loops() {
    let mut p = GifPlayback::new(vec![1, 2]);
    assert_eq!(p.current_frame(), 0);
    p.advance(999_999);
    assert_eq!(p.current_frame(), 0);
    p.advance(1);
    assert_eq!(p.current_frame(), 1);
    p.advance(1_000_000);
    assert_eq!(p.current_frame(), 1);
    p.advance(1_000_000);
    assert_eq!(p.current_frame(), 0);
}

#[test]
fn gif_playback_without_frames_stays() {
    let mut p = GifPlayback::new(vec![]);
    p.advance(u64::MAX);
    assert_eq!(p.current_frame(), 0);
}

#[test]
fn gif_zero_delay_moves_every_frame() {
    let mut p = GifPlayback::new(vec![0, 0, 0]);
    p.advance(0);
    p.advance(0);
    assert_eq!(p.current_frame(), 2);
    p.advance(0);
    assert_eq!(p.current_frame(), 0);
}

use scr33ny::screensaver::typewriter_visible;

#[test]
fn typewriter_types_then_holds_then_restarts() {
    // 3 characters: cycle of 10 ticks
    let seen: Vec<usize> = (0..12).map(|t| typewriter_visible(t, 3)).collect();
    assert_eq!(seen, vec![0, 1, 2, 3, 3, 3, 3, 3, 3, 3, 0, 1]);
    assert_eq!(typewriter_visible(7, 0), 0);
}

use scr33ny::screensaver::typewriter_cursor;

#[test]
fn typewriter_cursor_blinks_while_typing() {
    assert!(typewriter_cursor(0, 0, 3));
    assert!(!typewriter_cursor(1, 1, 3));
    assert!(typewriter_cursor(2, 2, 3));
    assert!(!typewriter_cursor(4, 3, 3));
}
