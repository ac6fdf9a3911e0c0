use scr33ny::app::{apply_shifted, BurnShift};
use scr33ny::canvas::{Canvas, Color};

const SEC: u64 = 1_000_000_000;

#[test]
fn burn_shift_starts_unshifted() {
    let b = BurnShift::new(2, 120);
    assert_eq!(b.offset(), (0, 0));
}

#[test]
fn burn_shift_cycles_through_four_corners() {
    let mut b = BurnShift::new(2, 1);
    let mut seen = vec![];
    for _ in 0..5 {
        b.update(SEC);
        seen.push(b.offset());
    }
    assert_eq!(seen, vec![(2, 0), (2, 2), (0, 2), (0, 0), (2, 0)]);
}

#[test]
fn burn_shift_waits_a_whole_interval() {
    let mut b = BurnShift::new(3, 120);
    for _ in 0..1199 {
        b.update(SEC / 10);
    }
    assert_eq!(b.offset(), (0, 0));
    b.update(SEC / 10);
    assert_eq!(b.offset(), (3, 0));
    b.update(SEC / 10);
    assert_eq!(b.offset(), (3, 0));
}

#[test]
fn burn_shift_zero_interval_shifts_every_frame() {
    let mut b = BurnShift::new(1, 0);
    b.update(0);
    assert_eq!(b.offset(), (1, 0));
    b.update(0);
    assert_eq!(b.offset(), (1, 1));
}

#[test]
fn apply_shifted_moves_frame_and_blackens_gap() {
    let mut c = Canvas::new(3, 2);
    c.buf = vec![1, 2, 3, 4, 5, 6];
    let mut out = vec![9u32; 6];
    apply_shifted(&c, &mut out, 1, 1);
    assert_eq!(out, vec![0, 0, 0, 0, 1, 2]);
}

#[test]
fn apply_shifted_zero_is_copy() {
    let mut c = Canvas::new(2, 2);
    c.fill_rect(0, 0, 1, 1, Color::rgb(1, 2, 3));
    let mut out = vec![7u32; 5];
    apply_shifted(&c, &mut out, 0, 0);
    assert_eq!(&out[..4], &c.buf[..]);
    assert_eq!(out[4], 7);
}

#[test]
fn apply_shifted_negative_shift() {
    let mut c = Canvas::new(2, 1);
    c.buf = vec![5, 6];
    let mut out = vec![0u32; 2];
    apply_shifted(&c, &mut out, -1, 0);
    assert_eq!(out, vec![6, 0]);
}

use scr33ny::app::{frame_dt, on_event, Action, Key, WindowInput};

#[test]
fn q_and_escape_exit() {
    assert_eq!(on_event(WindowInput::Keyboard { key: Key::Q, pressed: true }), Action::Exit);
    assert_eq!(on_event(WindowInput::Keyboard { key: Key::Escape, pressed: true }), Action::Exit);
    assert_eq!(on_event(WindowInput::Keyboard { key: Key::Q, pressed: false }), Action::Nothing);
    assert_eq!(on_event(WindowInput::Keyboard { key: Key::Other, pressed: true }), Action::Nothing);
    assert_eq!(on_event(WindowInput::CloseRequested), Action::Exit);
}

#[test]
fn other_events() {
    assert_eq!(
        on_event(WindowInput::Resized { width: 3, height: 4 }),
        Action::Resize { width: 3, height: 4 }
    );
    assert_eq!(on_event(WindowInput::RedrawRequested), Action::Redraw);
    assert_eq!(on_event(WindowInput::AboutToWait), Action::RequestRedraw);
    assert_eq!(on_event(WindowInput::Other), Action::Nothing);
}

#[test]
fn frame_dt_is_clamped() {
    assert_eq!(frame_dt(5), 5);
    assert_eq!(frame_dt(99_999_999), 99_999_999);
    assert_eq!(frame_dt(100_000_000), 100_000_000);
    assert_eq!(frame_dt(u128::MAX), 100_000_000);
}

#[test]
fn apply_shifted_full_width_blanks() {
    let mut c = Canvas::new(3, 2);
    c.buf = vec![1, 2, 3, 4, 5, 6];
    let mut out = vec![9u32; 6];
    apply_shifted(&c, &mut out, 3, 0);
    assert_eq!(out, vec![0; 6]);
    apply_shifted(&c, &mut out, 0, -2);
    assert_eq!(out, vec![0; 6]);
}
