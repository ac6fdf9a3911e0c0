use vstd::prelude::*;

use crate::canvas::Canvas;
use crate::raster::{lemma_coords, lemma_index_in_bounds, lemma_size_as_i32};

verus! {

// ── Anti-burn-in pixel shift ─────────────────────────────────────────────────

/// The offset of the frame at step `step` of the shift cycle: the four
/// corners of the `amount` square, in turn.
pub open spec fn corner(step: int, amount: i32) -> (i32, i32) {
    if step == 0 {
        (0, 0)
    } else if step == 1 {
        (amount, 0)
    } else if step == 2 {
        (amount, amount)
    } else {
        (0, amount)
    }
}

/// Nanoseconds in a second.
pub open spec fn nanos(secs: u64) -> int {
    secs * 1_000_000_000
}

/// The anti-burn-in shift: every `interval` seconds the whole frame moves
/// to the next corner of a small square, cycling through four positions.
pub struct BurnShift {
    x: i32,
    y: i32,
    /// Time since the last shift, in nanoseconds.
    elapsed: u128,
    /// Seconds between shifts.
    interval: u64,
    amount: i32,
    step: u8,
}

impl BurnShift {
    #[verifier::type_invariant]
    spec fn inv(self) -> bool {
        &&& self.step < 4
        &&& (self.x, self.y) == corner(self.step as int, self.amount)
        &&& self.elapsed == 0 || self.elapsed < nanos(self.interval)
    }

    /// Position in the cycle, from 0 to 3.
    pub closed spec fn step(self) -> int {
        self.step as int
    }

    /// Time since the last shift, in nanoseconds.
    pub closed spec fn elapsed(self) -> int {
        self.elapsed as int
    }

    /// Seconds between shifts.
    pub closed spec fn interval(self) -> u64 {
        self.interval
    }

    /// Side of the square the frame moves around.
    pub closed spec fn amount(self) -> i32 {
        self.amount
    }

    /// A shift that starts unshifted, at the start of its cycle.
    pub fn new(amount: u32, interval: u64) -> (b: Self)
        ensures
            b.step() == 0,
            b.elapsed() == 0,
            b.interval() == interval,
            b.amount() == amount as i32,
    {
        Self { x: 0, y: 0, elapsed: 0, interval, amount: amount as i32, step: 0 }
    }

    /// The current offset of the frame.
    pub fn offset(&self) -> (o: (i32, i32))
        ensures
            o == corner(self.step(), self.amount()),
            0 <= self.step() < 4,
    {
        proof {
            use_type_invariant(self);
        }
        (self.x, self.y)
    }

    /// Lets `dt` nanoseconds pass; once a whole interval has passed since the
    /// last shift, moves to the next corner and starts timing again.
    pub fn update(&mut self, dt: u64)
        ensures
            final(self).interval() == old(self).interval(),
            final(self).amount() == old(self).amount(),
            old(self).elapsed() + dt >= nanos(old(self).interval()) ==> {
                &&& final(self).elapsed() == 0
                &&& final(self).step() == (old(self).step() + 1) % 4
            },
            old(self).elapsed() + dt < nanos(old(self).interval()) ==> {
                &&& final(self).elapsed() == old(self).elapsed() + dt
                &&& final(self).step() == old(self).step()
            },
    {
        proof {
            use_type_invariant(&*self);
        }
        let limit = self.interval as u128 * 1_000_000_000;
        let elapsed = self.elapsed + dt as u128;
        if elapsed >= limit {
            let step = (self.step + 1) % 4;
            let (x, y) = if step == 0 {
                (0, 0)
            } else if step == 1 {
                (self.amount, 0)
            } else if step == 2 {
                (self.amount, self.amount)
            } else {
                (0, self.amount)
            };
            *self = Self { x, y, elapsed: 0, interval: self.interval, amount: self.amount, step };
        } else {
            *self = Self { x: self.x, y: self.y, elapsed, interval: self.interval, amount: self.amount, step: self.step };
        }
    }
}

/// The step after `step` in the shift cycle.
pub open spec fn next_step(step: int) -> int {
    (step + 1) % 4
}

/// Four shifts bring the frame back to where it was, after passing through
/// the four corners, each of whose coordinates is 0 or the amount.
pub proof fn lemma_shift_cycle(step: int, amount: i32)
    requires
        0 <= step < 4,
    ensures
        next_step(next_step(next_step(next_step(step)))) == step,
        corner(step, amount) != corner(next_step(step), amount) || amount == 0,
        corner(step, amount).0 == 0 || corner(step, amount).0 == amount,
        corner(step, amount).1 == 0 || corner(step, amount).1 == amount,
{
}

// ── Events ───────────────────────────────────────────────────────────────────

/// The keys the screensaver tells apart.
#[derive(Clone, Copy, Debug, PartialEq, Eq, Structural)]
pub enum Key {
    Q,
    Escape,
    Other,
}

/// What the window reports.
#[derive(Clone, Copy, Debug, PartialEq, Eq, Structural)]
pub enum WindowInput {
    CloseRequested,
    Keyboard { key: Key, pressed: bool },
    Resized { width: u32, height: u32 },
    RedrawRequested,
    AboutToWait,
    Other,
}

/// What the screensaver does in answer.
#[derive(Clone, Copy, Debug, PartialEq, Eq, Structural)]
pub enum Action {
    Exit,
    Resize { width: u32, height: u32 },
    Redraw,
    RequestRedraw,
    Nothing,
}

/// The answer to an input: closing the window or pressing Q or Esc exits,
/// a new size resizes the canvas, a redraw request draws a frame, and once
/// the events are handled another frame is requested.
pub open spec fn response(input: WindowInput) -> Action {
    match input {
        WindowInput::CloseRequested => Action::Exit,
        WindowInput::Keyboard { key, pressed } => if pressed && (key == Key::Q || key == Key::Escape) {
            Action::Exit
        } else {
            Action::Nothing
        },
        WindowInput::Resized { width, height } => Action::Resize { width, height },
        WindowInput::RedrawRequested => Action::Redraw,
        WindowInput::AboutToWait => Action::RequestRedraw,
        WindowInput::Other => Action::Nothing,
    }
}

/// Decides what to do with an input from the window.
pub fn on_event(input: WindowInput) -> (a: Action)
    ensures
        a == response(input),
{
    match input {
        WindowInput::CloseRequested => Action::Exit,
        WindowInput::Keyboard { key: Key::Q, pressed: true } => Action::Exit,
        WindowInput::Keyboard { key: Key::Escape, pressed: true } => Action::Exit,
        WindowInput::Keyboard { .. } => Action::Nothing,
        WindowInput::Resized { width, height } => Action::Resize { width, height },
        WindowInput::RedrawRequested => Action::Redraw,
        WindowInput::AboutToWait => Action::RequestRedraw,
        WindowInput::Other => Action::Nothing,
    }
}

/// The only ways out are closing the window and pressing Q or Esc.
pub proof fn lemma_exit_keys(input: WindowInput)
    ensures
        response(input) == Action::Exit <==> (input == WindowInput::CloseRequested
            || input == (WindowInput::Keyboard { key: Key::Q, pressed: true })
            || input == (WindowInput::Keyboard { key: Key::Escape, pressed: true })),
{
}

/// The longest step of time one frame advances, in nanoseconds (0.1 s).
pub open spec fn max_frame_nanos() -> int {
    100_000_000
}

/// The time a frame advances the animations by: the time since the last
/// frame, at most a tenth of a second.
pub fn frame_dt(since_last: u128) -> (dt: u64)
    ensures
        dt == (if since_last < max_frame_nanos() { since_last as int } else { max_frame_nanos() }),
{
    if since_last < 100_000_000 {
        since_last as u64
    } else {
        100_000_000
    }
}

// ── Blit ─────────────────────────────────────────────────────────────────────

/// What the screen shows at `(x, y)` when the frame `src`, `w` pixels wide
/// and `h` high, is moved by `(sx, sy)`: the frame's pixel there, black
/// where the frame does not reach.
pub open spec fn shifted(src: Seq<u32>, w: int, h: int, sx: int, sy: int, x: int, y: int) -> u32 {
    let a = x - sx;
    let b = y - sy;
    if 0 <= a < w && 0 <= b < h {
        src[b * w + a]
    } else {
        0
    }
}

/// With no shift, the screen shows the frame exactly.
pub proof fn lemma_zero_shift_copies(src: Seq<u32>, w: int, h: int, i: int)
    requires
        0 < w,
        0 <= i < w * h,
    ensures
        shifted(src, w, h, 0, 0, i % w, i / w) == src[i],
{
    lemma_coords(i, w, h);
}

/// A shift by a whole width or height, or more, leaves the screen black.
pub proof fn lemma_full_shift_blanks(src: Seq<u32>, w: int, h: int, sx: int, sy: int, i: int)
    requires
        0 < w,
        0 <= i < w * h,
        sx >= w || sx <= -w || sy >= h || sy <= -h,
    ensures
        shifted(src, w, h, sx, sy, i % w, i / w) == 0,
{
    lemma_coords(i, w, h);
}

/// The sizes of the canvas as `i32` allow the index of each pixel, and the
/// shift of each point, without overflow.
pub open spec fn blit_fits(width: u32, height: u32, sx: i32, sy: i32) -> bool {
    let w = (width as i32) as int;
    let h = (height as i32) as int;
    w > 0 && h > 0 ==> {
        &&& w * h <= i32::MAX + 1
        &&& i32::MIN <= 0 - sx <= i32::MAX
        &&& i32::MIN <= w - 1 - sx <= i32::MAX
        &&& i32::MIN <= 0 - sy <= i32::MAX
        &&& i32::MIN <= h - 1 - sy <= i32::MAX
    }
}

/// Copies the canvas to the screen buffer, moved by `(sx, sy)`; where the
/// moved frame leaves a gap the screen is black. Sizes are read as `i32`:
/// one above `i32::MAX` copies nothing.
pub fn apply_shifted(canvas: &Canvas, buf: &mut [u32], sx: i32, sy: i32)
    requires
        canvas.wf(),
        blit_fits(canvas.width, canvas.height, sx, sy),
        ((canvas.width as i32) > 0 && (canvas.height as i32) > 0) ==> old(buf)@.len() >= canvas.width * canvas.height,
    ensures
        final(buf)@.len() == old(buf)@.len(),
        forall|i: int|
            0 <= i < old(buf)@.len() ==> #[trigger] final(buf)@[i] == (
                if (canvas.width as i32) > 0 && (canvas.height as i32) > 0 && i < canvas.width * canvas.height {
                    shifted(
                        canvas.buf@,
                        canvas.width as int,
                        canvas.height as int,
                        sx as int,
                        sy as int,
                        i % (canvas.width as int),
                        i / (canvas.width as int),
                    )
                } else {
                    old(buf)@[i]
                }),
{
    let w = canvas.width as i32;
    let h = canvas.height as i32;
    let ghost old_buf = buf@;
    let ghost wd = canvas.width as int;
    let ghost ht = canvas.height as int;
    proof {
        lemma_size_as_i32(canvas.width);
        lemma_size_as_i32(canvas.height);
    }
    if w <= 0 || h <= 0 {
        return;
    }
    let ghost src = canvas.buf@;
    let mut y: i32 = 0;
    while y < h
        invariant
            w as int == wd,
            h as int == ht,
            0 < wd,
            0 < ht,
            wd * ht <= i32::MAX + 1,
            canvas.wf(),
            canvas.width == wd,
            canvas.height == ht,
            src == canvas.buf@,
            blit_fits(canvas.width, canvas.height, sx, sy),
            buf@.len() == old_buf.len(),
            old_buf.len() >= wd * ht,
            0 <= y <= h,
            forall|i: int|
                0 <= i < old_buf.len() ==> #[trigger] buf@[i] == (if i < y * wd {
                    shifted(src, wd, ht, sx as int, sy as int, i % wd, i / wd)
                } else {
                    old_buf[i]
                }),
        decreases h - y,
    {
        let mut x: i32 = 0;
        while x < w
            invariant
                w as int == wd,
                h as int == ht,
                0 < wd,
                0 < ht,
                wd * ht <= i32::MAX + 1,
                canvas.wf(),
                canvas.width == wd,
                canvas.height == ht,
                src == canvas.buf@,
                blit_fits(canvas.width, canvas.height, sx, sy),
                buf@.len() == old_buf.len(),
                old_buf.len() >= wd * ht,
                0 <= y < h,
                0 <= x <= w,
                forall|i: int|
                    0 <= i < old_buf.len() ==> #[trigger] buf@[i] == (if i < y * wd + x {
                        shifted(src, wd, ht, sx as int, sy as int, i % wd, i / wd)
                    } else {
                        old_buf[i]
                    }),
            decreases w - x,
        {
            proof {
                lemma_index_in_bounds(wd, ht, x as int, y as int);
            }
            let src_x = x - sx;
            let src_y = y - sy;
            let v = if src_x >= 0 && src_y >= 0 && src_x < w && src_y < h {
                proof {
                    lemma_index_in_bounds(wd, ht, src_x as int, src_y as int);
                }
                canvas.buf[(src_y * w + src_x) as usize]
            } else {
                0
            };
            let idx = (y * w + x) as usize;
            let ghost before = buf@;
            buf[idx] = v;
            proof {
                vstd::arithmetic::div_mod::lemma_fundamental_div_mod_converse(idx as int, wd, y as int, x as int);
                assert forall|i: int|
                    0 <= i < old_buf.len() implies #[trigger] buf@[i] == (if i < y * wd + x + 1 {
                        shifted(src, wd, ht, sx as int, sy as int, i % wd, i / wd)
                    } else {
                        old_buf[i]
                    }) by {
                    if i != idx {
                        assert(buf@[i] == before[i]);
                    }
                }
            }
            x = x + 1;
        }
        assert((y + 1) * wd == y * wd + wd) by (nonlinear_arith);
        y = y + 1;
    }
}

} // verus!
