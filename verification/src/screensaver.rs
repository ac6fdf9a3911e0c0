use vstd::prelude::*;

use crate::canvas::Canvas;
use crate::raster::black;

verus! {

// ── Blank ────────────────────────────────────────────────────────────────────

/// Pure black — all OLED pixels off, zero power draw
pub struct BlankScreensaver;

impl BlankScreensaver {
    /// Every frame is black.
    pub fn render(&mut self, canvas: &mut Canvas)
        ensures
            final(canvas).width == old(canvas).width,
            final(canvas).height == old(canvas).height,
            final(canvas).buf@ == black(old(canvas).buf@.len() as int),
    {
        canvas.clear();
    }
}

// ── Placement ────────────────────────────────────────────────────────────────

/// Half of `v`, rounded toward zero.
pub open spec fn half_toward_zero(v: int) -> int {
    if v >= 0 {
        v / 2
    } else {
        -((-v) / 2)
    }
}

/// The top-left corner that centers an `iw` by `ih` picture on a `cw` by
/// `ch` screen; each size is read as `i32`, and the offsets are halved
/// toward zero.
pub fn centered_origin(cw: u32, ch: u32, iw: u32, ih: u32) -> (o: (i32, i32))
    requires
        i32::MIN <= (cw as i32) - (iw as i32) <= i32::MAX,
        i32::MIN <= (ch as i32) - (ih as i32) <= i32::MAX,
    ensures
        o.0 == half_toward_zero((cw as i32) - (iw as i32)),
        o.1 == half_toward_zero((ch as i32) - (ih as i32)),
{
    let x = (cw as i32 - iw as i32) / 2;
    let y = (ch as i32 - ih as i32) / 2;
    (x, y)
}

// ── Typewriter ───────────────────────────────────────────────────────────────

/// How many characters of a `len`-character text the typewriter shows after
/// `ticks` half-seconds: one more per tick, then the whole text for a while,
/// starting over every `2 * len + 4` ticks.
pub fn typewriter_visible(ticks: usize, len: usize) -> (v: usize)
    requires
        2 * len + 4 <= usize::MAX,
    ensures
        v == (if ticks as int % (2 * len + 4) < len { ticks as int % (2 * len + 4) } else { len as int }),
{
    let shown = ticks % (len * 2 + 4);
    if shown < len {
        shown
    } else {
        len
    }
}

/// Whether the typewriter's cursor bar shows after `ticks` half-seconds:
/// it blinks, on during even ticks, while the text is still being typed.
pub fn typewriter_cursor(ticks: u32, visible: usize, len: usize) -> (on: bool)
    ensures
        on == (ticks % 2 == 0 && visible < len),
{
    ticks % 2 == 0 && visible < len
}

// ── GIF timing ───────────────────────────────────────────────────────────────

/// The delay of a GIF frame in whole milliseconds, from the fraction
/// `numer / denom` of milliseconds that the decoder reports (a zero
/// denominator counts as one).
pub fn frame_delay_millis(numer: u32, denom: u32) -> (ms: u64)
    ensures
        ms == numer as int / (if denom == 0 { 1 } else { denom as int }),
{
    let d: u32 = if denom > 1 { denom } else { 1 };
    (numer / d) as u64
}

/// The longest time a frame can wait, in nanoseconds.
pub open spec fn max_delay_nanos() -> int {
    u64::MAX as int * 1_000_000
}

/// Which frame of an animation is on screen, and for how long it has been.
pub struct GifPlayback {
    /// Delay of each frame, in milliseconds.
    delays: Vec<u64>,
    current: usize,
    /// Time the current frame has been shown, in nanoseconds.
    elapsed: u128,
}

impl GifPlayback {
    #[verifier::type_invariant]
    spec fn inv(self) -> bool {
        &&& self.delays@.len() == 0 || self.current < self.delays@.len()
        &&& self.elapsed <= max_delay_nanos()
    }

    /// Delays of the frames, in milliseconds.
    pub closed spec fn delays(self) -> Seq<u64> {
        self.delays@
    }

    /// Index of the frame on screen.
    pub closed spec fn current(self) -> int {
        self.current as int
    }

    /// Time the current frame has been shown, in nanoseconds.
    pub closed spec fn elapsed(self) -> int {
        self.elapsed as int
    }

    /// Starts at the first frame.
    pub fn new(delays: Vec<u64>) -> (p: Self)
        ensures
            p.delays() == delays@,
            p.current() == 0,
            p.elapsed() == 0,
    {
        Self { delays, current: 0, elapsed: 0 }
    }

    /// Index of the frame on screen; it is a valid index unless there are no frames.
    pub fn current_frame(&self) -> (i: usize)
        ensures
            i == self.current(),
            self.delays().len() > 0 ==> i < self.delays().len(),
    {
        proof {
            use_type_invariant(self);
        }
        self.current
    }

    /// Lets `dt` nanoseconds pass after the current frame was drawn; once
    /// its delay has passed, moves to the next frame, the last wrapping to
    /// the first. With no frames nothing happens.
    pub fn advance(&mut self, dt: u64)
        ensures
            final(self).delays() == old(self).delays(),
            old(self).delays().len() == 0 ==> *final(self) == *old(self),
            old(self).delays().len() > 0 ==> {
                let e = old(self).elapsed() + dt;
                let delay = old(self).delays()[old(self).current()] * 1_000_000;
                if e >= delay {
                    &&& final(self).elapsed() == 0
                    &&& final(self).current() == (old(self).current() + 1) % (old(self).delays().len() as int)
                } else {
                    &&& final(self).elapsed() == e
                    &&& final(self).current() == old(self).current()
                }
            },
    {
        proof {
            use_type_invariant(&*self);
        }
        let n = self.delays.len();
        if n == 0 {
            return;
        }
        let elapsed = self.elapsed + dt as u128;
        let delay = self.delays[self.current] as u128 * 1_000_000;
        if elapsed >= delay {
            let next = (self.current + 1) % n;
            self.current = next;
            self.elapsed = 0;
        } else {
            self.elapsed = elapsed;
        }
    }
}

} // verus!
