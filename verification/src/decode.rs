//! Reading pictures from the bytes of a file: the `image` crate decodes,
//! the library turns its RGBA bytes into images and its delays into frame
//! timing.

use image::AnimationDecoder;
use vstd::prelude::*;

use crate::canvas::{Color, Image};
use crate::screensaver::{frame_delay_millis, GifPlayback};

verus! {

/// What the `image` crate decodes from `bytes` in the format that the file
/// name extension `extension` names, converted with `to_rgba8()`: width,
/// height and RGBA bytes, or nothing when the extension names no format or
/// the bytes do not decode in it.
pub uninterp spec fn decoded_rgba(bytes: Seq<u8>, extension: Seq<char>) -> Option<(u32, u32, Seq<u8>)>;

/// What the `image` crate's GIF decoder gives for `bytes`: for each frame in
/// file order its width, height, RGBA bytes, and its delay as the fraction
/// `numer / denom` of milliseconds; nothing when the bytes do not decode.
pub uninterp spec fn decoded_gif(bytes: Seq<u8>) -> Option<Seq<(u32, u32, Seq<u8>, u32, u32)>>;

/// Decodes an image into 8-bit RGBA as `image::open` does for a file with
/// that extension: the format is `image::ImageFormat::from_extension`, the
/// decoder `image::load_from_memory_with_format`, then `to_rgba8`.
///
/// Trusted: the contract only names the result; it states nothing of the
/// decoding itself.
#[verifier::external_body]
fn decode_rgba(bytes: &[u8], extension: &str) -> (r: Option<(u32, u32, Vec<u8>)>)
    ensures
        r.deep_view() == decoded_rgba(bytes@, extension@),
{
    let format = image::ImageFormat::from_extension(extension)?;
    let img = image::load_from_memory_with_format(bytes, format).ok()?.to_rgba8();
    Some((img.width(), img.height(), img.into_raw()))
}

/// Decodes every frame of a GIF with `image::codecs::gif::GifDecoder` and
/// `collect_frames`, keeping each frame's RGBA buffer and the numerator and
/// denominator of `Delay::numer_denom_ms`.
///
/// Trusted: the contract only names the result; it states nothing of the
/// decoding itself.
#[verifier::external_body]
fn decode_gif(bytes: &[u8]) -> (r: Option<Vec<(u32, u32, Vec<u8>, u32, u32)>>)
    ensures
        r.deep_view() == decoded_gif(bytes@),
{
    let decoder = image::codecs::gif::GifDecoder::new(std::io::Cursor::new(bytes)).ok()?;
    let frames = decoder.into_frames().collect_frames().ok()?;
    let mut out = Vec::new();
    for f in frames {
        let (numer, denom) = f.delay().numer_denom_ms();
        let buf = f.into_buffer();
        out.push((buf.width(), buf.height(), buf.into_raw(), numer, denom));
    }
    Some(out)
}

/// The colors of the first `n` pixels of RGBA bytes, four bytes a pixel.
pub open spec fn rgba_pixels(rgba: Seq<u8>, n: int) -> Seq<Color> {
    Seq::new(
        n as nat,
        |i: int| Color { r: rgba[4 * i], g: rgba[4 * i + 1], b: rgba[4 * i + 2], a: rgba[4 * i + 3] },
    )
}

/// Whether RGBA bytes hold the pixels of a `w` by `h` image.
pub open spec fn rgba_fits(w: u32, h: u32, rgba: Seq<u8>) -> bool {
    4 * (w * h) <= rgba.len()
}

/// The image `w` by `h` whose pixels are the first of the RGBA bytes, when
/// there are enough of them.
pub fn image_from_rgba(w: u32, h: u32, rgba: &Vec<u8>) -> (r: Option<Image>)
    ensures
        r is Some <==> rgba_fits(w, h, rgba@),
        r matches Some(img) ==> {
            &&& img.wf()
            &&& img.width == w
            &&& img.height == h
            &&& img.pixels@ == rgba_pixels(rgba@, w * h)
        },
{
    let len = rgba.len();
    assert((w as u128) * (h as u128) <= 0xffff_ffff * 0xffff_ffff) by (nonlinear_arith)
        requires w <= 0xffff_ffff, h <= 0xffff_ffff;
    if (w as u128) * (h as u128) * 4 > len as u128 {
        return None;
    }
    assert((w as u128) * (h as u128) * 4 == 4 * (w * h)) by (nonlinear_arith);
    let n = w as usize * h as usize;
    let mut pixels: Vec<Color> = Vec::new();
    let mut i: usize = 0;
    while i < n
        invariant
            n == w * h,
            4 * n <= len,
            len == rgba@.len(),
            i <= n,
            pixels@ == rgba_pixels(rgba@, i as int),
        decreases n - i,
    {
        let c = Color { r: rgba[4 * i], g: rgba[4 * i + 1], b: rgba[4 * i + 2], a: rgba[4 * i + 3] };
        pixels.push(c);
        i = i + 1;
        assert(pixels@ =~= rgba_pixels(rgba@, i as int));
    }
    Some(Image { width: w, height: h, pixels })
}

/// Reads the bytes of an image file whose name ends in `extension` into an
/// image; nothing when the extension names no format the bytes decode in (or
/// they decode to fewer bytes than the image has pixels).
pub fn load_image(bytes: &[u8], extension: &str) -> (r: Option<Image>)
    ensures
        match decoded_rgba(bytes@, extension@) {
            None => r is None,
            Some((w, h, data)) => if rgba_fits(w, h, data) {
                r matches Some(img) && img.wf() && img.width == w && img.height == h
                    && img.pixels@ == rgba_pixels(data, w * h)
            } else {
                r is None
            },
        },
{
    match decode_rgba(bytes, extension) {
        None => None,
        Some((w, h, data)) => image_from_rgba(w, h, &data),
    }
}

/// The delay in whole milliseconds of each frame of a decoded GIF.
pub open spec fn gif_delays(frames: Seq<(u32, u32, Seq<u8>, u32, u32)>) -> Seq<u64> {
    Seq::new(
        frames.len(),
        |i: int| (frames[i].3 as int / (if frames[i].4 == 0 { 1 } else { frames[i].4 as int })) as u64,
    )
}

/// Whether every frame of a decoded GIF has bytes for all its pixels.
pub open spec fn gif_frames_fit(frames: Seq<(u32, u32, Seq<u8>, u32, u32)>) -> bool {
    forall|i: int| 0 <= i < frames.len() ==> rgba_fits(#[trigger] frames[i].0, frames[i].1, frames[i].2)
}

/// Reads a GIF file's bytes into its frames, in file order, and a playback
/// that starts at the first frame and gives each frame its own delay.
pub fn load_gif(bytes: &[u8]) -> (r: Option<(Vec<Image>, GifPlayback)>)
    ensures
        match decoded_gif(bytes@) {
            None => r is None,
            Some(fs) => if gif_frames_fit(fs) {
                r matches Some((images, playback)) && {
                    &&& images@.len() == fs.len()
                    &&& forall|i: int| 0 <= i < fs.len() ==> {
                        &&& (#[trigger] images@[i]).wf()
                        &&& images@[i].width == fs[i].0
                        &&& images@[i].height == fs[i].1
                        &&& images@[i].pixels@ == rgba_pixels(fs[i].2, fs[i].0 * fs[i].1)
                    }
                    &&& playback.delays() == gif_delays(fs)
                    &&& playback.current() == 0
                    &&& playback.elapsed() == 0
                }
            } else {
                r is None
            },
        },
{
    let frames = match decode_gif(bytes) {
        None => return None,
        Some(frames) => frames,
    };
    let ghost fs = frames.deep_view();
    let n = frames.len();
    let mut images: Vec<Image> = Vec::new();
    let mut delays: Vec<u64> = Vec::new();
    let mut k: usize = 0;
    while k < n
        invariant
            n == frames@.len(),
            fs == frames.deep_view(),
            fs == decoded_gif(bytes@)->0,
            k <= n,
            images@.len() == k,
            delays@ == gif_delays(fs).subrange(0, k as int),
            forall|i: int| 0 <= i < k ==> rgba_fits(#[trigger] fs[i].0, fs[i].1, fs[i].2),
            forall|i: int| 0 <= i < k ==> {
                &&& (#[trigger] images@[i]).wf()
                &&& images@[i].width == fs[i].0
                &&& images@[i].height == fs[i].1
                &&& images@[i].pixels@ == rgba_pixels(fs[i].2, fs[i].0 * fs[i].1)
            },
        decreases n - k,
    {
        let frame = &frames[k];
        assert(fs[k as int] == frame.deep_view());
        assert(frame.2.deep_view() =~= frame.2@);
        match image_from_rgba(frame.0, frame.1, &frame.2) {
            None => {
                assert(!rgba_fits(fs[k as int].0, fs[k as int].1, fs[k as int].2));
                return None;
            }
            Some(img) => {
                images.push(img);
            }
        }
        delays.push(frame_delay_millis(frame.3, frame.4));
        k = k + 1;
        assert(delays@ =~= gif_delays(fs).subrange(0, k as int));
    }
    assert(gif_delays(fs).subrange(0, n as int) =~= gif_delays(fs));
    let playback = GifPlayback::new(delays);
    Some((images, playback))
}

} // verus!
