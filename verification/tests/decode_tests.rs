use scr33ny::canvas::Color;
use scr33ny::decode::{image_from_rgba, load_gif, load_image};

use image::codecs::gif::GifEncoder;
use image::{Delay, Frame, ImageFormat, RgbaImage};
use std::io::Cursor;

fn png_bytes() -> Vec<u8> {
    let img = RgbaImage::from_raw(2, 1, vec![255, 0, 0, 255, 0, 0, 255, 128]).unwrap();
    let mut out = Cursor::new(Vec::new());
    img.write_to(&mut out, ImageFormat::Png).unwrap();
    out.into_inner()
}

#[test]
fn load_image_decodes_png() {
    let img = load_image(&png_bytes(), "png").unwrap();
    assert_eq!((img.width, img.height), (2, 1));
    assert_eq!(img.pixels, vec![Color::rgba(255, 0, 0, 255), Color::rgba(0, 0, 255, 128)]);
}

#[test]
fn load_image_rejects_garbage() {
    assert!(load_image(b"not an image", "png").is_none());
    assert!(load_image(&[], "png").is_none());
}

#[test]
fn load_image_format_follows_extension() {
    assert!(load_image(&png_bytes(), "PNG").is_some());
    assert!(load_image(&png_bytes(), "gif").is_none());
    assert!(load_image(&png_bytes(), "").is_none());
    assert!(load_image(&png_bytes(), "txt").is_none());
}

fn gif_bytes(delays_ms: &[u32]) -> Vec<u8> {
    let mut out = Vec::new();
    {
        let mut enc = GifEncoder::new(&mut out);
        for (i, &d) in delays_ms.iter().enumerate() {
            let v = (i as u8) * 100;
            let buf = RgbaImage::from_raw(1, 1, vec![v, v, v, 255]).unwrap();
            enc.encode_frame(Frame::from_parts(buf, 0, 0, Delay::from_numer_denom_ms(d, 1))).unwrap();
        }
    }
    out
}

#[test]
fn load_gif_keeps_frames_and_their_own_delays() {
    let (frames, playback) = load_gif(&gif_bytes(&[100, 200, 50])).unwrap();
    assert_eq!(frames.len(), 3);
    assert_eq!(frames[0].pixels, vec![Color::rgba(0, 0, 0, 255)]);
    assert_eq!(frames[2].pixels, vec![Color::rgba(200, 200, 200, 255)]);
    assert_eq!(playback.current_frame(), 0);
    let mut p = playback;
    p.advance(99_999_999);
    assert_eq!(p.current_frame(), 0);
    p.advance(1);
    assert_eq!(p.current_frame(), 1);
}

#[test]
fn load_gif_rejects_garbage() {
    assert!(load_gif(b"GIF89a nonsense").is_none());
    assert!(load_gif(&png_bytes()).is_none());
}

#[test]
fn image_from_rgba_needs_all_bytes() {
    assert!(image_from_rgba(2, 2, &vec![0; 15]).is_none());
    let img = image_from_rgba(1, 1, &vec![1, 2, 3, 4, 5]).unwrap();
    assert_eq!(img.pixels, vec![Color::rgba(1, 2, 3, 4)]);
}
