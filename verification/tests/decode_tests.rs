use agent_r::frames::{is_gif_extension, load_frames};
use agent_r::raster::Canvas;
use agent_r::tray::tray_icon_bitmaps;
use image::codecs::gif::GifEncoder;
use image::{Delay, DynamicImage, Frame, ImageOutputFormat, Rgba, RgbaImage};
use std::io::Cursor;

fn png_bytes(image: RgbaImage) -> Vec<u8> {
    let mut buf = Vec::new();
    DynamicImage::ImageRgba8(image).write_to(&mut Cursor::new(&mut buf), ImageOutputFormat::Png).unwrap();
    buf
}

fn gif_bytes(delays_ms: &[u32]) -> Vec<u8> {
    let mut buf = Vec::new();
    {
        let mut encoder = GifEncoder::new(&mut buf);
        let frames = delays_ms.iter().map(|&ms| {
            Frame::from_parts(RgbaImage::from_pixel(4, 2, Rgba([255, 0, 0, 255])), 0, 0, Delay::from_numer_denom_ms(ms, 1))
        });
        encoder.encode_frames(frames).unwrap();
    }
    buf
}

#[test]
fn gif_extension_ignores_case() {
    assert!(is_gif_extension("gif"));
    assert!(is_gif_extension("GiF"));
    assert!(!is_gif_extension("png"));
    assert!(!is_gif_extension("gifs"));
    assert!(!is_gif_extension(""));
}

#[test]
fn still_picture_gives_one_frame_of_100_ms() {
    let mut image = RgbaImage::from_pixel(3, 3, Rgba([10, 20, 30, 255]));
    image.put_pixel(1, 1, Rgba([1, 2, 3, 4]));
    let (frames, w, h, delays) = load_frames(&png_bytes(image.clone()), "png", 10).unwrap();
    assert_eq!((w, h), (3, 3));
    assert_eq!(delays, vec![100_000_000]);
    assert_eq!(frames.len(), 1);
    assert_eq!(frames[0].image, image);
    assert_eq!(frames[0].dimensions(), (3, 3));
}

#[test]
fn large_still_picture_is_scaled_down() {
    let image = RgbaImage::from_pixel(8, 4, Rgba([10, 20, 30, 255]));
    let (frames, w, h, _) = load_frames(&png_bytes(image), "PNG", 4).unwrap();
    assert_eq!((w, h), (4, 2));
    assert_eq!((frames[0].image.width(), frames[0].image.height()), (4, 2));
    assert_eq!(frames[0].image.get_pixel(1, 1).0, [10, 20, 30, 255]);
}

#[test]
fn gif_frames_keep_their_delays_or_get_100_ms() {
    let (frames, w, h, delays) = load_frames(&gif_bytes(&[0, 50]), "gif", 2).unwrap();
    assert_eq!((w, h), (2, 1));
    assert_eq!(frames.len(), 2);
    assert_eq!(delays, vec![100_000_000, 50_000_000]);
    for f in &frames {
        assert_eq!(f.dimensions(), (2, 1));
    }
}

#[test]
fn undecodable_files_give_nothing() {
    assert!(load_frames(b"not a picture", "png", 10).is_none());
    assert!(load_frames(b"not a picture", "gif", 10).is_none());
    let png = png_bytes(RgbaImage::from_pixel(2, 2, Rgba([0, 0, 0, 255])));
    assert!(load_frames(&png, "xyz", 10).is_none());
    assert!(load_frames(&png, "gif", 10).is_none());
}

#[test]
fn tray_bitmaps_are_bgra_with_a_zero_mask() {
    let mut image = RgbaImage::from_pixel(10, 2, Rgba([1, 2, 3, 255]));
    image.put_pixel(0, 0, Rgba([9, 8, 7, 6]));
    let (w, h, colour, mask) = tray_icon_bitmaps(&png_bytes(image), "png").unwrap();
    assert_eq!((w, h), (10, 2));
    assert_eq!(&colour[0..8], &[7, 8, 9, 6, 3, 2, 1, 255]);
    assert_eq!(colour.len(), 80);
    assert_eq!(mask, vec![0; 4]);
    assert!(tray_icon_bitmaps(b"junk", "png").is_none());
}

#[test]
fn a_canvas_reports_its_size() {
    let c = Canvas { image: RgbaImage::new(5, 7) };
    assert_eq!(c.dimensions(), (5, 7));
}
