//! Decoding the character's picture into frames fitted to a size limit,
//! and the premultiplied blue-green-red-alpha bytes that a layered window
//! is painted from.

use vstd::prelude::*;
use crate::raster::{Px, Canvas, canvas_dims, canvas_pixels, lanczos3_resized, in_bounds, gif_decoded, still_decoded, decode_gif, decode_still};
use crate::sensors::{lowered, lower_chars};

verus! {

/// The size of a `width` by `height` image scaled down, keeping its aspect
/// ratio, until its longer side is `max_size`; sizes within the limit stay
/// as they are.  Each side is rounded down.
pub open spec fn scaled_size(width: int, height: int, max_size: int) -> (int, int) {
    if width <= max_size && height <= max_size {
        (width, height)
    } else {
        let longer = if width >= height { width } else { height };
        (width * max_size / longer, height * max_size / longer)
    }
}

/// Fits `width` by `height` within `max_size` on both sides, keeping the
/// aspect ratio.  The sides are computed exactly (the true quotient,
/// rounded down); a single-precision float computation of the ratio can
/// land one pixel lower, e.g. 1999 instead of 2000 for a 2002-pixel square
/// fitted to 2000.
pub fn scale_dimensions(width: u32, height: u32, max_size: u32) -> (r: (u32, u32))
    ensures
        (r.0 as int, r.1 as int) == scaled_size(width as int, height as int, max_size as int),
{
    if width <= max_size && height <= max_size {
        return (width, height);
    }
    let longer = if width >= height { width } else { height };
    assert((width as int) * (max_size as int) / (longer as int) <= max_size && (height as int) * (max_size as int) / (longer as int) <= max_size) by (nonlinear_arith)
        requires longer > 0, width <= longer, height <= longer, max_size >= 0;
    assert((width as int) * (max_size as int) <= 0xffff_ffff * 0xffff_ffff && (height as int) * (max_size as int) <= 0xffff_ffff * 0xffff_ffff) by (nonlinear_arith)
        requires width <= 0xffff_ffff, height <= 0xffff_ffff, max_size <= 0xffff_ffff;
    let w = (width as u64 * max_size as u64) / longer as u64;
    let h = (height as u64 * max_size as u64) / longer as u64;
    (w as u32, h as u32)
}

/// Scaling never makes a side larger than the limit or larger than it was,
/// and leaves an image within the limit untouched.
pub proof fn lemma_scaled_size_fits(width: int, height: int, max_size: int)
    requires
        0 <= width,
        0 <= height,
        0 <= max_size,
    ensures
        scaled_size(width, height, max_size).0 <= width,
        scaled_size(width, height, max_size).1 <= height,
        width <= max_size && height <= max_size ==> scaled_size(width, height, max_size) == (width, height),
        !(width <= max_size && height <= max_size) ==> scaled_size(width, height, max_size).0 <= max_size
            && scaled_size(width, height, max_size).1 <= max_size,
{
    if !(width <= max_size && height <= max_size) {
        let longer = if width >= height { width } else { height };
        assert(width * max_size / longer <= max_size && height * max_size / longer <= max_size) by (nonlinear_arith)
            requires longer > 0, width <= longer, height <= longer, max_size >= 0;
        assert(width * max_size / longer <= width && height * max_size / longer <= height) by (nonlinear_arith)
            requires longer > max_size, width >= 0, height >= 0, max_size >= 0;
    }
}

/// A frame at `width` by `height`: a copy when it already has that size,
/// else resampled with the Lanczos3 filter.
pub fn scale_frame(frame: &Canvas, width: u32, height: u32) -> (r: Canvas)
    requires
        canvas_dims(*frame) != (width, height) ==> {
            &&& canvas_dims(*frame).0 as int * height as int * 16 <= isize::MAX
            &&& width as int * height as int * 4 <= isize::MAX
        },
    ensures
        canvas_dims(r) == (width, height),
        canvas_pixels(r) == (if canvas_dims(*frame) == (width, height) {
            canvas_pixels(*frame)
        } else {
            lanczos3_resized(canvas_pixels(*frame), canvas_dims(*frame), width, height)
        }),
{
    if frame.width() == width && frame.height() == height {
        return frame.duplicate();
    }
    frame.resize_lanczos3(width, height)
}

/// A colour channel premultiplied by alpha, rounded down.
pub open spec fn premultiply(c: u8, a: u8) -> u8 {
    (c * a / 255) as u8
}

/// The four bytes a layered window takes for pixel `p`: blue, green and
/// red premultiplied by alpha, then alpha.
pub open spec fn bgra_bytes(p: Px) -> Seq<u8> {
    seq![premultiply(p.2, p.3), premultiply(p.1, p.3), premultiply(p.0, p.3), p.3]
}

/// Each colour byte for the window is the channel premultiplied by alpha,
/// rounded down: `255 * byte <= channel * alpha < 255 * (byte + 1)`, and the
/// alpha byte is the pixel's alpha.
pub proof fn lemma_bgra_premultiplied(p: Px)
    ensures
        255 * bgra_bytes(p)[0] <= p.2 * p.3 < 255 * (bgra_bytes(p)[0] + 1),
        255 * bgra_bytes(p)[1] <= p.1 * p.3 < 255 * (bgra_bytes(p)[1] + 1),
        255 * bgra_bytes(p)[2] <= p.0 * p.3 < 255 * (bgra_bytes(p)[2] + 1),
        bgra_bytes(p)[3] == p.3,
{
    let a = p.3 as int;
    assert(0 <= p.2 * a / 255 <= 255 && 0 <= p.1 * a / 255 <= 255 && 0 <= p.0 * a / 255 <= 255) by (nonlinear_arith)
        requires 0 <= p.0 <= 255, 0 <= p.1 <= 255, 0 <= p.2 <= 255, 0 <= a <= 255;
}

/// An opaque pixel keeps its colour, only reordered, and a transparent one
/// becomes four zero bytes.
pub proof fn lemma_bgra_extremes(p: Px)
    ensures
        p.3 == 255 ==> bgra_bytes(p) == seq![p.2, p.1, p.0, 255u8],
        p.3 == 0 ==> bgra_bytes(p) == seq![0u8, 0u8, 0u8, 0u8],
{
    if p.3 == 255 {
        assert(p.2 * 255 / 255 == p.2 && p.1 * 255 / 255 == p.1 && p.0 * 255 / 255 == p.0) by (nonlinear_arith)
            requires p.0 <= 255, p.1 <= 255, p.2 <= 255;
        assert(bgra_bytes(p) =~= seq![p.2, p.1, p.0, 255u8]);
    }
    if p.3 == 0 {
        assert(bgra_bytes(p) =~= seq![0u8, 0u8, 0u8, 0u8]);
    }
}

/// The premultiplied blue-green-red-alpha bytes of `image`, row by row,
/// four per pixel, as a layered window takes them.
pub fn premultiplied_bgra(image: &Canvas) -> (bytes: Vec<u8>)
    requires
        canvas_dims(*image).0 as int * canvas_dims(*image).1 as int * 4 <= usize::MAX,
    ensures
        bytes@.len() == canvas_dims(*image).0 as int * canvas_dims(*image).1 as int * 4,
        forall|x: int, y: int| #![trigger canvas_pixels(*image)[(x, y)]] in_bounds(canvas_dims(*image), x, y) ==>
            bytes@.subrange((y * canvas_dims(*image).0 + x) * 4, (y * canvas_dims(*image).0 + x) * 4 + 4)
                == bgra_bytes(canvas_pixels(*image)[(x, y)]),
        forall|x: int, y: int| #![trigger canvas_pixels(*image)[(x, y)]] in_bounds(canvas_dims(*image), x, y) ==> {
            let p = canvas_pixels(*image)[(x, y)];
            let k = (y * canvas_dims(*image).0 + x) * 4;
            &&& 255 * bytes@[k] <= p.2 * p.3 < 255 * (bytes@[k] + 1)
            &&& 255 * bytes@[k + 1] <= p.1 * p.3 < 255 * (bytes@[k + 1] + 1)
            &&& 255 * bytes@[k + 2] <= p.0 * p.3 < 255 * (bytes@[k + 2] + 1)
            &&& bytes@[k + 3] == p.3
        },
{
    let width = image.width();
    let height = image.height();
    let ghost w = width as int;
    let mut bytes: Vec<u8> = Vec::new();
    let mut y: u32 = 0;
    while y < height
        invariant
            0 <= y <= height,
            width == canvas_dims(*image).0,
            height == canvas_dims(*image).1,
            w == width as int,
            width as int * height as int * 4 <= usize::MAX,
            bytes@.len() == (y * w) * 4,
            forall|px: int, py: int| #![trigger canvas_pixels(*image)[(px, py)]] 0 <= px < w && 0 <= py < y ==>
                bytes@.subrange((py * w + px) * 4, (py * w + px) * 4 + 4) == bgra_bytes(canvas_pixels(*image)[(px, py)]),
        decreases height - y,
    {
        let mut x: u32 = 0;
        while x < width
            invariant
                0 <= x <= width,
                0 <= y < height,
                width == canvas_dims(*image).0,
                height == canvas_dims(*image).1,
                width as int * height as int * 4 <= usize::MAX,
                w == width as int,
                bytes@.len() == (y * w + x) * 4,
                forall|px: int, py: int| #![trigger canvas_pixels(*image)[(px, py)]]
                    ((0 <= px < w && 0 <= py < y) || (0 <= px < x && py == y)) ==>
                    bytes@.subrange((py * w + px) * 4, (py * w + px) * 4 + 4) == bgra_bytes(canvas_pixels(*image)[(px, py)]),
            decreases width - x,
        {
            let p = image.get_pixel(x, y);
            let a = p.3 as u32;
            assert(p.2 * a <= 255 * 255 && p.1 * a <= 255 * 255 && p.0 * a <= 255 * 255) by (nonlinear_arith)
                requires p.0 <= 255, p.1 <= 255, p.2 <= 255, a <= 255;
            assert(p.2 * a / 255 <= 255 && p.1 * a / 255 <= 255 && p.0 * a / 255 <= 255) by (nonlinear_arith)
                requires p.2 * a <= 255 * 255, p.1 * a <= 255 * 255, p.0 * a <= 255 * 255;
            assert((y * w + x + 1) * 4 <= w * height * 4) by (nonlinear_arith)
                requires x < w, y < height, w >= 0;
            let ghost old_bytes = bytes@;
            bytes.push(((p.2 as u32 * a) / 255) as u8);
            bytes.push(((p.1 as u32 * a) / 255) as u8);
            bytes.push(((p.0 as u32 * a) / 255) as u8);
            bytes.push(p.3);
            proof {
                let k = (y * w + x) * 4;
                assert(bytes@.subrange(k, k + 4) =~= bgra_bytes(p));
                assert forall|px: int, py: int| #![trigger canvas_pixels(*image)[(px, py)]]
                    ((0 <= px < w && 0 <= py < y) || (0 <= px < x + 1 && py == y)) implies
                    bytes@.subrange((py * w + px) * 4, (py * w + px) * 4 + 4) == bgra_bytes(canvas_pixels(*image)[(px, py)]) by {
                    if py == y && px == x {
                    } else {
                        assert((py * w + px) * 4 + 4 <= k) by (nonlinear_arith)
                            requires (0 <= px < w && 0 <= py < y) || (0 <= px < x && py == y), k == (y * w + x) * 4;
                        assert(bytes@.subrange((py * w + px) * 4, (py * w + px) * 4 + 4)
                            =~= old_bytes.subrange((py * w + px) * 4, (py * w + px) * 4 + 4));
                    }
                }
            }
            x = x + 1;
        }
        assert((y * w + w) == (y + 1) * w) by (nonlinear_arith);
        y = y + 1;
    }
    assert(y * w * 4 == w * height * 4) by (nonlinear_arith)
        requires y == height;
    assert forall|x: int, y: int| #![trigger canvas_pixels(*image)[(x, y)]] in_bounds(canvas_dims(*image), x, y) implies {
        let p = canvas_pixels(*image)[(x, y)];
        let k = (y * canvas_dims(*image).0 + x) * 4;
        &&& 255 * bytes@[k] <= p.2 * p.3 < 255 * (bytes@[k] + 1)
        &&& 255 * bytes@[k + 1] <= p.1 * p.3 < 255 * (bytes@[k + 1] + 1)
        &&& 255 * bytes@[k + 2] <= p.0 * p.3 < 255 * (bytes@[k + 2] + 1)
        &&& bytes@[k + 3] == p.3
    } by {
        let p = canvas_pixels(*image)[(x, y)];
        let k = (y * canvas_dims(*image).0 + x) * 4;
        lemma_bgra_premultiplied(p);
        let (cw, ch) = (canvas_dims(*image).0 as int, canvas_dims(*image).1 as int);
        assert((y * cw + x) * 4 + 4 <= cw * ch * 4) by (nonlinear_arith)
            requires 0 <= x < cw, 0 <= y < ch;
        let sub = bytes@.subrange(k, k + 4);
        assert(sub == bgra_bytes(p));
        assert(bytes@[k] == sub[0] && bytes@[k + 1] == sub[1] && bytes@[k + 2] == sub[2] && bytes@[k + 3] == sub[3]);
    }
    bytes
}

/// A frame's delay as it is shown: its own, or 100 ms when it has none.
pub open spec fn shown_delay(delay_nanos: u128) -> u128 {
    if delay_nanos == 0 {
        100_000_000
    } else {
        delay_nanos
    }
}

/// How long a frame stays up, in nanoseconds: its own delay, or 100 ms
/// when it has none.
pub fn frame_delay_nanos(delay_nanos: u128) -> (d: u128)
    ensures
        d == shown_delay(delay_nanos),
{
    if delay_nanos == 0 {
        100_000_000
    } else {
        delay_nanos
    }
}

/// Where the window goes when the canvas is resized so that the image
/// stays put on screen: moved by the change of the image's offset.
pub fn anchored_position(position: (i32, i32), current_offset: (u32, u32), desired_offset: (u32, u32)) -> (r: (i32, i32))
    requires
        i32::MIN <= position.0 + (current_offset.0 as i32) - (desired_offset.0 as i32) <= i32::MAX,
        i32::MIN <= position.0 + (current_offset.0 as i32) <= i32::MAX,
        i32::MIN <= position.1 + (current_offset.1 as i32) - (desired_offset.1 as i32) <= i32::MAX,
        i32::MIN <= position.1 + (current_offset.1 as i32) <= i32::MAX,
    ensures
        r.0 == position.0 + (current_offset.0 as i32) - (desired_offset.0 as i32),
        r.1 == position.1 + (current_offset.1 as i32) - (desired_offset.1 as i32),
{
    (position.0 + current_offset.0 as i32 - desired_offset.0 as i32, position.1 + current_offset.1 as i32 - desired_offset.1 as i32)
}

/// The file extension names a GIF animation: `gif` in any ASCII case.
pub open spec fn is_gif_ext(ext: Seq<char>) -> bool {
    lowered(ext) == "gif"@
}

/// Whether the file extension `ext` names a GIF animation.
pub fn is_gif_extension(ext: &str) -> (r: bool)
    ensures
        r == is_gif_ext(ext@),
{
    let low = lower_chars(ext);
    proof {
        reveal_strlit("gif");
    }
    if low.len() == 3 && low[0] == 'g' && low[1] == 'i' && low[2] == 'f' {
        assert(low@ =~= "gif"@);
        true
    } else {
        proof {
            if low@ == "gif"@ {
                assert(low@[0] == 'g' && low@[1] == 'i' && low@[2] == 'f');
            }
        }
        false
    }
}

/// The frames decoded from a file's `bytes` by its extension `ext`: a GIF's
/// frames with their delays, or the one picture of any other format with a
/// delay of 100 ms; `None` where decoding fails.
pub open spec fn decoded_frames(bytes: Seq<u8>, ext: Seq<char>) -> Option<Seq<(u32, u32, Map<(int, int), Px>, u128)>> {
    if is_gif_ext(ext) {
        gif_decoded(bytes)
    } else {
        match still_decoded(bytes, ext) {
            Some(d) => Some(seq![(d.0, d.1, d.2, 100_000_000u128)]),
            None => None,
        }
    }
}

/// The size that all frames are scaled to: the first frame's, fitted to
/// `max_size`.
pub open spec fn frames_size(fs: Seq<(u32, u32, Map<(int, int), Px>, u128)>, max_size: int) -> (int, int) {
    scaled_size(fs[0].0 as int, fs[0].1 as int, max_size)
}

/// Resampling every frame that needs it to the common size stays within
/// what a `Vec` can hold.
pub open spec fn frames_fit(fs: Seq<(u32, u32, Map<(int, int), Px>, u128)>, max_size: int) -> bool {
    let (w, h) = frames_size(fs, max_size);
    forall|i: int|
        0 <= i < fs.len() && (#[trigger] fs[i].0 as int, fs[i].1 as int) != (w, h) ==> fs[i].0 * h * 16 <= isize::MAX && w * h
            * 4 <= isize::MAX
}

/// A frame as it is shown: `pixels` (a `dims` picture) at `size`, copied
/// where it already has that size, else resampled.
pub open spec fn fitted(pixels: Map<(int, int), Px>, dims: (u32, u32), size: (u32, u32)) -> Map<(int, int), Px> {
    if dims == size {
        pixels
    } else {
        lanczos3_resized(pixels, dims, size.0, size.1)
    }
}

/// The frames as decoded, side by side with their description.
pub open spec fn frames_match(v: Seq<(Canvas, u128)>, fs: Seq<(u32, u32, Map<(int, int), Px>, u128)>) -> bool {
    &&& v.len() == fs.len()
    &&& forall|i: int| 0 <= i < fs.len() ==> {
        &&& canvas_dims(#[trigger] v[i].0) == (fs[i].0, fs[i].1)
        &&& canvas_pixels(v[i].0) == fs[i].2
        &&& v[i].1 == fs[i].3
    }
}

/// The character's picture from a file's `bytes` and extension `ext`: its
/// frames (a GIF's, or the one picture of another format) all scaled to the
/// first frame's size fitted within `max_size`, that size, and how long
/// each frame stays up (100 ms where a frame gives no delay, and for a
/// still picture).  `None` where decoding fails, a GIF holds no frame, or
/// resampling would need more memory than a `Vec` holds.
pub fn load_frames(bytes: &[u8], ext: &str, max_size: u32) -> (r: Option<(Vec<Canvas>, u32, u32, Vec<u128>)>)
    ensures
        r is None <==> !(decoded_frames(bytes@, ext@) matches Some(fs) && fs.len() > 0 && frames_fit(fs, max_size as int)),
        r matches Some(out) ==> {
            let fs = decoded_frames(bytes@, ext@).unwrap();
            &&& (out.1 as int, out.2 as int) == frames_size(fs, max_size as int)
            &&& out.0@.len() == fs.len()
            &&& out.3@.len() == fs.len()
            &&& forall|i: int| 0 <= i < fs.len() ==> {
                &&& canvas_dims(#[trigger] out.0@[i]) == (out.1, out.2)
                &&& canvas_pixels(out.0@[i]) == fitted(fs[i].2, (fs[i].0, fs[i].1), (out.1, out.2))
                &&& out.3@[i] == shown_delay(fs[i].3)
            }
        },
{
    let ghost fs: Seq<(u32, u32, Map<(int, int), Px>, u128)>;
    let frames: Vec<(Canvas, u128)> = if is_gif_extension(ext) {
        match decode_gif(bytes) {
            Some(v) => {
                proof {
                    fs = gif_decoded(bytes@).unwrap();
                }
                v
            },
            None => {
                return None;
            },
        }
    } else {
        match decode_still(bytes, ext) {
            Some(c) => {
                proof {
                    fs = decoded_frames(bytes@, ext@).unwrap();
                }
                let mut v: Vec<(Canvas, u128)> = Vec::new();
                v.push((c, 100_000_000u128));
                v
            },
            None => {
                return None;
            },
        }
    };
    assert(decoded_frames(bytes@, ext@) == Some(fs));
    assert(frames_match(frames@, fs));
    let n = frames.len();
    if n == 0 {
        return None;
    }
    let (w, h) = scale_dimensions(frames[0].0.width(), frames[0].0.height(), max_size);
    assert((w as int, h as int) == frames_size(fs, max_size as int));
    let mut i: usize = 0;
    while i < n
        invariant
            0 <= i <= n,
            n == frames@.len(),
            decoded_frames(bytes@, ext@) == Some(fs),
            frames_match(frames@, fs),
            (w as int, h as int) == frames_size(fs, max_size as int),
            forall|j: int|
                0 <= j < i && (#[trigger] fs[j].0 as int, fs[j].1 as int) != (w as int, h as int) ==> fs[j].0 * h * 16
                    <= isize::MAX && w * h * 4 <= isize::MAX,
        decreases n - i,
    {
        let fw = frames[i].0.width();
        let fh = frames[i].0.height();
        assert(fw == fs[i as int].0 && fh == fs[i as int].1);
        let (a, b, c) = (fw as u128, h as u128, w as u128);
        assert(a * b <= 0xffff_ffff * 0xffff_ffff && c * b <= 0xffff_ffff * 0xffff_ffff) by (nonlinear_arith)
            requires a <= 0xffff_ffff, b <= 0xffff_ffff, c <= 0xffff_ffff;
        if (fw != w || fh != h) && (a * b * 16 > isize::MAX as u128 || c * b * 4 > isize::MAX as u128) {
            assert(!frames_fit(fs, max_size as int)) by {
                let t = fs[i as int].0;
                assert((t as int, fs[i as int].1 as int) != (w as int, h as int));
                assert(!(fs[i as int].0 * h * 16 <= isize::MAX && w * h * 4 <= isize::MAX));
            }
            return None;
        }
        i += 1;
    }
    let mut images: Vec<Canvas> = Vec::new();
    let mut delays: Vec<u128> = Vec::new();
    let mut k: usize = 0;
    while k < n
        invariant
            0 <= k <= n,
            n == frames@.len(),
            decoded_frames(bytes@, ext@) == Some(fs),
            frames_match(frames@, fs),
            frames_fit(fs, max_size as int),
            (w as int, h as int) == frames_size(fs, max_size as int),
            images@.len() == k,
            delays@.len() == k,
            forall|j: int| 0 <= j < k ==> {
                &&& canvas_dims(#[trigger] images@[j]) == (w, h)
                &&& canvas_pixels(images@[j]) == fitted(fs[j].2, (fs[j].0, fs[j].1), (w, h))
                &&& delays@[j] == shown_delay(fs[j].3)
            },
        decreases n - k,
    {
        assert(fs[k as int].0 == canvas_dims(frames@[k as int].0).0);
        let img = scale_frame(&frames[k].0, w, h);
        images.push(img);
        delays.push(frame_delay_nanos(frames[k].1));
        k += 1;
    }
    Some((images, w, h, delays))
}

} // verus!
