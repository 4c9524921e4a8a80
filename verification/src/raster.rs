//! The RGBA image buffer of the `image` crate as the library sees it, and
//! alpha blending of single pixels onto it.

use vstd::prelude::*;
use image::{AnimationDecoder, Rgba, RgbaImage};

verus! {

/// An RGBA pixel: red, green, blue, alpha.
pub type Px = (u8, u8, u8, u8);

/// An RGBA image buffer of the `image` crate (`RgbaImage`).  Verus does not
/// accept a declaration of the buffer type itself, so the library holds it
/// here; what the buffer contains is named by `canvas_pixels` and
/// `canvas_dims`, and every access goes through the wrappers below.
#[verifier::external_body]
pub struct Canvas {
    pub image: RgbaImage,
}

/// The pixels that a canvas holds, keyed by `(x, y)`.
pub uninterp spec fn canvas_pixels(c: Canvas) -> Map<(int, int), Px>;

/// The `(width, height)` that a canvas was made with.
pub uninterp spec fn canvas_dims(c: Canvas) -> (u32, u32);

/// The pixels that `imageops::resize` of the `image` crate computes with
/// the `Lanczos3` filter when it resamples `pixels` (of size `dims`) to
/// `width` by `height`.
pub uninterp spec fn lanczos3_resized(pixels: Map<(int, int), Px>, dims: (u32, u32), width: u32, height: u32) -> Map<(int, int), Px>;

/// Every pixel of a `dims` canvas transparent black.
pub open spec fn blank(dims: (u32, u32)) -> Map<(int, int), Px> {
    Map::new(|k: (int, int)| in_bounds(dims, k.0, k.1), |k: (int, int)| (0u8, 0u8, 0u8, 0u8))
}

/// The pixel that `Rgba::blend` of the `image` crate makes of `top` over
/// `bottom` when `top` is neither fully transparent nor opaque.
pub uninterp spec fn overlay_blend(bottom: Px, top: Px) -> Px;

/// `bottom` with `top` laid over it at `(x, y)` as `imageops::overlay` does.
pub open spec fn overlaid(
    bottom: Map<(int, int), Px>,
    dims: (u32, u32),
    top: Map<(int, int), Px>,
    top_dims: (u32, u32),
    x: int,
    y: int,
) -> Map<(int, int), Px> {
    Map::new(
        |k: (int, int)| bottom.dom().contains(k),
        |k: (int, int)|
            if in_bounds(dims, k.0, k.1) && x <= k.0 < x + top_dims.0 && y <= k.1 < y + top_dims.1 {
                let t = top[(k.0 - x, k.1 - y)];
                if t.3 == 0 {
                    bottom[k]
                } else if t.3 == 255 {
                    t
                } else {
                    overlay_blend(bottom[k], t)
                }
            } else {
                bottom[k]
            },
    )
}

/// `(x, y)` lies inside an image of the given dimensions.
pub open spec fn in_bounds(dims: (u32, u32), x: int, y: int) -> bool {
    0 <= x < dims.0 && 0 <= y < dims.1
}

/// Every in-bounds coordinate, and nothing else, carries a pixel.
pub open spec fn canvas_wf(c: Canvas) -> bool {
    forall|k: (int, int)|
        #[trigger] canvas_pixels(c).dom().contains(k) <==> in_bounds(canvas_dims(c), k.0, k.1)
}

impl Canvas {
    /// `ImageBuffer::width`: the width the buffer was made with.
    #[verifier::external_body]
    pub(crate) fn width(&self) -> (w: u32)
        ensures
            w == canvas_dims(*self).0,
    {
        self.image.width()
    }

    /// `ImageBuffer::height`: the height the buffer was made with.
    #[verifier::external_body]
    pub(crate) fn height(&self) -> (h: u32)
        ensures
            h == canvas_dims(*self).1,
    {
        self.image.height()
    }

    /// `ImageBuffer::get_pixel`: the pixel stored at `(x, y)`.  The outside
    /// function panics out of bounds, which `requires` rules out.
    #[verifier::external_body]
    pub(crate) fn get_pixel(&self, x: u32, y: u32) -> (p: Px)
        requires
            in_bounds(canvas_dims(*self), x as int, y as int),
        ensures
            p == canvas_pixels(*self)[(x as int, y as int)],
    {
        let c = self.image.get_pixel(x, y);
        (c[0], c[1], c[2], c[3])
    }

    /// `ImageBuffer::put_pixel`: replaces the pixel at `(x, y)` and nothing
    /// else.  The outside function panics out of bounds, which `requires`
    /// rules out.
    #[verifier::external_body]
    pub(crate) fn put_pixel(&mut self, x: u32, y: u32, p: Px)
        requires
            in_bounds(canvas_dims(*old(self)), x as int, y as int),
        ensures
            canvas_dims(*final(self)) == canvas_dims(*old(self)),
            canvas_pixels(*final(self)) == canvas_pixels(*old(self)).insert((x as int, y as int), p),
    {
        self.image.put_pixel(x, y, Rgba([p.0, p.1, p.2, p.3]));
    }

    /// `imageops::overlay` of the `image` crate: `top` placed with its
    /// top-left corner at `(x, y)`, each covered pixel of `self` blended
    /// with the `top` pixel over it by `Rgba::blend`.  As the crate's source
    /// shows, a transparent top pixel leaves the pixel below unchanged and an
    /// opaque one replaces it; the floating-point composite in between is
    /// named by `overlay_blend`.
    #[verifier::external_body]
    pub(crate) fn overlay(&mut self, top: &Canvas, x: i64, y: i64)
        ensures
            canvas_dims(*final(self)) == canvas_dims(*old(self)),
            canvas_pixels(*final(self)).dom() == canvas_pixels(*old(self)).dom(),
            forall|k: (int, int)| #[trigger] canvas_pixels(*old(self)).dom().contains(k) ==> canvas_pixels(*final(self))[k] == (
                if in_bounds(canvas_dims(*old(self)), k.0, k.1) && x <= k.0 < x + canvas_dims(*top).0
                    && y <= k.1 < y + canvas_dims(*top).1 {
                    if canvas_pixels(*top)[(k.0 - x, k.1 - y)].3 == 0 {
                        canvas_pixels(*old(self))[k]
                    } else if canvas_pixels(*top)[(k.0 - x, k.1 - y)].3 == 255 {
                        canvas_pixels(*top)[(k.0 - x, k.1 - y)]
                    } else {
                        overlay_blend(canvas_pixels(*old(self))[k], canvas_pixels(*top)[(k.0 - x, k.1 - y)])
                    }
                } else {
                    canvas_pixels(*old(self))[k]
                }),
    {
        image::imageops::overlay(&mut self.image, &top.image, x, y);
    }

    /// `Clone` of `ImageBuffer`: a buffer with the same size and pixels.
    #[verifier::external_body]
    pub(crate) fn duplicate(&self) -> (c: Canvas)
        ensures
            canvas_dims(c) == canvas_dims(*self),
            canvas_pixels(c) == canvas_pixels(*self),
    {
        Canvas { image: self.image.clone() }
    }

    /// `imageops::resize` of the `image` crate with the `Lanczos3` filter:
    /// a `width` by `height` resampling of the buffer, its pixels named by
    /// `lanczos3_resized`.  The outside function first resamples the columns
    /// into a source-width by `height` buffer of `f32` channels (16 bytes a
    /// pixel), then the rows into the result; `requires` keeps both
    /// allocations within what `Vec` can hold, beyond which it panics.
    #[verifier::external_body]
    pub(crate) fn resize_lanczos3(&self, width: u32, height: u32) -> (c: Canvas)
        requires
            canvas_dims(*self).0 as int * height as int * 16 <= isize::MAX,
            width as int * height as int * 4 <= isize::MAX,
        ensures
            canvas_dims(c) == (width, height),
            canvas_pixels(c) == lanczos3_resized(canvas_pixels(*self), canvas_dims(*self), width, height),
    {
        Canvas { image: image::imageops::resize(&self.image, width, height, image::imageops::FilterType::Lanczos3) }
    }

    /// `ImageBuffer::from_pixel`: a `width` by `height` buffer in which
    /// every pixel is `p`.  The outside function panics when the byte length
    /// overflows `usize`, which `requires` rules out.
    #[verifier::external_body]
    pub(crate) fn from_pixel(width: u32, height: u32, p: Px) -> (c: Canvas)
        requires
            width as int * height as int * 4 <= usize::MAX,
        ensures
            canvas_dims(c) == (width, height),
            canvas_wf(c),
            forall|k: (int, int)| #[trigger] canvas_pixels(c).dom().contains(k) ==> canvas_pixels(c)[k] == p,
    {
        Canvas { image: RgbaImage::from_pixel(width, height, Rgba([p.0, p.1, p.2, p.3])) }
    }
}


impl Canvas {
    /// The canvas's width and height.
    pub fn dimensions(&self) -> (r: (u32, u32))
        ensures
            r == canvas_dims(*self),
    {
        (self.width(), self.height())
    }
}

/// The frames that the `image` crate's GIF decoder (`GifDecoder`, then
/// `into_frames().collect_frames()`) makes of `bytes`, each as its width,
/// height, pixels and delay in nanoseconds (`Duration::from(delay)`), in
/// order; `None` where the decoder fails.
pub uninterp spec fn gif_decoded(bytes: Seq<u8>) -> Option<Seq<(u32, u32, Map<(int, int), Px>, u128)>>;

/// The RGBA picture that the `image` crate decodes from `bytes` in the
/// format its file extension `ext` names (`ImageFormat::from_extension`,
/// `load_from_memory_with_format`, `to_rgba8`, as `image::open` does for a
/// file), as width, height and pixels; `None` where the extension names no
/// format or decoding fails.
pub uninterp spec fn still_decoded(bytes: Seq<u8>, ext: Seq<char>) -> Option<(u32, u32, Map<(int, int), Px>)>;

/// The decoded frames of `bytes` as a GIF animation, each with its delay in
/// nanoseconds.
#[verifier::external_body]
pub(crate) fn decode_gif(bytes: &[u8]) -> (r: Option<Vec<(Canvas, u128)>>)
    ensures
        r is Some <==> gif_decoded(bytes@) is Some,
        r matches Some(v) ==> {
            let d = gif_decoded(bytes@).unwrap();
            &&& v@.len() == d.len()
            &&& forall|i: int| 0 <= i < d.len() ==> {
                &&& canvas_wf(#[trigger] v@[i].0)
                &&& canvas_dims(v@[i].0) == (d[i].0, d[i].1)
                &&& canvas_pixels(v@[i].0) == d[i].2
                &&& v@[i].1 == d[i].3
            }
        },
{
    let decoder = image::codecs::gif::GifDecoder::new(std::io::Cursor::new(bytes)).ok()?;
    let frames = decoder.into_frames().collect_frames().ok()?;
    Some(frames.into_iter().map(|f| {
        let delay = std::time::Duration::from(f.delay()).as_nanos();
        (Canvas { image: f.into_buffer() }, delay)
    }).collect())
}

/// The picture decoded from `bytes` in the format that the extension `ext`
/// names.
#[verifier::external_body]
pub(crate) fn decode_still(bytes: &[u8], ext: &str) -> (r: Option<Canvas>)
    ensures
        r is Some <==> still_decoded(bytes@, ext@) is Some,
        r matches Some(c) ==> {
            let d = still_decoded(bytes@, ext@).unwrap();
            &&& canvas_wf(c)
            &&& canvas_dims(c) == (d.0, d.1)
            &&& canvas_pixels(c) == d.2
        },
{
    let format = image::ImageFormat::from_extension(ext)?;
    let decoded = image::load_from_memory_with_format(bytes, format).ok()?;
    Some(Canvas { image: decoded.to_rgba8() })
}

/// The bytes of `pixels` (a `dims` picture) row by row, four per pixel, in
/// the order red, green, blue, alpha.
pub open spec fn rgba_bytes(pixels: Map<(int, int), Px>, dims: (u32, u32)) -> Seq<u8> {
    Seq::new(
        (dims.0 * dims.1 * 4) as nat,
        |i: int|
            {
                let p = pixels[((i / 4) % (dims.0 as int), (i / 4) / (dims.0 as int))];
                if i % 4 == 0 {
                    p.0
                } else if i % 4 == 1 {
                    p.1
                } else if i % 4 == 2 {
                    p.2
                } else {
                    p.3
                }
            },
    )
}

/// `ImageBuffer::into_raw`: the buffer's bytes, which begin with its pixels
/// row by row, four channels each; the container may run longer than that.
#[verifier::external_body]
pub(crate) fn canvas_into_raw(c: Canvas) -> (r: Vec<u8>)
    ensures
        r@.len() >= canvas_dims(c).0 * canvas_dims(c).1 * 4,
        r@.subrange(0, canvas_dims(c).0 * canvas_dims(c).1 * 4) == rgba_bytes(canvas_pixels(c), canvas_dims(c)),
{
    c.image.into_raw()
}

/// `n / d` rounded to the nearest integer, halves rounded up.
pub open spec fn round_half_up(n: int, d: int) -> int {
    (2 * n + d) / (2 * d)
}

/// Alpha of a source-over composite, scaled by `255 * 255`.
pub open spec fn blend_weight(dst: Px, src: Px) -> int {
    255 * src.3 + dst.3 * (255 - src.3)
}

/// One colour channel of a source-over composite: the source channel `s`
/// weighted by its alpha `sa`, the destination channel `d` by what the
/// source lets through of `da`, divided by the composite alpha.
pub open spec fn blend_channel(s: u8, d: u8, sa: u8, da: u8) -> u8 {
    round_half_up(s * sa * 255 + d * da * (255 - sa), 255 * sa + da * (255 - sa)) as u8
}

/// `src` composited over `dst` ("source over"), every channel rounded to
/// the nearest value; fully transparent over fully transparent gives
/// transparent black.
pub open spec fn blended(dst: Px, src: Px) -> Px {
    if blend_weight(dst, src) == 0 {
        (0, 0, 0, 0)
    } else {
        (
            blend_channel(src.0, dst.0, src.3, dst.3),
            blend_channel(src.1, dst.1, src.3, dst.3),
            blend_channel(src.2, dst.2, src.3, dst.3),
            round_half_up(blend_weight(dst, src), 255) as u8,
        )
    }
}

/// The canvas after `src` is blended onto the pixel at `(x, y)`; a pixel
/// outside the canvas leaves it unchanged.
pub open spec fn blend_at(m: Map<(int, int), Px>, dims: (u32, u32), x: int, y: int, src: Px) -> Map<(int, int), Px> {
    if in_bounds(dims, x, y) {
        m.insert((x, y), blended(m[(x, y)], src))
    } else {
        m
    }
}

fn blend_channel_exec(s: u8, d: u8, sa: u8, da: u8) -> (c: u8)
    requires
        255 * sa + da * (255 - sa) > 0,
    ensures
        c == blend_channel(s, d, sa, da),
{
    let s32 = s as u32;
    let d32 = d as u32;
    let sa32 = sa as u32;
    let da32 = da as u32;
    assert(s32 * sa32 <= 255 * 255) by (nonlinear_arith)
        requires s32 <= 255, sa32 <= 255;
    assert(s32 * sa32 * 255 <= 255 * 255 * 255) by (nonlinear_arith)
        requires s32 * sa32 <= 255 * 255;
    assert(d32 * da32 <= 255 * 255) by (nonlinear_arith)
        requires d32 <= 255, da32 <= 255;
    assert(d32 * da32 * (255 - sa32) <= 255 * 255 * 255) by (nonlinear_arith)
        requires d32 * da32 <= 255 * 255, sa32 <= 255;
    assert(da32 * (255 - sa32) <= 255 * 255) by (nonlinear_arith)
        requires da32 <= 255, sa32 <= 255;
    let num = s32 * sa32 * 255 + d32 * da32 * (255 - sa32);
    let den = 255 * sa32 + da32 * (255 - sa32);
    ((2 * num + den) / (2 * den)) as u8
}

/// Blends `src` over the pixel at `(x, y)`; coordinates outside the canvas
/// are ignored.  Every channel is the exactly rounded composite (see
/// `blended`); a single-precision float computation of the same formula can
/// round a channel the other way where the true value lies within float
/// error of a half.
pub fn blend_pixel(target: &mut Canvas, x: u32, y: u32, src: Px)
    ensures
        canvas_wf(*old(target)) ==> canvas_wf(*final(target)),
        canvas_dims(*final(target)) == canvas_dims(*old(target)),
        canvas_pixels(*final(target)) == blend_at(canvas_pixels(*old(target)), canvas_dims(*old(target)), x as int, y as int, src),
{
    if x >= target.width() || y >= target.height() {
        return;
    }
    let dst = target.get_pixel(x, y);
    let sa = src.3 as u32;
    let da = dst.3 as u32;
    assert(da * (255 - sa) <= 255 * 255) by (nonlinear_arith)
        requires da <= 255, sa <= 255;
    let weight = 255 * sa + da * (255 - sa);
    if weight == 0 {
        target.put_pixel(x, y, (0, 0, 0, 0));
        return;
    }
    let out = (
        blend_channel_exec(src.0, dst.0, src.3, dst.3),
        blend_channel_exec(src.1, dst.1, src.3, dst.3),
        blend_channel_exec(src.2, dst.2, src.3, dst.3),
        ((2 * weight + 255) / 510) as u8,
    );
    target.put_pixel(x, y, out);
}


proof fn lemma_round_exact(k: int, d: int)
    requires
        d > 0,
        0 <= k,
    ensures
        round_half_up(k * d, d) == k,
{
    assert((2 * (k * d) + d) == (2 * k + 1) * d) by (nonlinear_arith);
    assert((2 * k + 1) * d / (2 * d) == k) by (nonlinear_arith)
        requires d > 0, k >= 0;
}

/// Blending an opaque pixel replaces whatever was there.
pub proof fn lemma_opaque_source_replaces(dst: Px, src: Px)
    requires
        src.3 == 255,
    ensures
        blended(dst, src) == src,
{
    let w = blend_weight(dst, src);
    assert(w == 255 * 255);
    assert(src.0 * src.3 * 255 + dst.0 * dst.3 * (255 - src.3) == src.0 * (255 * 255)) by (nonlinear_arith)
        requires src.3 == 255;
    assert(src.1 * src.3 * 255 + dst.1 * dst.3 * (255 - src.3) == src.1 * (255 * 255)) by (nonlinear_arith)
        requires src.3 == 255;
    assert(src.2 * src.3 * 255 + dst.2 * dst.3 * (255 - src.3) == src.2 * (255 * 255)) by (nonlinear_arith)
        requires src.3 == 255;
    lemma_round_exact(src.0 as int, 255 * 255int);
    lemma_round_exact(src.1 as int, 255 * 255int);
    lemma_round_exact(src.2 as int, 255 * 255int);
    lemma_round_exact(255int, 255int);
}

/// Blending a fully transparent pixel leaves a pixel that has any opacity
/// unchanged.
pub proof fn lemma_transparent_source_keeps(dst: Px, src: Px)
    requires
        src.3 == 0,
        dst.3 > 0,
    ensures
        blended(dst, src) == dst,
{
    let da = dst.3 as int;
    assert(blend_weight(dst, src) == da * 255);
    assert(src.0 * src.3 * 255 + dst.0 * dst.3 * (255 - src.3) == dst.0 * (da * 255)) by (nonlinear_arith)
        requires src.3 == 0, da == dst.3;
    assert(src.1 * src.3 * 255 + dst.1 * dst.3 * (255 - src.3) == dst.1 * (da * 255)) by (nonlinear_arith)
        requires src.3 == 0, da == dst.3;
    assert(src.2 * src.3 * 255 + dst.2 * dst.3 * (255 - src.3) == dst.2 * (da * 255)) by (nonlinear_arith)
        requires src.3 == 0, da == dst.3;
    lemma_round_exact(dst.0 as int, da * 255);
    lemma_round_exact(dst.1 as int, da * 255);
    lemma_round_exact(dst.2 as int, da * 255);
    lemma_round_exact(da, 255int);
}

/// Blending transparent onto transparent gives transparent black.
pub proof fn lemma_transparent_over_transparent(dst: Px, src: Px)
    requires
        src.3 == 0,
        dst.3 == 0,
    ensures
        blended(dst, src) == (0u8, 0u8, 0u8, 0u8),
{
}

/// Every channel of a blend is the exactly rounded composite: the values
/// never leave `0..=255`, so nothing is cut off.
pub proof fn lemma_blend_in_range(s: u8, d: u8, sa: u8, da: u8)
    requires
        255 * sa + da * (255 - sa) > 0,
    ensures
        0 <= round_half_up(s * sa * 255 + d * da * (255 - sa), 255 * sa + da * (255 - sa)) <= 255,
        blend_channel(s, d, sa, da) as int
            == round_half_up(s * sa * 255 + d * da * (255 - sa), 255 * sa + da * (255 - sa)),
{
    let den = 255 * sa + da * (255 - sa);
    let num = s * sa * 255 + d * da * (255 - sa);
    assert(0 <= num <= 255 * den) by (nonlinear_arith)
        requires
            num == s * sa * 255 + d * da * (255 - sa),
            den == 255 * sa + da * (255 - sa),
            s <= 255, d <= 255, sa <= 255, da <= 255;
    assert(0 <= (2 * num + den) / (2 * den) <= 255) by (nonlinear_arith)
        requires 0 <= num <= 255 * den, den > 0;
}


/// The canvas after `color` is blended once onto every in-bounds pixel
/// whose coordinates satisfy `region`; all other pixels keep their value.
pub open spec fn paint(
    m: Map<(int, int), Px>,
    dims: (u32, u32),
    region: spec_fn(int, int) -> bool,
    color: Px,
) -> Map<(int, int), Px> {
    Map::new(
        |k: (int, int)| m.dom().contains(k),
        |k: (int, int)|
            if in_bounds(dims, k.0, k.1) && region(k.0, k.1) {
                blended(m[k], color)
            } else {
                m[k]
            },
    )
}

/// The `u32` pixel coordinate that a signed 32-bit coordinate lands on
/// when it is cast with `as u32`.
pub open spec fn wrap_u32(p: int) -> int {
    if p < 0 {
        p + 0x1_0000_0000
    } else {
        p
    }
}

/// The signed 32-bit coordinate that lands on pixel coordinate `u`.
pub open spec fn signed_i32(u: int) -> int {
    if u <= 0x7fff_ffff {
        u
    } else {
        u - 0x1_0000_0000
    }
}

/// The canvas after `color` is blended onto each point of `pts` in turn,
/// every point cast to pixel coordinates as `as u32` does.
pub open spec fn paint_points(
    m: Map<(int, int), Px>,
    dims: (u32, u32),
    pts: Seq<(int, int)>,
    color: Px,
) -> Map<(int, int), Px>
    decreases pts.len(),
{
    if pts.len() == 0 {
        m
    } else {
        blend_at(
            paint_points(m, dims, pts.drop_last(), color),
            dims,
            wrap_u32(pts.last().0),
            wrap_u32(pts.last().1),
            color,
        )
    }
}

/// Blending onto points none of which lands on `k` leaves the pixel at `k`
/// as it was.
pub proof fn lemma_paint_points_avoid(m: Map<(int, int), Px>, dims: (u32, u32), pts: Seq<(int, int)>, color: Px, k: (int, int))
    requires
        m.dom().contains(k),
        forall|i: int| 0 <= i < pts.len() ==> (wrap_u32(#[trigger] pts[i].0), wrap_u32(pts[i].1)) != k,
    ensures
        paint_points(m, dims, pts, color).dom().contains(k),
        paint_points(m, dims, pts, color)[k] == m[k],
    decreases pts.len(),
{
    if pts.len() > 0 {
        let rest = pts.drop_last();
        assert forall|i: int| 0 <= i < rest.len() implies (wrap_u32(#[trigger] rest[i].0), wrap_u32(rest[i].1)) != k by {
            assert(rest[i] == pts[i]);
        }
        lemma_paint_points_avoid(m, dims, rest, color, k);
        assert(pts.last() == pts[pts.len() - 1]);
    }
}

/// Every pixel of `m0` is still there in `m`, either as it was or with
/// alpha at least `a`.
pub open spec fn kept_or_alpha(m0: Map<(int, int), Px>, m: Map<(int, int), Px>, a: int) -> bool {
    forall|k: (int, int)| #[trigger] m0.dom().contains(k) ==> m.dom().contains(k) && (m[k] == m0[k] || m[k].3 >= a)
}

/// Blending never leaves a pixel more transparent than the colour blended
/// onto it.
pub proof fn lemma_blend_keeps_alpha(dst: Px, src: Px)
    requires
        src.3 > 0,
    ensures
        blended(dst, src).3 >= src.3,
{
    let w = blend_weight(dst, src);
    let sa = src.3 as int;
    let da = dst.3 as int;
    assert(255 * sa <= w <= 255 * 255) by (nonlinear_arith)
        requires w == 255 * sa + da * (255 - sa), 0 < sa <= 255, 0 <= da <= 255;
    assert(sa <= (2 * w + 255) / 510int <= 255) by (nonlinear_arith)
        requires 255 * sa <= w <= 255 * 255, sa >= 0;
}

pub(crate) proof fn lemma_paint_alpha(m0: Map<(int, int), Px>, m: Map<(int, int), Px>, dims: (u32, u32), region: spec_fn(int, int) -> bool, color: Px, a: int)
    requires
        kept_or_alpha(m0, m, a),
        0 < a <= color.3,
    ensures
        kept_or_alpha(m0, paint(m, dims, region, color), a),
{
    assert forall|k: (int, int)| #[trigger] m0.dom().contains(k) implies paint(m, dims, region, color).dom().contains(k) && (
    paint(m, dims, region, color)[k] == m0[k] || paint(m, dims, region, color)[k].3 >= a) by {
        lemma_blend_keeps_alpha(m[k], color);
    }
}

pub(crate) proof fn lemma_paint_points_alpha(m0: Map<(int, int), Px>, m: Map<(int, int), Px>, dims: (u32, u32), pts: Seq<(int, int)>, color: Px, a: int)
    requires
        kept_or_alpha(m0, m, a),
        0 < a <= color.3,
    ensures
        kept_or_alpha(m0, paint_points(m, dims, pts, color), a),
    decreases pts.len(),
{
    if pts.len() > 0 {
        lemma_paint_points_alpha(m0, m, dims, pts.drop_last(), color, a);
        let prev = paint_points(m, dims, pts.drop_last(), color);
        let (u, v) = (wrap_u32(pts.last().0), wrap_u32(pts.last().1));
        if in_bounds(dims, u, v) {
            lemma_blend_keeps_alpha(prev[(u, v)], color);
        }
    }
}

/// Every pixel of `m0` is still there in `m`, either as it was or set to
/// `c`.
pub open spec fn kept_or_set(m0: Map<(int, int), Px>, m: Map<(int, int), Px>, c: Px) -> bool {
    forall|k: (int, int)| #[trigger] m0.dom().contains(k) ==> m.dom().contains(k) && (m[k] == m0[k] || m[k] == c)
}

pub(crate) proof fn lemma_paint_opaque(m0: Map<(int, int), Px>, m: Map<(int, int), Px>, dims: (u32, u32), region: spec_fn(int, int) -> bool, c: Px)
    requires
        kept_or_set(m0, m, c),
        c.3 == 255,
    ensures
        kept_or_set(m0, paint(m, dims, region, c), c),
{
    assert forall|k: (int, int)| #[trigger] m0.dom().contains(k) implies paint(m, dims, region, c).dom().contains(k) && (
    paint(m, dims, region, c)[k] == m0[k] || paint(m, dims, region, c)[k] == c) by {
        lemma_opaque_source_replaces(m[k], c);
    }
}

/// Blending an opaque colour onto points leaves every one of them that lands
/// on the canvas holding exactly that colour.
pub proof fn lemma_paint_points_opaque(m: Map<(int, int), Px>, dims: (u32, u32), pts: Seq<(int, int)>, c: Px)
    requires
        c.3 == 255,
    ensures
        forall|i: int|
            0 <= i < pts.len() && in_bounds(dims, wrap_u32(#[trigger] pts[i].0), wrap_u32(pts[i].1)) ==> paint_points(m, dims, pts,
                c)[(wrap_u32(pts[i].0), wrap_u32(pts[i].1))] == c,
    decreases pts.len(),
{
    if pts.len() > 0 {
        let rest = pts.drop_last();
        lemma_paint_points_opaque(m, dims, rest, c);
        let prev = paint_points(m, dims, rest, c);
        let last = (wrap_u32(pts.last().0), wrap_u32(pts.last().1));
        if in_bounds(dims, last.0, last.1) {
            lemma_opaque_source_replaces(prev[last], c);
        }
        assert forall|i: int|
            0 <= i < pts.len() && in_bounds(dims, wrap_u32(#[trigger] pts[i].0), wrap_u32(pts[i].1)) implies paint_points(m, dims,
                pts, c)[(wrap_u32(pts[i].0), wrap_u32(pts[i].1))] == c by {
            if i < pts.len() - 1 {
                assert(pts[i] == rest[i]);
            }
        }
    }
}

/// Painting with regions that agree on every pixel gives the same canvas.
pub proof fn lemma_paint_ext(
    m: Map<(int, int), Px>,
    dims: (u32, u32),
    r1: spec_fn(int, int) -> bool,
    r2: spec_fn(int, int) -> bool,
    color: Px,
)
    requires
        forall|u: int, v: int| in_bounds(dims, u, v) ==> (r1(u, v) <==> r2(u, v)),
    ensures
        paint(m, dims, r1, color) == paint(m, dims, r2, color),
{
    let a = paint(m, dims, r1, color);
    let b = paint(m, dims, r2, color);
    assert forall|k: (int, int)| a.dom().contains(k) implies #[trigger] a[k] == b[k] by {
        if in_bounds(dims, k.0, k.1) {
            assert(r1(k.0, k.1) == r2(k.0, k.1));
        }
    }
    assert(a =~= b);
}

/// Blending onto one more pixel, outside the region painted so far, paints
/// the region grown by that pixel.
pub proof fn lemma_paint_grow(
    m: Map<(int, int), Px>,
    dims: (u32, u32),
    r1: spec_fn(int, int) -> bool,
    r2: spec_fn(int, int) -> bool,
    color: Px,
    u: int,
    v: int,
)
    requires
        forall|k: (int, int)| #[trigger] m.dom().contains(k) <==> in_bounds(dims, k.0, k.1),
        !r1(u, v),
        forall|a: int, b: int| in_bounds(dims, a, b) ==> (r2(a, b) <==> (r1(a, b) || (a == u && b == v))),
    ensures
        blend_at(paint(m, dims, r1, color), dims, u, v, color) == paint(m, dims, r2, color),
{
    let a = blend_at(paint(m, dims, r1, color), dims, u, v, color);
    let b = paint(m, dims, r2, color);
    assert forall|k: (int, int)| #[trigger] a.dom().contains(k) == b.dom().contains(k) by {}
    assert forall|k: (int, int)| a.dom().contains(k) implies #[trigger] a[k] == b[k] by {
        if in_bounds(dims, k.0, k.1) {
            assert(r2(k.0, k.1) == (r1(k.0, k.1) || (k.0 == u && k.1 == v)));
        }
    }
    assert(a =~= b);
}

pub(crate) fn to_pixel_coord(p: i64) -> (u: u32)
    requires
        i32::MIN <= p <= i32::MAX,
    ensures
        u as int == wrap_u32(p as int),
        signed_i32(u as int) == p,
{
    if p < 0 {
        (p + 0x1_0000_0000) as u32
    } else {
        p as u32
    }
}

} // verus!
