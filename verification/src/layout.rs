//! Where the speech bubble, its tail and the character image go on the
//! canvas, and how the bubble is drawn there.

use vstd::prelude::*;
use crate::raster::{Px, Canvas, canvas_dims, canvas_pixels, canvas_wf, paint, paint_points, lemma_paint_points_avoid, wrap_u32, kept_or_alpha, lemma_paint_alpha, lemma_paint_points_alpha};
use crate::shapes::{
    fill_rounded_rect, stroke_rounded_rect, fill_triangle, stroke_triangle, on_pixels, rounded_rect_area,
    rounded_rect_outline, triangle_area, line_points, abs, twice_area, lemma_line_within, between,
};
use crate::text::{wrap_text, wrapped_lines};

verus! {

/// Placement of everything on the composed canvas.
#[derive(Clone, Copy, Debug)]
pub struct BubbleLayout {
    pub canvas_width: u32,
    pub canvas_height: u32,
    pub image_x: u32,
    pub image_y: u32,
    pub bubble_x: u32,
    pub bubble_y: u32,
    pub bubble_width: u32,
    pub bubble_height: u32,
    pub tail_width: u32,
}

/// `v * num / den` rounded to the nearest integer, halves rounded up,
/// computed exactly (single-precision floats lose whole pixels only beyond
/// about 2^18).
pub open spec fn scaled(v: int, num: int, den: int) -> int {
    (2 * v * num + den) / (2 * den)
}

pub open spec fn clamp(v: int, lo: int, hi: int) -> int {
    if v < lo {
        lo
    } else if v > hi {
        hi
    } else {
        v
    }
}

pub open spec fn max(a: int, b: int) -> int {
    if a >= b {
        a
    } else {
        b
    }
}

pub open spec fn min(a: int, b: int) -> int {
    if a <= b {
        a
    } else {
        b
    }
}

/// `a - b`, or 0 where that would be negative.
pub open spec fn sat_sub(a: int, b: int) -> int {
    if a >= b {
        a - b
    } else {
        0
    }
}

/// `v`, or `u32::MAX` where it is larger.
pub open spec fn sat_u32(v: int) -> int {
    if v > u32::MAX {
        u32::MAX as int
    } else {
        v
    }
}

/// The pixel size of one font cell for an image of the given height.
pub open spec fn font_scale_spec(image_height: int) -> int {
    if image_height >= 420 {
        3
    } else if image_height >= 200 {
        2
    } else {
        1
    }
}

/// The scale of the 8x8 font: 3 for images at least 420 pixels high, 2 for
/// at least 200, else 1.
pub fn font_scale_for_image(image_height: u32) -> (s: u32)
    ensures
        s == font_scale_spec(image_height as int),
{
    if image_height >= 420 {
        3
    } else if image_height >= 200 {
        2
    } else {
        1
    }
}

/// The margin above the bubble: 4% of the image's smaller side, at least 8.
pub open spec fn margin_spec(w: int, h: int) -> int {
    max(scaled(min(w, h), 4, 100), 8)
}

/// The bubble's width: 92% of the image's width, at least 140.
pub open spec fn bubble_width_spec(w: int) -> int {
    max(scaled(w, 92, 100), 140)
}

/// The text padding: 5% of the image's height, between 8 and 28.
pub open spec fn padding_spec(h: int) -> int {
    clamp(scaled(h, 5, 100), 8, 28)
}

/// Characters per line of the bubble's text.
pub open spec fn max_cols_spec(w: int, h: int) -> int {
    let char_width = 8 * font_scale_spec(h);
    let text_area_width = max(sat_sub(bubble_width_spec(w), 2 * padding_spec(h)), char_width);
    max(text_area_width / char_width, 1)
}

/// The bubble's height: room for the wrapped lines plus padding, kept
/// between 30% (72 to 220 pixels) and 72% (120 to 540 pixels) of the
/// image's height.
pub open spec fn bubble_height_spec(text: Seq<char>, w: int, h: int) -> int {
    let line_height = 9 * font_scale_spec(h);
    let lines = (max(wrapped_lines(text, max_cols_spec(w, h)).len() as int, 1) as u32) as int;
    let required = sat_u32(sat_u32(sat_u32(lines * line_height) + 2 * padding_spec(h)) + 4);
    let min_height = clamp(scaled(h, 30, 100), 72, 220);
    let max_height = clamp(scaled(h, 72, 100), 120, 540);
    min(max(required, min_height), max_height)
}

/// The layout of a bubble holding `text` above a `w` by `h` image.
pub open spec fn layout_spec(text: Seq<char>, w: int, h: int) -> BubbleLayout {
    let margin = margin_spec(w, h);
    let bubble_width = bubble_width_spec(w);
    let bubble_height = bubble_height_spec(text, w, h);
    let tail_width = clamp(scaled(bubble_width, 11, 100), 18, 40);
    let tail_height = clamp(scaled(bubble_height, 18, 100), 12, 36);
    let canvas_width = max(w, bubble_width);
    let image_y = margin + bubble_height + tail_height + margin / 2;
    BubbleLayout {
        canvas_width: canvas_width as u32,
        canvas_height: (image_y + h) as u32,
        image_x: ((canvas_width - w) / 2) as u32,
        image_y: image_y as u32,
        bubble_x: ((canvas_width - bubble_width) / 2) as u32,
        bubble_y: margin as u32,
        bubble_width: bubble_width as u32,
        bubble_height: bubble_height as u32,
        tail_width: tail_width as u32,
    }
}

/// The layout fits in 32-bit coordinates: the canvas height does not
/// overflow.
pub open spec fn layout_fits_u32(text: Seq<char>, w: int, h: int) -> bool {
    let margin = margin_spec(w, h);
    let bubble_height = bubble_height_spec(text, w, h);
    let tail_height = clamp(scaled(bubble_height, 18, 100), 12, 36);
    margin + bubble_height + tail_height + margin / 2 + h <= u32::MAX
}

pub(crate) fn scaled_exec(v: u32, num: u64, den: u64) -> (r: u64)
    requires
        1 <= den <= 100,
        num <= 100,
    ensures
        r == scaled(v as int, num as int, den as int),
{
    assert(v * num <= 0xffff_ffff * 100) by (nonlinear_arith)
        requires v <= 0xffff_ffff, num <= 100;
    assert(2 * (v * num) == 2 * v * num) by (nonlinear_arith);
    (2 * ((v as u64) * num) + den) / (2 * den)
}

pub(crate) fn clamp_exec(v: u64, lo: u64, hi: u64) -> (r: u64)
    ensures
        r == clamp(v as int, lo as int, hi as int),
{
    if v < lo {
        lo
    } else if v > hi {
        hi
    } else {
        v
    }
}

fn sat_mul_u32(a: u32, b: u32) -> (r: u32)
    ensures
        r == sat_u32(a * b),
{
    assert(a * b <= 0xffff_ffff * 0xffff_ffff) by (nonlinear_arith)
        requires a <= 0xffff_ffff, b <= 0xffff_ffff;
    let p = a as u64 * b as u64;
    if p > u32::MAX as u64 {
        u32::MAX
    } else {
        p as u32
    }
}

fn sat_add_u32(a: u32, b: u32) -> (r: u32)
    ensures
        r == sat_u32(a + b),
{
    let p = a as u64 + b as u64;
    if p > u32::MAX as u64 {
        u32::MAX
    } else {
        p as u32
    }
}

/// The vertical extents of a bubble holding `text` above a `w` by `h`
/// image: the margin, the bubble's height and the tail's height.
fn vertical_parts(text: &str, w: u32, h: u32) -> (r: (u32, u32, u32))
    ensures
        r.0 == margin_spec(w as int, h as int),
        r.1 == bubble_height_spec(text@, w as int, h as int),
        r.2 == clamp(scaled(bubble_height_spec(text@, w as int, h as int), 18, 100), 12, 36),
{
    let smaller = if w <= h { w } else { h };
    let m_scaled = scaled_exec(smaller, 4, 100);
    let margin: u64 = if m_scaled >= 8 { m_scaled } else { 8 };
    assert(scaled(smaller as int, 4, 100) <= smaller) by (nonlinear_arith)
        requires 0 <= smaller;
    let w_scaled = scaled_exec(w, 92, 100);
    let bubble_width: u64 = if w_scaled >= 140 { w_scaled } else { 140 };
    assert(scaled(w as int, 92, 100) <= w) by (nonlinear_arith)
        requires 0 <= w;
    let font_scale = font_scale_for_image(h);
    let char_width = 8 * font_scale;
    let line_height = 9 * font_scale;
    let padding = clamp_exec(scaled_exec(h, 5, 100), 8, 28) as u32;
    let bw32 = bubble_width as u32;
    let inner = if bw32 >= 2 * padding { bw32 - 2 * padding } else { 0 };
    let text_area_width = if inner >= char_width { inner } else { char_width };
    let cols = text_area_width / char_width;
    let max_cols: usize = if cols >= 1 { cols as usize } else { 1 };
    let line_count = wrap_text(text, max_cols).len();
    let required_lines = (if line_count >= 1 { line_count } else { 1 }) as u32;
    let required = sat_add_u32(sat_add_u32(sat_mul_u32(required_lines, line_height), 2 * padding), 4);
    let min_height = clamp_exec(scaled_exec(h, 30, 100), 72, 220) as u32;
    let max_height = clamp_exec(scaled_exec(h, 72, 100), 120, 540) as u32;
    let at_least = if required >= min_height { required } else { min_height };
    let bubble_height = if at_least <= max_height { at_least } else { max_height };
    let tail_height = clamp_exec(scaled_exec(bubble_height, 18, 100), 12, 36) as u32;
    (margin as u32, bubble_height, tail_height)
}

/// Whether the layout of a bubble holding `text` above an image of
/// `image_width` by `image_height` pixels fits 32-bit coordinates.
pub fn layout_fits(text: &str, image_width: u32, image_height: u32) -> (r: bool)
    ensures
        r == layout_fits_u32(text@, image_width as int, image_height as int),
{
    let (margin, bubble_height, tail_height) = vertical_parts(text, image_width, image_height);
    let total = margin as u64 + bubble_height as u64 + tail_height as u64 + (margin / 2) as u64 + image_height as u64;
    total <= u32::MAX as u64
}

/// Places a bubble holding `text` above an image of `image_width` by
/// `image_height` pixels.
pub fn compute_layout(text: &str, image_width: u32, image_height: u32) -> (l: BubbleLayout)
    requires
        layout_fits_u32(text@, image_width as int, image_height as int),
    ensures
        l == layout_spec(text@, image_width as int, image_height as int),
{
    let w = image_width;
    let h = image_height;
    let (margin, bubble_height, tail_height) = vertical_parts(text, w, h);
    let w_scaled = scaled_exec(w, 92, 100);
    let bubble_width: u64 = if w_scaled >= 140 { w_scaled } else { 140 };
    assert(scaled(w as int, 92, 100) <= w) by (nonlinear_arith)
        requires 0 <= w;
    let bw32 = bubble_width as u32;
    let tail_width = clamp_exec(scaled_exec(bw32, 11, 100), 18, 40) as u32;
    let canvas_width = if w >= bw32 { w } else { bw32 };
    let bubble_x = (canvas_width - bw32) / 2;
    let bubble_y = margin;
    let image_x = (canvas_width - w) / 2;
    let image_y = bubble_y + bubble_height + tail_height + bubble_y / 2;
    let canvas_height = image_y + h;
    BubbleLayout {
        canvas_width,
        canvas_height,
        image_x,
        image_y,
        bubble_x,
        bubble_y,
        bubble_width: bw32,
        bubble_height,
        tail_width,
    }
}

/// The layout keeps everything on the canvas and apart: the bubble and the
/// image both lie within the canvas width, the image ends at the canvas's
/// bottom edge, the bubble (72 to 540 pixels high) ends above the image
/// with room for the tail, and the tail is 18 to 40 pixels wide.
pub proof fn lemma_layout_geometry(text: Seq<char>, w: int, h: int)
    requires
        0 <= w <= u32::MAX,
        0 <= h <= u32::MAX,
        layout_fits_u32(text, w, h),
    ensures
        ({
            let l = layout_spec(text, w, h);
            &&& l.bubble_x + l.bubble_width <= l.canvas_width
            &&& l.image_x + w <= l.canvas_width
            &&& l.canvas_width >= w
            &&& l.image_y + h == l.canvas_height
            &&& l.bubble_y + l.bubble_height + 12 <= l.image_y
            &&& l.bubble_y >= 8
            &&& 72 <= l.bubble_height <= 540
            &&& 18 <= l.tail_width <= 40
        }),
{
    let bw = bubble_width_spec(w);
    assert(scaled(w, 92, 100) <= w) by (nonlinear_arith)
        requires 0 <= w;
    assert(scaled(min(w, h), 4, 100) <= min(w, h)) by (nonlinear_arith)
        requires 0 <= min(w, h);
    let min_height = clamp(scaled(h, 30, 100), 72, 220);
    let max_height = clamp(scaled(h, 72, 100), 120, 540);
    assert(scaled(h, 30, 100) <= scaled(h, 72, 100)) by (nonlinear_arith)
        requires 0 <= h;
    assert(min_height <= max_height);
}

/// The bubble's fill: white, slightly translucent.
pub const BUBBLE_FILL: Px = (255, 255, 255, 230);

/// The bubble's outline: near-black, opaque.
pub const BUBBLE_BORDER: Px = (24, 24, 24, 255);

/// The corner radius of the bubble: a seventh of its height, 10 to 24.
pub open spec fn bubble_radius(l: BubbleLayout) -> int {
    clamp((l.bubble_height / 7) as int, 10, 24)
}

/// The corners of the tail: its base on the bubble's bottom edge, centred,
/// and its tip one pixel above the image.
pub open spec fn tail_corners(l: BubbleLayout) -> ((int, int), (int, int), (int, int)) {
    let center_x = l.bubble_x + l.bubble_width / 2;
    let base_y = l.bubble_y + l.bubble_height;
    let half_tail = l.tail_width / 2;
    ((center_x - half_tail, base_y), (center_x + half_tail, base_y), (center_x, sat_sub(l.image_y as int, 1)))
}

/// The canvas after the bubble is drawn: the rounded body filled and
/// outlined, then the tail filled and outlined.
pub open spec fn bubble_drawn(m: Map<(int, int), Px>, dims: (u32, u32), l: BubbleLayout) -> Map<(int, int), Px> {
    let (x, y, w, h, r) = (l.bubble_x as int, l.bubble_y as int, l.bubble_width as int, l.bubble_height as int, bubble_radius(l));
    let (a, b, c) = tail_corners(l);
    let body = paint(m, dims, on_pixels(rounded_rect_area(x, y, w, h, r)), BUBBLE_FILL);
    let outlined = paint(body, dims, on_pixels(rounded_rect_outline(x, y, w, h, r)), BUBBLE_BORDER);
    let tail = paint(outlined, dims, on_pixels(triangle_area(a, b, c)), BUBBLE_FILL);
    paint_points(
        paint_points(paint_points(tail, dims, line_points(a, b), BUBBLE_BORDER), dims, line_points(b, c), BUBBLE_BORDER),
        dims,
        line_points(c, a),
        BUBBLE_BORDER,
    )
}

/// Drawing the bubble leaves every row above it, and every row from the
/// image's top edge down, as it was.
pub proof fn lemma_bubble_rows_kept(m: Map<(int, int), Px>, cdims: (u32, u32), l: BubbleLayout, k: (int, int))
    requires
        m.dom().contains(k),
        l.bubble_y >= 8,
        l.bubble_y + l.bubble_height + 12 <= l.image_y,
        (0 <= k.1 < l.bubble_y || l.image_y <= k.1 <= u32::MAX),
    ensures
        bubble_drawn(m, cdims, l).dom().contains(k),
        bubble_drawn(m, cdims, l)[k] == m[k],
{
    let (bx, by, bw, bh, r) = (l.bubble_x as int, l.bubble_y as int, l.bubble_width as int, l.bubble_height as int, bubble_radius(l));
    let (a, b, c) = tail_corners(l);
    let body = paint(m, cdims, on_pixels(rounded_rect_area(bx, by, bw, bh, r)), BUBBLE_FILL);
    let outlined = paint(body, cdims, on_pixels(rounded_rect_outline(bx, by, bw, bh, r)), BUBBLE_BORDER);
    let tail = paint(outlined, cdims, on_pixels(triangle_area(a, b, c)), BUBBLE_FILL);
    assert(body[k] == m[k]);
    assert(outlined[k] == m[k]);
    assert(tail[k] == m[k]);
    lemma_line_within(a, b);
    lemma_line_within(b, c);
    lemma_line_within(c, a);
    let s1 = paint_points(tail, cdims, line_points(a, b), BUBBLE_BORDER);
    let s2 = paint_points(s1, cdims, line_points(b, c), BUBBLE_BORDER);
    assert forall|i: int| 0 <= i < line_points(a, b).len() implies (wrap_u32(#[trigger] line_points(a, b)[i].0),
        wrap_u32(line_points(a, b)[i].1)) != k by {
        assert(between(line_points(a, b)[i].1, a.1, b.1));
    }
    lemma_paint_points_avoid(tail, cdims, line_points(a, b), BUBBLE_BORDER, k);
    assert forall|i: int| 0 <= i < line_points(b, c).len() implies (wrap_u32(#[trigger] line_points(b, c)[i].0),
        wrap_u32(line_points(b, c)[i].1)) != k by {
        assert(between(line_points(b, c)[i].1, b.1, c.1));
    }
    lemma_paint_points_avoid(s1, cdims, line_points(b, c), BUBBLE_BORDER, k);
    assert forall|i: int| 0 <= i < line_points(c, a).len() implies (wrap_u32(#[trigger] line_points(c, a)[i].0),
        wrap_u32(line_points(c, a)[i].1)) != k by {
        assert(between(line_points(c, a)[i].1, c.1, a.1));
    }
    lemma_paint_points_avoid(s2, cdims, line_points(c, a), BUBBLE_BORDER, k);
}

/// Drawing the bubble changes a pixel only to one at least 230 opaque (the
/// fill's alpha; the outline is opaque).
pub proof fn lemma_bubble_drawn_alpha(m: Map<(int, int), Px>, dims: (u32, u32), l: BubbleLayout)
    ensures
        kept_or_alpha(m, bubble_drawn(m, dims, l), 230),
{
    let (x, y, w, h, r) = (l.bubble_x as int, l.bubble_y as int, l.bubble_width as int, l.bubble_height as int, bubble_radius(l));
    let (a, b, c) = tail_corners(l);
    let body = paint(m, dims, on_pixels(rounded_rect_area(x, y, w, h, r)), BUBBLE_FILL);
    let outlined = paint(body, dims, on_pixels(rounded_rect_outline(x, y, w, h, r)), BUBBLE_BORDER);
    let tail = paint(outlined, dims, on_pixels(triangle_area(a, b, c)), BUBBLE_FILL);
    let s1 = paint_points(tail, dims, line_points(a, b), BUBBLE_BORDER);
    let s2 = paint_points(s1, dims, line_points(b, c), BUBBLE_BORDER);
    assert(kept_or_alpha(m, m, 230));
    lemma_paint_alpha(m, m, dims, on_pixels(rounded_rect_area(x, y, w, h, r)), BUBBLE_FILL, 230);
    lemma_paint_alpha(m, body, dims, on_pixels(rounded_rect_outline(x, y, w, h, r)), BUBBLE_BORDER, 230);
    lemma_paint_alpha(m, outlined, dims, on_pixels(triangle_area(a, b, c)), BUBBLE_FILL, 230);
    lemma_paint_points_alpha(m, tail, dims, line_points(a, b), BUBBLE_BORDER, 230);
    lemma_paint_points_alpha(m, s1, dims, line_points(b, c), BUBBLE_BORDER, 230);
    lemma_paint_points_alpha(m, s2, dims, line_points(c, a), BUBBLE_BORDER, 230);
}

/// The layout's coordinates fit signed 32-bit drawing coordinates.
pub open spec fn drawable(l: BubbleLayout) -> bool {
    &&& l.bubble_x + l.bubble_width + l.tail_width <= i32::MAX
    &&& l.bubble_y + l.bubble_height <= i32::MAX
    &&& l.image_y <= i32::MAX
}

/// Draws the bubble's body and tail as the layout places them.
pub fn draw_bubble(target: &mut Canvas, layout: BubbleLayout)
    requires
        canvas_wf(*old(target)),
        drawable(layout),
    ensures
        canvas_wf(*final(target)),
        canvas_dims(*final(target)) == canvas_dims(*old(target)),
        canvas_pixels(*final(target)) == bubble_drawn(canvas_pixels(*old(target)), canvas_dims(*old(target)), layout),
{
    let fill = BUBBLE_FILL;
    let border = BUBBLE_BORDER;
    let r7 = layout.bubble_height / 7;
    let radius = (if r7 < 10 { 10 } else if r7 > 24 { 24 } else { r7 }) as i32;
    let x = layout.bubble_x as i32;
    let y = layout.bubble_y as i32;
    let w = layout.bubble_width as i32;
    let h = layout.bubble_height as i32;
    fill_rounded_rect(target, x, y, w, h, radius, fill);
    stroke_rounded_rect(target, x, y, w, h, radius, border);
    let center_x = (layout.bubble_x + (layout.bubble_width / 2)) as i32;
    let base_y = (layout.bubble_y + layout.bubble_height) as i32;
    let tip_x = center_x;
    let tip_y = (if layout.image_y >= 1 { layout.image_y - 1 } else { 0 }) as i32;
    let half_tail = (layout.tail_width / 2) as i32;
    fill_triangle(target, (center_x - half_tail, base_y), (center_x + half_tail, base_y), (tip_x, tip_y), fill);
    stroke_triangle(target, (center_x - half_tail, base_y), (center_x + half_tail, base_y), (tip_x, tip_y), border);
}

/// Subpixels per pixel: cursor positions are given in units of 2^-24
/// pixel, fine enough to hold a single-precision cursor coordinate near the
/// bubble exactly.
pub const SUBPIXELS: i64 = 16_777_216;

/// A cursor coordinate in subpixels that lies within the `i32` range of
/// whole pixels.
pub open spec fn cursor_in_range(v: int) -> bool {
    i32::MIN * SUBPIXELS <= v < (i32::MAX + 1) * SUBPIXELS
}

/// The cursor at `(x, y)` (in subpixels) is on the tail: the three
/// triangles that the point forms with the tail's edges add up to the
/// whole tail within half a square pixel of area.  The tail's base corners
/// lie half the tail's width either side of the bubble's centre.
pub open spec fn on_tail(l: BubbleLayout, x: int, y: int) -> bool {
    let s = SUBPIXELS as int;
    let cx = (l.bubble_x + l.bubble_width / 2) * s;
    let base = (l.bubble_y + l.bubble_height) * s;
    let half = l.tail_width * (s / 2);
    let a = (cx - half, base);
    let b = (cx + half, base);
    let c = (cx, sat_sub(l.image_y as int, 1) * s);
    let p = (x, y);
    abs(twice_area(p, b, c) + twice_area(a, p, c) + twice_area(a, b, p) - twice_area(a, b, c)) <= s * s
}

/// The cursor at `(x, y)` (in subpixels) is on the bubble: within its
/// rectangle, edges included, or on its tail.
pub open spec fn on_bubble(l: BubbleLayout, x: int, y: int) -> bool {
    let s = SUBPIXELS as int;
    ||| (l.bubble_x * s <= x <= (l.bubble_x + l.bubble_width) * s && l.bubble_y * s <= y <= (l.bubble_y + l.bubble_height) * s)
    ||| on_tail(l, x, y)
}

/// A click on any pixel of the bubble's drawn body hits the bubble.
pub proof fn lemma_body_is_hit(l: BubbleLayout, x: int, y: int)
    requires
        rounded_rect_area(l.bubble_x as int, l.bubble_y as int, l.bubble_width as int, l.bubble_height as int,
            bubble_radius(l))(x, y),
    ensures
        on_bubble(l, x * SUBPIXELS, y * SUBPIXELS),
{
    let s = SUBPIXELS as int;
    assert(l.bubble_x * s <= x * s <= (l.bubble_x + l.bubble_width) * s) by (nonlinear_arith)
        requires l.bubble_x <= x < l.bubble_x + l.bubble_width, s > 0;
    assert(l.bubble_y * s <= y * s <= (l.bubble_y + l.bubble_height) * s) by (nonlinear_arith)
        requires l.bubble_y <= y < l.bubble_y + l.bubble_height, s > 0;
}

/// Past the tip of a triangle with a horizontal base, or above its base,
/// by at least `g`, the three triangles that a point forms with the edges
/// exceed the whole by at least four times the half-width of the base
/// times `g`.
proof fn lemma_tail_excess(cx: int, base: int, t: int, tip: int, px: int, py: int, g: int)
    requires
        t >= 1,
        g >= 1,
        tip > base,
        py >= tip + g || py <= base - g,
    ensures
        abs(twice_area((px, py), (cx + t, base), (cx, tip))) + abs(twice_area((cx - t, base), (px, py), (cx, tip)))
            + abs(twice_area((cx - t, base), (cx + t, base), (px, py))) - abs(twice_area((cx - t, base), (cx + t, base), (cx, tip)))
            >= 4 * t * g,
{
    let u = px - cx;
    let v = py - base;
    let h = tip - base;
    let s1 = px * (base - tip) + (cx + t) * (tip - py) + cx * (py - base);
    let s2 = (cx - t) * (py - tip) + px * (tip - base) + cx * (base - py);
    let s3 = (cx - t) * (base - py) + (cx + t) * (py - base) + px * (base - base);
    let s = (cx - t) * (base - tip) + (cx + t) * (tip - base) + cx * (base - base);
    assert(s1 == t * (h - v) - u * h) by (nonlinear_arith)
        requires s1 == px * (base - tip) + (cx + t) * (tip - py) + cx * (py - base), u == px - cx, v == py - base, h == tip - base;
    assert(s2 == t * (h - v) + u * h) by (nonlinear_arith)
        requires s2 == (cx - t) * (py - tip) + px * (tip - base) + cx * (base - py), u == px - cx, v == py - base, h == tip - base;
    assert(s3 == 2 * t * v) by (nonlinear_arith)
        requires s3 == (cx - t) * (base - py) + (cx + t) * (py - base) + px * (base - base), v == py - base;
    assert(s == 2 * t * h) by (nonlinear_arith)
        requires s == (cx - t) * (base - tip) + (cx + t) * (tip - base) + cx * (base - base), h == tip - base;
    assert(abs(s1) + abs(s2) + abs(s3) - abs(s) >= 4 * t * g) by (nonlinear_arith)
        requires
            s1 == t * (h - v) - u * h,
            s2 == t * (h - v) + u * h,
            s3 == 2 * t * v,
            s == 2 * t * h,
            t >= 1,
            g >= 1,
            h >= 1,
            v >= h + g || v <= -g;
}

/// Only the bubble's own rows answer a click: nothing above the bubble, and
/// nothing at or below the image's top edge, is on the bubble or its tail.
pub proof fn lemma_only_bubble_rows_hit(text: Seq<char>, w: int, h: int, x: int, y: int)
    requires
        0 <= w <= u32::MAX,
        0 <= h <= u32::MAX,
        layout_fits_u32(text, w, h),
        y < layout_spec(text, w, h).bubble_y * SUBPIXELS || y >= layout_spec(text, w, h).image_y * SUBPIXELS,
    ensures
        !on_bubble(layout_spec(text, w, h), x, y),
{
    let l = layout_spec(text, w, h);
    let s = SUBPIXELS as int;
    lemma_layout_geometry(text, w, h);
    let cx = (l.bubble_x + l.bubble_width / 2) * s;
    let base = (l.bubble_y + l.bubble_height) * s;
    let tip = sat_sub(l.image_y as int, 1) * s;
    let t = l.tail_width * (s / 2);
    assert(tip >= base + 11 * s) by (nonlinear_arith)
        requires tip == sat_sub(l.image_y as int, 1) * s, base == (l.bubble_y + l.bubble_height) * s,
            l.bubble_y + l.bubble_height + 12 <= l.image_y, s > 0;
    assert(l.bubble_y * s <= base) by (nonlinear_arith)
        requires base == (l.bubble_y + l.bubble_height) * s, l.bubble_height >= 0, s > 0;
    assert(l.image_y * s == tip + s);
    assert(t >= 9 * s);
    lemma_tail_excess(cx, base, t, tip, x, y, s);
    assert(4 * t * s >= 36 * s * s) by (nonlinear_arith)
        requires t >= 9 * s, s > 0;
}

/// Twice the area of a triangle whose coordinates lie within 2^60.
fn twice_area_wide(p1: (i128, i128), p2: (i128, i128), p3: (i128, i128)) -> (r: i128)
    requires
        -0x1000_0000_0000_0000 <= p1.0 <= 0x1000_0000_0000_0000, -0x1000_0000_0000_0000 <= p1.1 <= 0x1000_0000_0000_0000,
        -0x1000_0000_0000_0000 <= p2.0 <= 0x1000_0000_0000_0000, -0x1000_0000_0000_0000 <= p2.1 <= 0x1000_0000_0000_0000,
        -0x1000_0000_0000_0000 <= p3.0 <= 0x1000_0000_0000_0000, -0x1000_0000_0000_0000 <= p3.1 <= 0x1000_0000_0000_0000,
    ensures
        r == twice_area((p1.0 as int, p1.1 as int), (p2.0 as int, p2.1 as int), (p3.0 as int, p3.1 as int)),
        0 <= r <= 3 * 0x200_0000_0000_0000_0000_0000_0000_0000,
{
    let (x1, y1) = p1;
    let (x2, y2) = p2;
    let (x3, y3) = p3;
    assert(-0x200_0000_0000_0000_0000_0000_0000_0000 <= x1 * (y2 - y3) <= 0x200_0000_0000_0000_0000_0000_0000_0000) by (nonlinear_arith)
        requires -0x1000_0000_0000_0000 <= x1 <= 0x1000_0000_0000_0000, -0x2000_0000_0000_0000 <= y2 - y3 <= 0x2000_0000_0000_0000;
    assert(-0x200_0000_0000_0000_0000_0000_0000_0000 <= x2 * (y3 - y1) <= 0x200_0000_0000_0000_0000_0000_0000_0000) by (nonlinear_arith)
        requires -0x1000_0000_0000_0000 <= x2 <= 0x1000_0000_0000_0000, -0x2000_0000_0000_0000 <= y3 - y1 <= 0x2000_0000_0000_0000;
    assert(-0x200_0000_0000_0000_0000_0000_0000_0000 <= x3 * (y1 - y2) <= 0x200_0000_0000_0000_0000_0000_0000_0000) by (nonlinear_arith)
        requires -0x1000_0000_0000_0000 <= x3 <= 0x1000_0000_0000_0000, -0x2000_0000_0000_0000 <= y1 - y2 <= 0x2000_0000_0000_0000;
    let v = x1 * (y2 - y3) + x2 * (y3 - y1) + x3 * (y1 - y2);
    if v < 0 {
        -v
    } else {
        v
    }
}

/// Whether the cursor at `(x, y)` (in subpixels) is on the bubble or its
/// tail.
pub fn layout_hit(layout: BubbleLayout, x: i64, y: i64) -> (r: bool)
    requires
        layout.bubble_x + layout.bubble_width <= u32::MAX,
        layout.bubble_y + layout.bubble_height <= u32::MAX,
        cursor_in_range(x as int),
        cursor_in_range(y as int),
    ensures
        r == on_bubble(layout, x as int, y as int),
{
    let s = SUBPIXELS as i128;
    let px = x as i128;
    let py = y as i128;
    let left = layout.bubble_x as i128 * s;
    let right = (layout.bubble_x as i128 + layout.bubble_width as i128) * s;
    let top = layout.bubble_y as i128 * s;
    let bottom = (layout.bubble_y as i128 + layout.bubble_height as i128) * s;
    if px >= left && px <= right && py >= top && py <= bottom {
        return true;
    }
    let cx = (layout.bubble_x + layout.bubble_width / 2) as i128 * s;
    let base = (layout.bubble_y + layout.bubble_height) as i128 * s;
    let tip = (if layout.image_y >= 1 { layout.image_y - 1 } else { 0 }) as i128 * s;
    let half = layout.tail_width as i128 * (s / 2);
    let a = (cx - half, base);
    let b = (cx + half, base);
    let c = (cx, tip);
    let p = (px, py);
    let total = twice_area_wide(a, b, c);
    let a1 = twice_area_wide(p, b, c);
    let a2 = twice_area_wide(a, p, c);
    let a3 = twice_area_wide(a, b, p);
    let diff = a1 + a2 + a3 - total;
    diff <= s * s && diff >= -(s * s)
}

/// Where the "continue" marker goes: half a cell after the last visible
/// character of the last line, vertically centred on that line, but never
/// closer than one cell to the bubble's right edge; without lines, two
/// cells in from the bubble's bottom-right corner.
pub open spec fn indicator_anchor_spec(
    l: BubbleLayout, lines: Seq<Seq<char>>, start_x: int, start_y: int, char_width: int, line_height: int,
) -> (int, int) {
    if lines.len() > 0 {
        let line_idx = (lines.len() - 1) as u32 as int;
        let x = sat_u32(sat_u32(start_x + sat_u32((lines.last().len() as u32) * char_width)) + char_width / 2);
        let y = sat_u32(sat_u32(start_y + sat_u32(line_idx * line_height)) + line_height / 2);
        let max_x = sat_sub(sat_u32(l.bubble_x + l.bubble_width), char_width);
        (min(x, max_x), y)
    } else {
        (sat_sub(sat_u32(l.bubble_x + l.bubble_width), char_width * 2), sat_sub(sat_u32(l.bubble_y + l.bubble_height), line_height * 2))
    }
}

/// Where to draw the marker that the message is complete.
pub fn indicator_anchor(
    layout: BubbleLayout,
    lines: &[String],
    start_x: u32,
    start_y: u32,
    char_width: u32,
    line_height: u32,
) -> (r: (u32, u32))
    requires
        lines@.len() > 0 || (char_width * 2 <= u32::MAX && line_height * 2 <= u32::MAX),
    ensures
        (r.0 as int, r.1 as int) == indicator_anchor_spec(layout, lines@.map_values(|s: String| s@), start_x as int,
            start_y as int, char_width as int, line_height as int),
{
    let ghost views = lines@.map_values(|s: String| s@);
    let n = lines.len();
    if n > 0 {
        let last_line = &lines[n - 1];
        assert(views.last() == last_line@);
        let line_idx = (n - 1) as u32;
        let count = last_line.as_str().unicode_len() as u32;
        let x = sat_add_u32(sat_add_u32(start_x, sat_mul_u32(count, char_width)), char_width / 2);
        let y = sat_add_u32(sat_add_u32(start_y, sat_mul_u32(line_idx, line_height)), line_height / 2);
        let right = sat_add_u32(layout.bubble_x, layout.bubble_width);
        let max_x = if right >= char_width { right - char_width } else { 0 };
        let clamped_x = if x <= max_x { x } else { max_x };
        return (clamped_x, y);
    }
    let right = sat_add_u32(layout.bubble_x, layout.bubble_width);
    let x = if right >= char_width * 2 { right - char_width * 2 } else { 0 };
    let bottom = sat_add_u32(layout.bubble_y, layout.bubble_height);
    let y = if bottom >= line_height * 2 { bottom - line_height * 2 } else { 0 };
    (x, y)
}

} // verus!
