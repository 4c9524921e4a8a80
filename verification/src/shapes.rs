//! Rasterisation of the bubble's shapes: rounded rectangles, triangles,
//! lines and glyphs, each blended pixel by pixel onto a canvas.

use vstd::prelude::*;
use font8x8::{UnicodeFonts, BASIC_FONTS};
use vstd::arithmetic::div_mod::lemma_fundamental_div_mod_converse;
use crate::raster::{lemma_paint_ext, lemma_paint_grow, Px, Canvas, canvas_pixels, canvas_dims, canvas_wf, in_bounds, blend_at, blended, paint, paint_points, wrap_u32, signed_i32, blend_pixel, to_pixel_coord, lemma_paint_points_opaque, lemma_paint_points_avoid};

verus! {

/// `(qx, qy)` comes before `(px, py)` in row-major scan order.
pub open spec fn scanned_before(px: int, py: int, qx: int, qy: int) -> bool {
    qy < py || (qy == py && qx < px)
}

/// The pixels of `region` (in signed drawing coordinates) that a row-major
/// scan has reached before `(px, py)`.
pub open spec fn region_upto(region: spec_fn(int, int) -> bool, px: int, py: int) -> spec_fn(int, int) -> bool {
    |u: int, v: int| region(signed_i32(u), signed_i32(v)) && scanned_before(px, py, signed_i32(u), signed_i32(v))
}

/// `region` read in pixel coordinates, each reached from its signed
/// drawing coordinate by `as u32`.
pub open spec fn on_pixels(region: spec_fn(int, int) -> bool) -> spec_fn(int, int) -> bool {
    |u: int, v: int| region(signed_i32(u), signed_i32(v))
}

pub open spec fn dom_is_canvas(m: Map<(int, int), Px>, dims: (u32, u32)) -> bool {
    forall|k: (int, int)| #[trigger] m.dom().contains(k) <==> in_bounds(dims, k.0, k.1)
}

proof fn lemma_scan_step(
    m0: Map<(int, int), Px>,
    dims: (u32, u32),
    region: spec_fn(int, int) -> bool,
    color: Px,
    px: int,
    py: int,
)
    requires
        i32::MIN <= px <= i32::MAX,
        i32::MIN <= py <= i32::MAX,
        dom_is_canvas(m0, dims),
    ensures
        region(px, py) ==> blend_at(paint(m0, dims, region_upto(region, px, py), color), dims, wrap_u32(px), wrap_u32(py), color)
            == paint(m0, dims, region_upto(region, px + 1, py), color),
        !region(px, py) ==> paint(m0, dims, region_upto(region, px, py), color)
            == paint(m0, dims, region_upto(region, px + 1, py), color),
{
    let cur = paint(m0, dims, region_upto(region, px, py), color);
    let next = paint(m0, dims, region_upto(region, px + 1, py), color);
    if region(px, py) {
        let b = blend_at(cur, dims, wrap_u32(px), wrap_u32(py), color);
        assert forall|k: (int, int)| #[trigger] b.dom().contains(k) == next.dom().contains(k) by {}
        assert forall|k: (int, int)| b.dom().contains(k) implies #[trigger] b[k] == next[k] by {
            if k == (wrap_u32(px), wrap_u32(py)) {
            } else {
                if in_bounds(dims, k.0, k.1) {
                    assert(!(signed_i32(k.0) == px && signed_i32(k.1) == py));
                }
            }
        }
        assert(b =~= next);
    } else {
        assert forall|k: (int, int)| cur.dom().contains(k) implies #[trigger] cur[k] == next[k] by {}
        assert(cur =~= next);
    }
}

proof fn lemma_scan_row(
    m0: Map<(int, int), Px>,
    dims: (u32, u32),
    region: spec_fn(int, int) -> bool,
    color: Px,
    lo: int,
    hi: int,
    py: int,
)
    requires
        forall|qx: int, qy: int| #[trigger] region(qx, qy) ==> lo <= qx < hi,
    ensures
        paint(m0, dims, region_upto(region, hi, py), color) == paint(m0, dims, region_upto(region, lo, py + 1), color),
{
    let a = paint(m0, dims, region_upto(region, hi, py), color);
    let b = paint(m0, dims, region_upto(region, lo, py + 1), color);
    assert forall|k: (int, int)| a.dom().contains(k) implies #[trigger] a[k] == b[k] by {
        if region(signed_i32(k.0), signed_i32(k.1)) {
        }
    }
    assert(a =~= b);
}

proof fn lemma_scan_done(
    m0: Map<(int, int), Px>,
    dims: (u32, u32),
    region: spec_fn(int, int) -> bool,
    color: Px,
    lo: int,
    hi: int,
)
    requires
        forall|qx: int, qy: int| #[trigger] region(qx, qy) ==> qy < hi,
    ensures
        paint(m0, dims, region_upto(region, lo, hi), color) == paint(m0, dims, on_pixels(region), color),
{
    let a = paint(m0, dims, region_upto(region, lo, hi), color);
    let b = paint(m0, dims, on_pixels(region), color);
    assert forall|k: (int, int)| a.dom().contains(k) implies #[trigger] a[k] == b[k] by {
        if region(signed_i32(k.0), signed_i32(k.1)) {
        }
    }
    assert(a =~= b);
}

proof fn lemma_scan_start(
    m0: Map<(int, int), Px>,
    dims: (u32, u32),
    region: spec_fn(int, int) -> bool,
    color: Px,
    lo: int,
    top: int,
)
    requires
        forall|qx: int, qy: int| #[trigger] region(qx, qy) ==> top <= qy && lo <= qx,
    ensures
        paint(m0, dims, region_upto(region, lo, top), color) == m0,
{
    let a = paint(m0, dims, region_upto(region, lo, top), color);
    assert forall|k: (int, int)| a.dom().contains(k) implies #[trigger] a[k] == m0[k] by {
        if region(signed_i32(k.0), signed_i32(k.1)) {
        }
    }
    assert(a =~= m0);
}

/// `(px, py)` is within `r` of the point `(cx, cy)`.
pub open spec fn within_radius(px: int, py: int, cx: int, cy: int, r: int) -> bool {
    (px - cx) * (px - cx) + (py - cy) * (py - cy) <= r * r
}

/// Membership in the rectangle at `(x, y)` of `width` by `height` pixels
/// whose corners are rounded with radius `r`: the middle band (horizontal
/// or vertical) counts by the rectangle's edges, the corners by the circles
/// of radius `r` around the four inset corner centres.
pub open spec fn in_rounded_rect(px: int, py: int, x: int, y: int, width: int, height: int, r: int) -> bool {
    let left = x;
    let right = x + width - 1;
    let top = y;
    let bottom = y + height - 1;
    if left + r <= px <= right - r {
        top <= py <= bottom
    } else if top + r <= py <= bottom - r {
        left <= px <= right
    } else {
        ||| within_radius(px, py, left + r, top + r, r)
        ||| within_radius(px, py, right - r, top + r, r)
        ||| within_radius(px, py, left + r, bottom - r, r)
        ||| within_radius(px, py, right - r, bottom - r, r)
    }
}

fn in_rounded_rect_exec(px: i64, py: i64, x: i64, y: i64, width: i64, height: i64, r: i64) -> (b: bool)
    requires
        i32::MIN - 1 <= px <= i32::MAX + 1,
        i32::MIN - 1 <= py <= i32::MAX + 1,
        i32::MIN <= x <= i32::MAX,
        i32::MIN <= y <= i32::MAX,
        i32::MIN <= width <= i32::MAX,
        i32::MIN <= height <= i32::MAX,
        i32::MIN <= r <= i32::MAX,
    ensures
        b == in_rounded_rect(px as int, py as int, x as int, y as int, width as int, height as int, r as int),
{
    let left = x;
    let right = x + width - 1;
    let top = y;
    let bottom = y + height - 1;
    if px >= left + r && px <= right - r {
        return py >= top && py <= bottom;
    }
    if py >= top + r && py <= bottom - r {
        return px >= left && px <= right;
    }
    near_corner(px, py, left + r, top + r, r)
        || near_corner(px, py, right - r, top + r, r)
        || near_corner(px, py, left + r, bottom - r, r)
        || near_corner(px, py, right - r, bottom - r, r)
}

fn near_corner(px: i64, py: i64, cx: i64, cy: i64, r: i64) -> (b: bool)
    requires
        -0x4_0000_0000 <= px <= 0x4_0000_0000,
        -0x4_0000_0000 <= py <= 0x4_0000_0000,
        -0x4_0000_0000 <= cx <= 0x4_0000_0000,
        -0x4_0000_0000 <= cy <= 0x4_0000_0000,
        -0x1_0000_0000 <= r <= 0x1_0000_0000,
    ensures
        b == within_radius(px as int, py as int, cx as int, cy as int, r as int),
{
    let dx = (px - cx) as i128;
    let dy = (py - cy) as i128;
    let r2 = r as i128;
    assert(0 <= dx * dx <= 0x10_0000_0000 * 0x10_0000_0000) by (nonlinear_arith)
        requires -0x10_0000_0000 <= dx <= 0x10_0000_0000;
    assert(0 <= dy * dy <= 0x10_0000_0000 * 0x10_0000_0000) by (nonlinear_arith)
        requires -0x10_0000_0000 <= dy <= 0x10_0000_0000;
    assert(0 <= r2 * r2 <= 0x1_0000_0000 * 0x1_0000_0000) by (nonlinear_arith)
        requires -0x1_0000_0000 <= r2 <= 0x1_0000_0000;
    dx * dx + dy * dy <= r2 * r2
}

/// Whether `(px, py)` lies in the rounded rectangle at `(x, y)` of
/// `width` by `height` with corner radius `radius`.
pub fn point_in_rounded_rect(px: i32, py: i32, x: i32, y: i32, width: i32, height: i32, radius: i32) -> (b: bool)
    ensures
        b == in_rounded_rect(px as int, py as int, x as int, y as int, width as int, height as int, radius as int),
{
    in_rounded_rect_exec(px as i64, py as i64, x as i64, y as i64, width as i64, height as i64, radius as i64)
}


proof fn lemma_square_bound(d: int, r: int)
    requires
        r >= 0,
    ensures
        (-d) * (-d) == d * d,
        d * d <= r * r ==> -r <= d <= r,
{
    assert((-d) * (-d) == d * d) by (nonlinear_arith);
    assert(d * d <= r * r ==> -r <= d <= r) by (nonlinear_arith)
        requires r >= 0;
}

/// A rounded rectangle is symmetric about both of its centre lines, and,
/// when its radius fits (twice the radius at most one less than each
/// side), it lies within its bounding box.
pub proof fn lemma_rounded_rect_shape(px: int, py: int, x: int, y: int, width: int, height: int, r: int)
    ensures
        in_rounded_rect(px, py, x, y, width, height, r) == in_rounded_rect(2 * x + width - 1 - px, py, x, y, width, height, r),
        in_rounded_rect(px, py, x, y, width, height, r) == in_rounded_rect(px, 2 * y + height - 1 - py, x, y, width, height, r),
        0 <= r && 2 * r <= width - 1 && 2 * r <= height - 1 && in_rounded_rect(px, py, x, y, width, height, r) ==> x <= px <= x
            + width - 1 && y <= py <= y + height - 1,
{
    let left = x;
    let right = x + width - 1;
    let top = y;
    let bottom = y + height - 1;
    let qx = 2 * x + width - 1 - px;
    let qy = 2 * y + height - 1 - py;
    let rr = if r >= 0 { r } else { 0 };
    lemma_square_bound(px - (left + r), rr);
    lemma_square_bound(px - (right - r), rr);
    lemma_square_bound(py - (top + r), rr);
    lemma_square_bound(py - (bottom - r), rr);
    assert(qx - (left + r) == -(px - (right - r)));
    assert(qx - (right - r) == -(px - (left + r)));
    assert(qy - (top + r) == -(py - (bottom - r)));
    assert(qy - (bottom - r) == -(py - (top + r)));
}

/// The pixels that `fill_rounded_rect` covers: the rounded rectangle,
/// clipped to its bounding box.
pub open spec fn rounded_rect_area(x: int, y: int, width: int, height: int, r: int) -> spec_fn(int, int) -> bool {
    |qx: int, qy: int| x <= qx < x + width && y <= qy < y + height && in_rounded_rect(qx, qy, x, y, width, height, r)
}

/// Blends `color` once onto every pixel of the rounded rectangle at
/// `(x, y)` of `width` by `height` with corner radius `radius`.
pub fn fill_rounded_rect(target: &mut Canvas, x: i32, y: i32, width: i32, height: i32, radius: i32, color: Px)
    requires
        canvas_wf(*old(target)),
        i32::MIN <= x + width <= i32::MAX,
        i32::MIN <= y + height <= i32::MAX,
    ensures
        canvas_dims(*final(target)) == canvas_dims(*old(target)),
        canvas_pixels(*final(target)) == paint(
            canvas_pixels(*old(target)),
            canvas_dims(*old(target)),
            on_pixels(rounded_rect_area(x as int, y as int, width as int, height as int, radius as int)),
            color,
        ),
{
    let ghost m0 = canvas_pixels(*target);
    let ghost dims = canvas_dims(*target);
    let ghost area = rounded_rect_area(x as int, y as int, width as int, height as int, radius as int);
    let max_x: i64 = x as i64 + width as i64;
    let max_y: i64 = y as i64 + height as i64;
    let mut py: i64 = y as i64;
    proof {
        lemma_scan_start(m0, dims, area, color, x as int, y as int);
    }
    while py < max_y
        invariant
            y <= py <= max_y || py == y,
            max_x == x + width,
            max_y == y + height,
            i32::MIN <= max_y <= i32::MAX,
            i32::MIN <= max_x <= i32::MAX,
            dom_is_canvas(m0, dims),
            area == rounded_rect_area(x as int, y as int, width as int, height as int, radius as int),
            canvas_dims(*target) == dims,
            canvas_pixels(*target) == paint(m0, dims, region_upto(area, x as int, py as int), color),
        decreases max_y - py,
    {
        let mut px: i64 = x as i64;
        while px < max_x
            invariant
                x <= px <= max_x || px == x,
                y <= py < max_y,
                max_x == x + width,
                max_y == y + height,
                i32::MIN <= max_y <= i32::MAX,
                i32::MIN <= max_x <= i32::MAX,
                dom_is_canvas(m0, dims),
                area == rounded_rect_area(x as int, y as int, width as int, height as int, radius as int),
                canvas_dims(*target) == dims,
                canvas_pixels(*target) == paint(m0, dims, region_upto(area, px as int, py as int), color),
            decreases max_x - px,
        {
            proof {
                lemma_scan_step(m0, dims, area, color, px as int, py as int);
            }
            if point_in_rounded_rect(px as i32, py as i32, x, y, width, height, radius) {
                blend_pixel(target, to_pixel_coord(px), to_pixel_coord(py), color);
            }
            px = px + 1;
        }
        proof {
            lemma_scan_row(m0, dims, area, color, x as int, px as int, py as int);
        }
        py = py + 1;
    }
    proof {
        lemma_scan_done(m0, dims, area, color, x as int, py as int);
    }
}


/// The pixels that `stroke_rounded_rect` covers: pixels of the filled
/// rounded rectangle with at least one of their four neighbours outside it.
pub open spec fn rounded_rect_outline(x: int, y: int, width: int, height: int, r: int) -> spec_fn(int, int) -> bool {
    |qx: int, qy: int|
        x <= qx < x + width && y <= qy < y + height && in_rounded_rect(qx, qy, x, y, width, height, r) && !(
        in_rounded_rect(qx + 1, qy, x, y, width, height, r) && in_rounded_rect(qx - 1, qy, x, y, width, height, r)
            && in_rounded_rect(qx, qy + 1, x, y, width, height, r) && in_rounded_rect(qx, qy - 1, x, y, width, height, r))
}

/// Blends `color` once onto every boundary pixel of the rounded rectangle
/// at `(x, y)` of `width` by `height` with corner radius `radius`.
pub fn stroke_rounded_rect(target: &mut Canvas, x: i32, y: i32, width: i32, height: i32, radius: i32, color: Px)
    requires
        canvas_wf(*old(target)),
        i32::MIN <= x + width <= i32::MAX,
        i32::MIN <= y + height <= i32::MAX,
    ensures
        canvas_dims(*final(target)) == canvas_dims(*old(target)),
        canvas_pixels(*final(target)) == paint(
            canvas_pixels(*old(target)),
            canvas_dims(*old(target)),
            on_pixels(rounded_rect_outline(x as int, y as int, width as int, height as int, radius as int)),
            color,
        ),
{
    let ghost m0 = canvas_pixels(*target);
    let ghost dims = canvas_dims(*target);
    let ghost area = rounded_rect_outline(x as int, y as int, width as int, height as int, radius as int);
    let max_x: i64 = x as i64 + width as i64;
    let max_y: i64 = y as i64 + height as i64;
    let mut py: i64 = y as i64;
    proof {
        lemma_scan_start(m0, dims, area, color, x as int, y as int);
    }
    while py < max_y
        invariant
            y <= py <= max_y || py == y,
            max_x == x + width,
            max_y == y + height,
            i32::MIN <= max_y <= i32::MAX,
            i32::MIN <= max_x <= i32::MAX,
            dom_is_canvas(m0, dims),
            area == rounded_rect_outline(x as int, y as int, width as int, height as int, radius as int),
            canvas_dims(*target) == dims,
            canvas_pixels(*target) == paint(m0, dims, region_upto(area, x as int, py as int), color),
        decreases max_y - py,
    {
        let mut px: i64 = x as i64;
        while px < max_x
            invariant
                x <= px <= max_x || px == x,
                y <= py < max_y,
                max_x == x + width,
                max_y == y + height,
                i32::MIN <= max_y <= i32::MAX,
                i32::MIN <= max_x <= i32::MAX,
                dom_is_canvas(m0, dims),
                area == rounded_rect_outline(x as int, y as int, width as int, height as int, radius as int),
                canvas_dims(*target) == dims,
                canvas_pixels(*target) == paint(m0, dims, region_upto(area, px as int, py as int), color),
            decreases max_x - px,
        {
            proof {
                lemma_scan_step(m0, dims, area, color, px as int, py as int);
            }
            let (xx, yy, ww, hh, rr) = (x as i64, y as i64, width as i64, height as i64, radius as i64);
            let inside = in_rounded_rect_exec(px, py, xx, yy, ww, hh, rr);
            if inside {
                let all_neighbours_inside = in_rounded_rect_exec(px + 1, py, xx, yy, ww, hh, rr)
                    && in_rounded_rect_exec(px - 1, py, xx, yy, ww, hh, rr)
                    && in_rounded_rect_exec(px, py + 1, xx, yy, ww, hh, rr)
                    && in_rounded_rect_exec(px, py - 1, xx, yy, ww, hh, rr);
                if !all_neighbours_inside {
                    blend_pixel(target, to_pixel_coord(px), to_pixel_coord(py), color);
                }
            }
            px = px + 1;
        }
        proof {
            lemma_scan_row(m0, dims, area, color, x as int, px as int, py as int);
        }
        py = py + 1;
    }
    proof {
        lemma_scan_done(m0, dims, area, color, x as int, py as int);
    }
}

pub open spec fn abs(v: int) -> int {
    if v < 0 {
        -v
    } else {
        v
    }
}

/// Twice the area of the triangle `p1 p2 p3`.
pub open spec fn twice_area(p1: (int, int), p2: (int, int), p3: (int, int)) -> int {
    abs(p1.0 * (p2.1 - p3.1) + p2.0 * (p3.1 - p1.1) + p3.0 * (p1.1 - p2.1))
}

/// `p` is in the triangle `a b c`: the three triangles that `p` forms with
/// the edges add up to the whole, within half a unit of area.
pub open spec fn in_triangle(p: (int, int), a: (int, int), b: (int, int), c: (int, int)) -> bool {
    abs(twice_area(p, b, c) + twice_area(a, p, c) + twice_area(a, b, p) - twice_area(a, b, c)) <= 1
}

fn twice_area_exec(p1: (i64, i64), p2: (i64, i64), p3: (i64, i64)) -> (r: i128)
    requires
        i32::MIN <= p1.0 <= i32::MAX, i32::MIN <= p1.1 <= i32::MAX,
        i32::MIN <= p2.0 <= i32::MAX, i32::MIN <= p2.1 <= i32::MAX,
        i32::MIN <= p3.0 <= i32::MAX, i32::MIN <= p3.1 <= i32::MAX,
    ensures
        r == twice_area((p1.0 as int, p1.1 as int), (p2.0 as int, p2.1 as int), (p3.0 as int, p3.1 as int)),
        0 <= r <= 0x4_0000_0000_0000_0000 * 3,
{
    let (x1, y1) = (p1.0 as i128, p1.1 as i128);
    let (x2, y2) = (p2.0 as i128, p2.1 as i128);
    let (x3, y3) = (p3.0 as i128, p3.1 as i128);
    assert(-0x4_0000_0000_0000_0000 <= x1 * (y2 - y3) <= 0x4_0000_0000_0000_0000) by (nonlinear_arith)
        requires -0x8000_0000 <= x1 <= 0x8000_0000, -0x1_0000_0000 <= y2 - y3 <= 0x1_0000_0000;
    assert(-0x4_0000_0000_0000_0000 <= x2 * (y3 - y1) <= 0x4_0000_0000_0000_0000) by (nonlinear_arith)
        requires -0x8000_0000 <= x2 <= 0x8000_0000, -0x1_0000_0000 <= y3 - y1 <= 0x1_0000_0000;
    assert(-0x4_0000_0000_0000_0000 <= x3 * (y1 - y2) <= 0x4_0000_0000_0000_0000) by (nonlinear_arith)
        requires -0x8000_0000 <= x3 <= 0x8000_0000, -0x1_0000_0000 <= y1 - y2 <= 0x1_0000_0000;
    let v = x1 * (y2 - y3) + x2 * (y3 - y1) + x3 * (y1 - y2);
    if v < 0 {
        -v
    } else {
        v
    }
}

/// Whether `(px, py)` lies in the triangle `a b c` (its edges included).
pub fn point_in_triangle(px: i32, py: i32, a: (i32, i32), b: (i32, i32), c: (i32, i32)) -> (r: bool)
    ensures
        r == in_triangle((px as int, py as int), (a.0 as int, a.1 as int), (b.0 as int, b.1 as int), (c.0 as int, c.1 as int)),
{
    let p = (px as i64, py as i64);
    let a = (a.0 as i64, a.1 as i64);
    let b = (b.0 as i64, b.1 as i64);
    let c = (c.0 as i64, c.1 as i64);
    let total = twice_area_exec(a, b, c);
    let a1 = twice_area_exec(p, b, c);
    let a2 = twice_area_exec(a, p, c);
    let a3 = twice_area_exec(a, b, p);
    let diff = a1 + a2 + a3 - total;
    diff <= 1 && diff >= -1
}


pub open spec fn min3(a: int, b: int, c: int) -> int {
    if a <= b && a <= c {
        a
    } else if b <= c {
        b
    } else {
        c
    }
}

pub open spec fn max3(a: int, b: int, c: int) -> int {
    if a >= b && a >= c {
        a
    } else if b >= c {
        b
    } else {
        c
    }
}

/// The pixels that `fill_triangle` covers: the triangle's points within
/// its bounding box.
pub open spec fn triangle_area(a: (int, int), b: (int, int), c: (int, int)) -> spec_fn(int, int) -> bool {
    |qx: int, qy: int|
        min3(a.0, b.0, c.0) <= qx <= max3(a.0, b.0, c.0) && min3(a.1, b.1, c.1) <= qy <= max3(a.1, b.1, c.1)
            && in_triangle((qx, qy), a, b, c)
}

fn min3_exec(a: i32, b: i32, c: i32) -> (r: i32)
    ensures
        r == min3(a as int, b as int, c as int),
{
    if a <= b && a <= c {
        a
    } else if b <= c {
        b
    } else {
        c
    }
}

fn max3_exec(a: i32, b: i32, c: i32) -> (r: i32)
    ensures
        r == max3(a as int, b as int, c as int),
{
    if a >= b && a >= c {
        a
    } else if b >= c {
        b
    } else {
        c
    }
}

/// Blends `color` once onto every pixel of the triangle `a b c`.
pub fn fill_triangle(target: &mut Canvas, a: (i32, i32), b: (i32, i32), c: (i32, i32), color: Px)
    requires
        canvas_wf(*old(target)),
    ensures
        canvas_dims(*final(target)) == canvas_dims(*old(target)),
        canvas_pixels(*final(target)) == paint(
            canvas_pixels(*old(target)),
            canvas_dims(*old(target)),
            on_pixels(triangle_area((a.0 as int, a.1 as int), (b.0 as int, b.1 as int), (c.0 as int, c.1 as int))),
            color,
        ),
{
    let ghost m0 = canvas_pixels(*target);
    let ghost dims = canvas_dims(*target);
    let ghost area = triangle_area((a.0 as int, a.1 as int), (b.0 as int, b.1 as int), (c.0 as int, c.1 as int));
    let min_x = min3_exec(a.0, b.0, c.0) as i64;
    let max_x = max3_exec(a.0, b.0, c.0) as i64;
    let min_y = min3_exec(a.1, b.1, c.1) as i64;
    let max_y = max3_exec(a.1, b.1, c.1) as i64;
    let mut py: i64 = min_y;
    proof {
        lemma_scan_start(m0, dims, area, color, min_x as int, min_y as int);
    }
    while py <= max_y
        invariant
            min_y <= py <= max_y + 1,
            min_x == min3(a.0 as int, b.0 as int, c.0 as int),
            max_x == max3(a.0 as int, b.0 as int, c.0 as int),
            min_y == min3(a.1 as int, b.1 as int, c.1 as int),
            max_y == max3(a.1 as int, b.1 as int, c.1 as int),
            dom_is_canvas(m0, dims),
            area == triangle_area((a.0 as int, a.1 as int), (b.0 as int, b.1 as int), (c.0 as int, c.1 as int)),
            canvas_dims(*target) == dims,
            canvas_pixels(*target) == paint(m0, dims, region_upto(area, min_x as int, py as int), color),
        decreases max_y + 1 - py,
    {
        let mut px: i64 = min_x;
        while px <= max_x
            invariant
                min_x <= px <= max_x + 1,
                min_y <= py <= max_y,
                min_x == min3(a.0 as int, b.0 as int, c.0 as int),
                max_x == max3(a.0 as int, b.0 as int, c.0 as int),
                min_y == min3(a.1 as int, b.1 as int, c.1 as int),
                max_y == max3(a.1 as int, b.1 as int, c.1 as int),
                dom_is_canvas(m0, dims),
                area == triangle_area((a.0 as int, a.1 as int), (b.0 as int, b.1 as int), (c.0 as int, c.1 as int)),
                canvas_dims(*target) == dims,
                canvas_pixels(*target) == paint(m0, dims, region_upto(area, px as int, py as int), color),
            decreases max_x + 1 - px,
        {
            proof {
                lemma_scan_step(m0, dims, area, color, px as int, py as int);
            }
            if point_in_triangle(px as i32, py as i32, a, b, c) {
                blend_pixel(target, to_pixel_coord(px), to_pixel_coord(py), color);
            }
            px = px + 1;
        }
        proof {
            lemma_scan_row(m0, dims, area, color, min_x as int, px as int, py as int);
        }
        py = py + 1;
    }
    proof {
        lemma_scan_done(m0, dims, area, color, min_x as int, py as int);
    }
}


/// The points that Bresenham's walk visits from `(x, y)` toward
/// `(x1, y1)`: `sx`, `sy` are the unit steps, `dx >= 0` and `dy <= 0` the
/// horizontal and (negated) vertical extents and `err` the running error;
/// the walk visits at most `fuel` points.
pub open spec fn line_walk(
    x: int,
    y: int,
    x1: int,
    y1: int,
    sx: int,
    sy: int,
    dx: int,
    dy: int,
    err: int,
    fuel: nat,
) -> Seq<(int, int)>
    decreases fuel,
{
    if fuel == 0 {
        seq![]
    } else if x == x1 && y == y1 {
        seq![(x, y)]
    } else {
        let e2 = 2 * err;
        let nx = if e2 >= dy { x + sx } else { x };
        let err1 = if e2 >= dy { err + dy } else { err };
        let ny = if e2 <= dx { y + sy } else { y };
        let err2 = if e2 <= dx { err1 + dx } else { err1 };
        seq![(x, y)] + line_walk(nx, ny, x1, y1, sx, sy, dx, dy, err2, (fuel - 1) as nat)
    }
}

/// The points of the line from `start` to `end` in the order Bresenham's
/// algorithm visits them; one more point than the larger of the two
/// extents is always enough.
pub open spec fn line_points(start: (int, int), end: (int, int)) -> Seq<(int, int)> {
    let dx = abs(end.0 - start.0);
    let sx: int = if start.0 < end.0 { 1 } else { -1 };
    let dy = -abs(end.1 - start.1);
    let sy: int = if start.1 < end.1 { 1 } else { -1 };
    line_walk(start.0, start.1, end.0, end.1, sx, sy, dx, dy, dx + dy, (dx - dy + 1) as nat)
}

/// The state of the walk after `xs` horizontal and `ys` vertical steps.
pub open spec fn walk_state(
    x: int, y: int, x0: int, y0: int, x1: int, y1: int, sx: int, sy: int, dx: int, dy: int, err: int, xs: int, ys: int,
) -> bool {
    &&& sx == (if x0 < x1 { 1int } else { -1int })
    &&& sy == (if y0 < y1 { 1int } else { -1int })
    &&& dx == abs(x1 - x0)
    &&& dy == -abs(y1 - y0)
    &&& 0 <= xs <= dx
    &&& 0 <= ys <= -dy
    &&& x == x0 + sx * xs
    &&& y == y0 + sy * ys
    &&& err == dx * (1 + ys) + dy * (1 + xs)
}

proof fn lemma_walk_step(
    x: int, y: int, x0: int, y0: int, x1: int, y1: int, sx: int, sy: int, dx: int, dy: int, err: int, xs: int, ys: int,
)
    requires
        walk_state(x, y, x0, y0, x1, y1, sx, sy, dx, dy, err, xs, ys),
        !(x == x1 && y == y1),
    ensures
        ({
            let e2 = 2 * err;
            let nxs = if e2 >= dy { xs + 1 } else { xs };
            let nys = if e2 <= dx { ys + 1 } else { ys };
            let nx = if e2 >= dy { x + sx } else { x };
            let err1 = if e2 >= dy { err + dy } else { err };
            let ny = if e2 <= dx { y + sy } else { y };
            let err2 = if e2 <= dx { err1 + dx } else { err1 };
            &&& walk_state(nx, ny, x0, y0, x1, y1, sx, sy, dx, dy, err2, nxs, nys)
            &&& nxs + nys > xs + ys
        }),
{
    let e2 = 2 * err;
    let big_y = -dy;
    assert(x == x1 <==> xs == dx) by (nonlinear_arith)
        requires x == x0 + sx * xs, sx == (if x0 < x1 { 1int } else { -1int }), dx == abs(x1 - x0);
    assert(y == y1 <==> ys == big_y) by (nonlinear_arith)
        requires y == y0 + sy * ys, sy == (if y0 < y1 { 1int } else { -1int }), big_y == abs(y1 - y0);
    if e2 >= dy && xs == dx {
        assert(ys < big_y);
        assert(false) by (nonlinear_arith)
            requires
                2 * err >= -big_y,
                err == dx * (1 + ys) + dy * (1 + xs),
                big_y == -dy,
                xs == dx,
                0 <= ys < big_y,
                dx >= 0;
    }
    if e2 <= dx && ys == big_y {
        assert(xs < dx);
        assert(false) by (nonlinear_arith)
            requires
                2 * err <= dx,
                err == dx * (1 + ys) + dy * (1 + xs),
                big_y == -dy,
                ys == big_y,
                0 <= xs < dx,
                big_y >= 0;
    }
    let nxs = if e2 >= dy { xs + 1 } else { xs };
    let nys = if e2 <= dx { ys + 1 } else { ys };
    let nx = if e2 >= dy { x + sx } else { x };
    let err1 = if e2 >= dy { err + dy } else { err };
    let ny = if e2 <= dx { y + sy } else { y };
    let err2 = if e2 <= dx { err1 + dx } else { err1 };
    assert(nx == x0 + sx * nxs) by (nonlinear_arith)
        requires nx == (if e2 >= dy { x + sx } else { x }), nxs == (if e2 >= dy { xs + 1 } else { xs }), x == x0 + sx * xs;
    assert(ny == y0 + sy * nys) by (nonlinear_arith)
        requires ny == (if e2 <= dx { y + sy } else { y }), nys == (if e2 <= dx { ys + 1 } else { ys }), y == y0 + sy * ys;
    assert(err2 == dx * (1 + nys) + dy * (1 + nxs)) by (nonlinear_arith)
        requires
            err == dx * (1 + ys) + dy * (1 + xs),
            err1 == (if e2 >= dy { err + dy } else { err }),
            err2 == (if e2 <= dx { err1 + dx } else { err1 }),
            nxs == (if e2 >= dy { xs + 1 } else { xs }),
            nys == (if e2 <= dx { ys + 1 } else { ys });
}

proof fn lemma_walk_ends(
    x: int, y: int, x0: int, y0: int, x1: int, y1: int, sx: int, sy: int, dx: int, dy: int, err: int, xs: int, ys: int,
    fuel: nat,
)
    requires
        walk_state(x, y, x0, y0, x1, y1, sx, sy, dx, dy, err, xs, ys),
        fuel >= (dx - xs) + (-dy - ys) + 1,
    ensures
        line_walk(x, y, x1, y1, sx, sy, dx, dy, err, fuel).len() > 0,
        line_walk(x, y, x1, y1, sx, sy, dx, dy, err, fuel)[0] == (x, y),
        line_walk(x, y, x1, y1, sx, sy, dx, dy, err, fuel).last() == (x1, y1),
    decreases fuel,
{
    assert(x == x1 <==> xs == dx) by (nonlinear_arith)
        requires x == x0 + sx * xs, sx == (if x0 < x1 { 1int } else { -1int }), dx == abs(x1 - x0);
    assert(y == y1 <==> ys == -dy) by (nonlinear_arith)
        requires y == y0 + sy * ys, sy == (if y0 < y1 { 1int } else { -1int }), -dy == abs(y1 - y0);
    if !(x == x1 && y == y1) {
        lemma_walk_step(x, y, x0, y0, x1, y1, sx, sy, dx, dy, err, xs, ys);
        let e2 = 2 * err;
        let nxs = if e2 >= dy { xs + 1 } else { xs };
        let nys = if e2 <= dx { ys + 1 } else { ys };
        let nx = if e2 >= dy { x + sx } else { x };
        let err1 = if e2 >= dy { err + dy } else { err };
        let ny = if e2 <= dx { y + sy } else { y };
        let err2 = if e2 <= dx { err1 + dx } else { err1 };
        lemma_walk_ends(nx, ny, x0, y0, x1, y1, sx, sy, dx, dy, err2, nxs, nys, (fuel - 1) as nat);
    }
}

/// `v` lies between `a` and `b`, in either order.
pub open spec fn between(v: int, a: int, b: int) -> bool {
    (a <= v <= b) || (b <= v <= a)
}

proof fn lemma_walk_within(
    x: int, y: int, x0: int, y0: int, x1: int, y1: int, sx: int, sy: int, dx: int, dy: int, err: int, xs: int, ys: int,
    fuel: nat,
)
    requires
        walk_state(x, y, x0, y0, x1, y1, sx, sy, dx, dy, err, xs, ys),
    ensures
        forall|i: int| 0 <= i < line_walk(x, y, x1, y1, sx, sy, dx, dy, err, fuel).len() ==> {
            let p = #[trigger] line_walk(x, y, x1, y1, sx, sy, dx, dy, err, fuel)[i];
            between(p.0, x0, x1) && between(p.1, y0, y1)
        },
    decreases fuel,
{
    assert(between(x, x0, x1)) by (nonlinear_arith)
        requires x == x0 + sx * xs, sx == (if x0 < x1 { 1int } else { -1int }), dx == abs(x1 - x0), 0 <= xs <= dx;
    assert(between(y, y0, y1)) by (nonlinear_arith)
        requires y == y0 + sy * ys, sy == (if y0 < y1 { 1int } else { -1int }), -dy == abs(y1 - y0), 0 <= ys <= -dy;
    if fuel > 0 && !(x == x1 && y == y1) {
        lemma_walk_step(x, y, x0, y0, x1, y1, sx, sy, dx, dy, err, xs, ys);
        let e2 = 2 * err;
        let nxs = if e2 >= dy { xs + 1 } else { xs };
        let nys = if e2 <= dx { ys + 1 } else { ys };
        let nx = if e2 >= dy { x + sx } else { x };
        let err1 = if e2 >= dy { err + dy } else { err };
        let ny = if e2 <= dx { y + sy } else { y };
        let err2 = if e2 <= dx { err1 + dx } else { err1 };
        lemma_walk_within(nx, ny, x0, y0, x1, y1, sx, sy, dx, dy, err2, nxs, nys, (fuel - 1) as nat);
        let rest = line_walk(nx, ny, x1, y1, sx, sy, dx, dy, err2, (fuel - 1) as nat);
        let all = line_walk(x, y, x1, y1, sx, sy, dx, dy, err, fuel);
        assert(all == seq![(x, y)] + rest);
        assert forall|i: int| 0 <= i < all.len() implies between(#[trigger] all[i].0, x0, x1) && between(all[i].1, y0, y1) by {
            if i > 0 {
                assert(all[i] == rest[i - 1]);
            }
        }
    }
}

/// Two points are 8-neighbours: distinct, and at most one apart on each
/// axis.
pub open spec fn neighbours(p: (int, int), q: (int, int)) -> bool {
    p != q && -1 <= q.0 - p.0 <= 1 && -1 <= q.1 - p.1 <= 1
}

proof fn lemma_walk_shape(
    x: int, y: int, x0: int, y0: int, x1: int, y1: int, sx: int, sy: int, dx: int, dy: int, err: int, xs: int, ys: int,
    fuel: nat,
)
    requires
        walk_state(x, y, x0, y0, x1, y1, sx, sy, dx, dy, err, xs, ys),
        fuel >= (dx - xs) + (-dy - ys) + 1,
        dx >= -dy ==> 2 * err >= dy,
        dx < -dy ==> 2 * err <= dx,
    ensures
        line_walk(x, y, x1, y1, sx, sy, dx, dy, err, fuel).len() == (if dx >= -dy { dx - xs } else { -dy - ys }) + 1,
        forall|i: int| 0 <= i < line_walk(x, y, x1, y1, sx, sy, dx, dy, err, fuel).len() - 1 ==> neighbours(
            #[trigger] line_walk(x, y, x1, y1, sx, sy, dx, dy, err, fuel)[i], line_walk(x, y, x1, y1, sx, sy, dx, dy, err, fuel)[i
            + 1]),
    decreases fuel,
{
    assert(x == x1 <==> xs == dx) by (nonlinear_arith)
        requires x == x0 + sx * xs, sx == (if x0 < x1 { 1int } else { -1int }), dx == abs(x1 - x0);
    assert(y == y1 <==> ys == -dy) by (nonlinear_arith)
        requires y == y0 + sy * ys, sy == (if y0 < y1 { 1int } else { -1int }), -dy == abs(y1 - y0);
    if !(x == x1 && y == y1) {
        lemma_walk_step(x, y, x0, y0, x1, y1, sx, sy, dx, dy, err, xs, ys);
        let e2 = 2 * err;
        let nxs = if e2 >= dy { xs + 1 } else { xs };
        let nys = if e2 <= dx { ys + 1 } else { ys };
        let nx = if e2 >= dy { x + sx } else { x };
        let err1 = if e2 >= dy { err + dy } else { err };
        let ny = if e2 <= dx { y + sy } else { y };
        let err2 = if e2 <= dx { err1 + dx } else { err1 };
        lemma_walk_shape(nx, ny, x0, y0, x1, y1, sx, sy, dx, dy, err2, nxs, nys, (fuel - 1) as nat);
        let rest = line_walk(nx, ny, x1, y1, sx, sy, dx, dy, err2, (fuel - 1) as nat);
        let all = line_walk(x, y, x1, y1, sx, sy, dx, dy, err, fuel);
        assert(all == seq![(x, y)] + rest);
        lemma_walk_ends(nx, ny, x0, y0, x1, y1, sx, sy, dx, dy, err2, nxs, nys, (fuel - 1) as nat);
        assert forall|i: int| 0 <= i < all.len() - 1 implies neighbours(#[trigger] all[i], all[i + 1]) by {
            if i > 0 {
                assert(all[i] == rest[i - 1]);
                assert(all[i + 1] == rest[i]);
            } else {
                assert(all[1] == rest[0]);
            }
        }
    }
}

/// A line is a chain of 8-neighbouring points, one more than the larger of
/// its two extents.
pub proof fn lemma_line_shape(start: (int, int), end: (int, int))
    ensures
        line_points(start, end).len() == (if abs(end.0 - start.0) >= abs(end.1 - start.1) {
            abs(end.0 - start.0)
        } else {
            abs(end.1 - start.1)
        }) + 1,
        forall|i: int| 0 <= i < line_points(start, end).len() - 1 ==> neighbours(
            #[trigger] line_points(start, end)[i], line_points(start, end)[i + 1]),
{
    let dx = abs(end.0 - start.0);
    let sx: int = if start.0 < end.0 { 1 } else { -1 };
    let dy = -abs(end.1 - start.1);
    let sy: int = if start.1 < end.1 { 1 } else { -1 };
    assert(dx * (1 + 0) + dy * (1 + 0) == dx + dy) by (nonlinear_arith);
    lemma_walk_shape(start.0, start.1, start.0, start.1, end.0, end.1, sx, sy, dx, dy, dx + dy, 0, 0, (dx - dy + 1) as nat);
}

/// Every point of a line lies in the box spanned by its two ends.
pub proof fn lemma_line_within(start: (int, int), end: (int, int))
    ensures
        forall|i: int| 0 <= i < line_points(start, end).len() ==> {
            let p = #[trigger] line_points(start, end)[i];
            between(p.0, start.0, end.0) && between(p.1, start.1, end.1)
        },
{
    let dx = abs(end.0 - start.0);
    let sx: int = if start.0 < end.0 { 1 } else { -1 };
    let dy = -abs(end.1 - start.1);
    let sy: int = if start.1 < end.1 { 1 } else { -1 };
    assert(dx * (1 + 0) + dy * (1 + 0) == dx + dy) by (nonlinear_arith);
    lemma_walk_within(start.0, start.1, start.0, start.1, end.0, end.1, sx, sy, dx, dy, dx + dy, 0, 0, (dx - dy + 1) as nat);
}

/// The two ends of a line are the first and the last point drawn.
pub proof fn lemma_line_endpoints(start: (int, int), end: (int, int))
    ensures
        line_points(start, end).len() > 0,
        line_points(start, end)[0] == start,
        line_points(start, end).last() == end,
{
    let dx = abs(end.0 - start.0);
    let sx: int = if start.0 < end.0 { 1 } else { -1 };
    let dy = -abs(end.1 - start.1);
    let sy: int = if start.1 < end.1 { 1 } else { -1 };
    assert(dx * (1 + 0) + dy * (1 + 0) == dx + dy) by (nonlinear_arith);
    lemma_walk_ends(start.0, start.1, start.0, start.1, end.0, end.1, sx, sy, dx, dy, dx + dy, 0, 0, (dx - dy + 1) as nat);
}

/// Drawing a line in an opaque colour: both ends, where they land on the
/// canvas, hold exactly that colour, and (for a line with no negative
/// coordinates) every pixel outside the box of its two ends keeps its value.
pub proof fn lemma_line_pixels(m: Map<(int, int), Px>, dims: (u32, u32), start: (int, int), end: (int, int), c: Px, k: (int, int))
    requires
        c.3 == 255,
    ensures
        in_bounds(dims, wrap_u32(start.0), wrap_u32(start.1)) ==> paint_points(m, dims, line_points(start, end), c)[(
        wrap_u32(start.0), wrap_u32(start.1))] == c,
        in_bounds(dims, wrap_u32(end.0), wrap_u32(end.1)) ==> paint_points(m, dims, line_points(start, end), c)[(wrap_u32(end.0),
        wrap_u32(end.1))] == c,
        start.0 >= 0 && start.1 >= 0 && end.0 >= 0 && end.1 >= 0 && m.dom().contains(k) && !(between(k.0, start.0, end.0) && between(
            k.1, start.1, end.1)) ==> paint_points(m, dims, line_points(start, end), c)[k] == m[k],
{
    let pts = line_points(start, end);
    lemma_line_endpoints(start, end);
    lemma_line_within(start, end);
    lemma_paint_points_opaque(m, dims, pts, c);
    assert(pts[0] == start);
    assert(pts[pts.len() - 1] == end);
    if start.0 >= 0 && start.1 >= 0 && end.0 >= 0 && end.1 >= 0 && m.dom().contains(k) && !(between(k.0, start.0, end.0)
        && between(k.1, start.1, end.1)) {
        assert forall|i: int| 0 <= i < pts.len() implies (wrap_u32(#[trigger] pts[i].0), wrap_u32(pts[i].1)) != k by {
            assert(between(pts[i].0, start.0, end.0) && between(pts[i].1, start.1, end.1));
        }
        lemma_paint_points_avoid(m, dims, pts, c, k);
    }
}

/// Blends `color` onto each point of the line from `start` to `end`, in
/// the order of Bresenham's algorithm.
pub fn draw_line(target: &mut Canvas, start: (i32, i32), end: (i32, i32), color: Px)
    ensures
        canvas_wf(*old(target)) ==> canvas_wf(*final(target)),
        canvas_dims(*final(target)) == canvas_dims(*old(target)),
        canvas_pixels(*final(target)) == paint_points(
            canvas_pixels(*old(target)),
            canvas_dims(*old(target)),
            line_points((start.0 as int, start.1 as int), (end.0 as int, end.1 as int)),
            color,
        ),
{
    let ghost m0 = canvas_pixels(*target);
    let ghost dims = canvas_dims(*target);
    let ghost all = line_points((start.0 as int, start.1 as int), (end.0 as int, end.1 as int));
    let mut x0: i64 = start.0 as i64;
    let mut y0: i64 = start.1 as i64;
    let x1: i64 = end.0 as i64;
    let y1: i64 = end.1 as i64;
    let dx: i64 = if x1 >= x0 { x1 - x0 } else { x0 - x1 };
    let sx: i64 = if x0 < x1 { 1 } else { -1 };
    let dy: i64 = if y1 >= y0 { y0 - y1 } else { y1 - y0 };
    let sy: i64 = if y0 < y1 { 1 } else { -1 };
    let mut err: i128 = dx as i128 + dy as i128;
    let ghost mut xs: int = 0;
    let ghost mut ys: int = 0;
    let ghost mut fuel: nat = (dx - dy + 1) as nat;
    let ghost mut done: Seq<(int, int)> = seq![];
    assert(x0 == start.0 + sx * 0 && y0 == start.1 + sy * 0 && err == dx * (1 + 0) + dy * (1 + 0)) by (nonlinear_arith)
        requires x0 == start.0, y0 == start.1, err == dx + dy;
    assert(all == done + line_walk(x0 as int, y0 as int, x1 as int, y1 as int, sx as int, sy as int, dx as int, dy as int, err as int, fuel));
    loop
        invariant_except_break
            all == done + line_walk(x0 as int, y0 as int, x1 as int, y1 as int, sx as int, sy as int, dx as int, dy as int,
                err as int, fuel),
            canvas_pixels(*target) == paint_points(m0, dims, done, color),
        invariant
            walk_state(x0 as int, y0 as int, start.0 as int, start.1 as int, x1 as int, y1 as int, sx as int, sy as int,
                dx as int, dy as int, err as int, xs, ys),
            x1 == end.0,
            y1 == end.1,
            fuel >= (dx - xs) + (-dy - ys) + 1,
            all == line_points((start.0 as int, start.1 as int), (end.0 as int, end.1 as int)),
            canvas_dims(*target) == dims,
            canvas_wf(*old(target)) ==> canvas_wf(*target),
        ensures
            canvas_wf(*old(target)) ==> canvas_wf(*target),
            canvas_dims(*target) == dims,
            canvas_pixels(*target) == paint_points(m0, dims, all, color),
        decreases (dx - xs) + (-dy - ys),
    {
        assert(i32::MIN <= x0 <= i32::MAX && i32::MIN <= y0 <= i32::MAX) by (nonlinear_arith)
            requires
                x0 == start.0 + sx * xs, 0 <= xs <= dx, dx == abs(x1 - start.0),
                sx == (if start.0 < x1 { 1int } else { -1int }),
                y0 == start.1 + sy * ys, 0 <= ys <= -dy, -dy == abs(y1 - start.1),
                sy == (if start.1 < y1 { 1int } else { -1int }),
                i32::MIN <= start.0 <= i32::MAX, i32::MIN <= start.1 <= i32::MAX,
                i32::MIN <= x1 <= i32::MAX, i32::MIN <= y1 <= i32::MAX;
        blend_pixel(target, to_pixel_coord(x0), to_pixel_coord(y0), color);
        proof {
            let p = (x0 as int, y0 as int);
            assert(done.push(p).drop_last() =~= done);
            assert(canvas_pixels(*target) == paint_points(m0, dims, done.push(p), color));
            assert(x0 == x1 <==> xs == dx) by (nonlinear_arith)
                requires x0 == start.0 + sx * xs, sx == (if start.0 < x1 { 1int } else { -1int }), dx == abs(x1 - start.0);
            assert(y0 == y1 <==> ys == -dy) by (nonlinear_arith)
                requires y0 == start.1 + sy * ys, sy == (if start.1 < y1 { 1int } else { -1int }), -dy == abs(y1 - start.1);
            assert(fuel > 0);
            done = done.push(p);
        }
        if x0 == x1 && y0 == y1 {
            proof {
                assert(all =~= done);
            }
            break;
        }
        proof {
            lemma_walk_step(x0 as int, y0 as int, start.0 as int, start.1 as int, x1 as int, y1 as int, sx as int, sy as int,
                dx as int, dy as int, err as int, xs, ys);
        }
        assert(-0x2_0000_0000_0000_0000 <= err <= 0x2_0000_0000_0000_0000) by (nonlinear_arith)
            requires
                err == dx * (1 + ys) + dy * (1 + xs),
                0 <= xs <= dx, 0 <= ys <= -dy, dx <= 0x1_0000_0000, -dy <= 0x1_0000_0000;
        let e2 = 2 * err;
        if e2 >= dy as i128 {
            err = err + dy as i128;
            x0 = x0 + sx;
            proof {
                xs = xs + 1;
            }
        }
        if e2 <= dx as i128 {
            err = err + dx as i128;
            y0 = y0 + sy;
            proof {
                ys = ys + 1;
            }
        }
        proof {
            assert(all =~= done + line_walk(x0 as int, y0 as int, x1 as int, y1 as int, sx as int, sy as int, dx as int,
                dy as int, err as int, (fuel - 1) as nat));
            fuel = (fuel - 1) as nat;
        }
    }
}


/// The 8x8 bitmap that `font8x8`'s `BASIC_FONTS` holds for `c`: one byte
/// per row, top row first, bit `col` set where column `col` is lit.
pub uninterp spec fn basic_glyph(c: char) -> Seq<u8>;

/// `BASIC_FONTS.get` of `font8x8` (trait `UnicodeFonts`).  Its table holds
/// one glyph for each code point below 128, so the lookup succeeds exactly
/// there; the glyph's bytes are named by `basic_glyph`.
#[verifier::external_body]
fn basic_font_get(c: char) -> (g: Option<[u8; 8]>)
    ensures
        g is Some <==> (c as u32) < 128,
        g matches Some(b) ==> b@ == basic_glyph(c),
{
    BASIC_FONTS.get(c)
}

/// The glyph drawn for `ch`: its own where the font has one, else `?`'s.
pub open spec fn glyph_for(ch: char) -> Seq<u8> {
    if (ch as u32) < 128 {
        basic_glyph(ch)
    } else {
        basic_glyph('?')
    }
}

/// Cell `(row, col)` of glyph `g` is lit.
pub open spec fn glyph_lit(g: Seq<u8>, row: int, col: int) -> bool {
    g[row] & (1u8 << (col as u8)) != 0u8
}

/// The pixels of glyph `g` drawn at `(x, y)` with every cell `s` by `s`
/// pixels.
pub open spec fn glyph_area(g: Seq<u8>, x: int, y: int, s: int) -> spec_fn(int, int) -> bool {
    |u: int, v: int| s > 0 && x <= u < x + 8 * s && y <= v < y + 8 * s && glyph_lit(g, (v - y) / s, (u - x) / s)
}

pub open spec fn cell_before(row: int, col: int, sy: int, sx: int, r: int, c: int, oy: int, ox: int) -> bool {
    ||| r < row
    ||| (r == row && c < col)
    ||| (r == row && c == col && (oy < sy || (oy == sy && ox < sx)))
}

pub open spec fn glyph_area_upto(
    g: Seq<u8>, x: int, y: int, s: int, row: int, col: int, sy: int, sx: int,
) -> spec_fn(int, int) -> bool {
    |u: int, v: int|
        glyph_area(g, x, y, s)(u, v) && cell_before(row, col, sy, sx, (v - y) / s, (u - x) / s, (v - y) % s, (u - x) % s)
}

proof fn lemma_cell_coords(x: int, s: int, c: int, o: int)
    requires
        s > 0,
        0 <= o < s,
    ensures
        (x + c * s + o - x) / s == c,
        (x + c * s + o - x) % s == o,
{
    lemma_fundamental_div_mod_converse(c * s + o, s, c, o);
}

proof fn lemma_cell_bounds(x: int, s: int, u: int)
    requires
        s > 0,
        x <= u < x + 8 * s,
    ensures
        0 <= (u - x) / s < 8,
        0 <= (u - x) % s < s,
{
    assert(0 <= (u - x) / s < 8) by (nonlinear_arith)
        requires s > 0, 0 <= u - x < 8 * s;
}

/// Draws `ch` with its top-left corner at `(x, y)`, every cell of the
/// 8x8 glyph `scale` by `scale` pixels; characters the font lacks are
/// drawn as `?`.
pub fn draw_char(target: &mut Canvas, x: u32, y: u32, ch: char, scale: u32, color: Px)
    requires
        canvas_wf(*old(target)),
    ensures
        canvas_dims(*final(target)) == canvas_dims(*old(target)),
        canvas_pixels(*final(target)) == paint(
            canvas_pixels(*old(target)),
            canvas_dims(*old(target)),
            glyph_area(glyph_for(ch), x as int, y as int, scale as int),
            color,
        ),
{
    let ghost m0 = canvas_pixels(*target);
    let ghost dims = canvas_dims(*target);
    let glyph = match basic_font_get(ch) {
        Some(g) => g,
        None => match basic_font_get('?') {
            Some(g) => g,
            None => {
                return;
            },
        },
    };
    let ghost g = glyph_for(ch);
    assert(glyph@ == g);
    let ghost s = scale as int;
    let ghost full = glyph_area(g, x as int, y as int, s);
    if scale == 0 {
        proof {
            lemma_paint_ext(m0, dims, full, |u: int, v: int| false, color);
            assert(paint(m0, dims, |u: int, v: int| false, color) =~= m0);
        }
        return;
    }
    proof {
        lemma_paint_ext(m0, dims, glyph_area_upto(g, x as int, y as int, s, 0, 0, 0, 0), |u: int, v: int| false, color);
        assert(paint(m0, dims, |u: int, v: int| false, color) =~= m0);
    }
    let mut row: usize = 0;
    while row < 8
        invariant
            0 <= row <= 8,
            scale > 0,
            s == scale,
            glyph@ == g,
            dom_is_canvas(m0, dims),
            canvas_dims(*target) == dims,
            canvas_pixels(*target) == paint(m0, dims, glyph_area_upto(g, x as int, y as int, s, row as int, 0, 0, 0), color),
        decreases 8 - row,
    {
        let bits = glyph[row];
        let mut col: u8 = 0;
        while col < 8
            invariant
                0 <= row < 8,
                0 <= col <= 8,
                scale > 0,
                s == scale,
                glyph@ == g,
                bits == g[row as int],
                dom_is_canvas(m0, dims),
                canvas_dims(*target) == dims,
                canvas_pixels(*target) == paint(m0, dims, glyph_area_upto(g, x as int, y as int, s, row as int, col as int, 0, 0), color),
            decreases 8 - col,
        {
            if bits & (1u8 << col) != 0 {
                let mut sy: u32 = 0;
                while sy < scale
                    invariant
                        0 <= row < 8,
                        0 <= col < 8,
                        0 <= sy <= scale,
                        s == scale,
                        glyph_lit(g, row as int, col as int),
                        dom_is_canvas(m0, dims),
                        canvas_dims(*target) == dims,
                        canvas_pixels(*target) == paint(m0, dims, glyph_area_upto(g, x as int, y as int, s, row as int, col as int, sy as int, 0), color),
                    decreases scale - sy,
                {
                    let mut sx: u32 = 0;
                    while sx < scale
                        invariant
                            0 <= row < 8,
                            0 <= col < 8,
                            0 <= sy < scale,
                            0 <= sx <= scale,
                            s == scale,
                            glyph_lit(g, row as int, col as int),
                            dom_is_canvas(m0, dims),
                            canvas_dims(*target) == dims,
                            canvas_pixels(*target) == paint(m0, dims, glyph_area_upto(g, x as int, y as int, s, row as int, col as int, sy as int, sx as int), color),
                        decreases scale - sx,
                    {
                        assert((col as u64) * (scale as u64) <= 8 * 0xffff_ffff) by (nonlinear_arith)
                            requires col < 8, scale <= 0xffff_ffff;
                        assert((row as u64) * (scale as u64) <= 8 * 0xffff_ffff) by (nonlinear_arith)
                            requires row < 8, scale <= 0xffff_ffff;
                        let px: u64 = x as u64 + (col as u64) * (scale as u64) + sx as u64;
                        let py: u64 = y as u64 + (row as u64) * (scale as u64) + sy as u64;
                        proof {
                            lemma_cell_coords(x as int, s, col as int, sx as int);
                            lemma_cell_coords(y as int, s, row as int, sy as int);
                            assert(x + col * s + sx < x + 8 * s) by (nonlinear_arith)
                                requires col < 8, sx < s;
                            assert(y + row * s + sy < y + 8 * s) by (nonlinear_arith)
                                requires row < 8, sy < s;
                            let r1 = glyph_area_upto(g, x as int, y as int, s, row as int, col as int, sy as int, sx as int);
                            let r2 = glyph_area_upto(g, x as int, y as int, s, row as int, col as int, sy as int, sx + 1);
                            assert forall|a: int, b: int| in_bounds(dims, a, b) implies (r2(a, b) <==> (r1(a, b) || (a == px && b == py))) by {
                                if a == px && b == py {
                                } else if glyph_area(g, x as int, y as int, s)(a, b) {
                                    lemma_cell_bounds(x as int, s, a);
                                    lemma_cell_bounds(y as int, s, b);
                                    if (b - y) / s == row && (a - x) / s == col && (b - y) % s == sy && (a - x) % s == sx {
                                        assert(a - x == col * s + sx) by (nonlinear_arith)
                                            requires (a - x) / s == col, (a - x) % s == sx, s > 0;
                                        assert(b - y == row * s + sy) by (nonlinear_arith)
                                            requires (b - y) / s == row, (b - y) % s == sy, s > 0;
                                    }
                                }
                            }
                            if px <= 0xffff_ffff && py <= 0xffff_ffff {
                                lemma_paint_grow(m0, dims, r1, r2, color, px as int, py as int);
                            } else {
                                lemma_paint_ext(m0, dims, r1, r2, color);
                            }
                        }
                        if px <= 0xffff_ffff && py <= 0xffff_ffff {
                            blend_pixel(target, px as u32, py as u32, color);
                        }
                        sx = sx + 1;
                    }
                    proof {
                        let r1 = glyph_area_upto(g, x as int, y as int, s, row as int, col as int, sy as int, s);
                        let r2 = glyph_area_upto(g, x as int, y as int, s, row as int, col as int, sy + 1, 0);
                        assert forall|a: int, b: int| in_bounds(dims, a, b) implies (r1(a, b) <==> r2(a, b)) by {
                            if glyph_area(g, x as int, y as int, s)(a, b) {
                                lemma_cell_bounds(x as int, s, a);
                                lemma_cell_bounds(y as int, s, b);
                            }
                        }
                        lemma_paint_ext(m0, dims, r1, r2, color);
                    }
                    sy = sy + 1;
                }
                proof {
                    let r1 = glyph_area_upto(g, x as int, y as int, s, row as int, col as int, s, 0);
                    let r2 = glyph_area_upto(g, x as int, y as int, s, row as int, col + 1, 0, 0);
                    assert forall|a: int, b: int| in_bounds(dims, a, b) implies (r1(a, b) <==> r2(a, b)) by {
                        if glyph_area(g, x as int, y as int, s)(a, b) {
                            lemma_cell_bounds(x as int, s, a);
                            lemma_cell_bounds(y as int, s, b);
                        }
                    }
                    lemma_paint_ext(m0, dims, r1, r2, color);
                }
            } else {
                proof {
                    let r1 = glyph_area_upto(g, x as int, y as int, s, row as int, col as int, 0, 0);
                    let r2 = glyph_area_upto(g, x as int, y as int, s, row as int, col + 1, 0, 0);
                    assert(!glyph_lit(g, row as int, col as int));
                    assert forall|a: int, b: int| in_bounds(dims, a, b) implies (r1(a, b) <==> r2(a, b)) by {
                        if glyph_area(g, x as int, y as int, s)(a, b) {
                            lemma_cell_bounds(x as int, s, a);
                            lemma_cell_bounds(y as int, s, b);
                        }
                    }
                    lemma_paint_ext(m0, dims, r1, r2, color);
                }
            }
            col = col + 1;
        }
        proof {
            let r1 = glyph_area_upto(g, x as int, y as int, s, row as int, 8, 0, 0);
            let r2 = glyph_area_upto(g, x as int, y as int, s, row + 1, 0, 0, 0);
            assert forall|a: int, b: int| in_bounds(dims, a, b) implies (r1(a, b) <==> r2(a, b)) by {
                if glyph_area(g, x as int, y as int, s)(a, b) {
                    lemma_cell_bounds(x as int, s, a);
                    lemma_cell_bounds(y as int, s, b);
                }
            }
            lemma_paint_ext(m0, dims, r1, r2, color);
        }
        row = row + 1;
    }
    proof {
        let r1 = glyph_area_upto(g, x as int, y as int, s, 8, 0, 0, 0);
        assert forall|a: int, b: int| in_bounds(dims, a, b) implies (r1(a, b) <==> full(a, b)) by {
            if glyph_area(g, x as int, y as int, s)(a, b) {
                lemma_cell_bounds(x as int, s, a);
                lemma_cell_bounds(y as int, s, b);
            }
        }
        lemma_paint_ext(m0, dims, r1, full, color);
    }
}


pub open spec fn ipt(p: (i32, i32)) -> (int, int) {
    (p.0 as int, p.1 as int)
}

/// Draws the outline of the triangle `a b c`: the lines `a b`, `b c` and
/// `c a`, in that order.
pub fn stroke_triangle(target: &mut Canvas, a: (i32, i32), b: (i32, i32), c: (i32, i32), color: Px)
    ensures
        canvas_wf(*old(target)) ==> canvas_wf(*final(target)),
        canvas_dims(*final(target)) == canvas_dims(*old(target)),
        canvas_pixels(*final(target)) == paint_points(
            paint_points(
                paint_points(canvas_pixels(*old(target)), canvas_dims(*old(target)), line_points(ipt(a), ipt(b)), color),
                canvas_dims(*old(target)),
                line_points(ipt(b), ipt(c)),
                color,
            ),
            canvas_dims(*old(target)),
            line_points(ipt(c), ipt(a)),
            color,
        ),
{
    draw_line(target, a, b, color);
    draw_line(target, b, c, color);
    draw_line(target, c, a, color);
}

/// The corners of the downward-pointing triangle that marks a finished
/// message: a base `2 * max(size, 2)` wide, half of that above the centre
/// line, the tip that far below it.
pub open spec fn indicator_corners(center_x: int, center_y: int, size: int) -> ((int, int), (int, int), (int, int)) {
    let half = if size >= 2 { size } else { 2 };
    let top_y = center_y - half / 2;
    ((center_x - half, top_y), (center_x + half, top_y), (center_x, center_y + half))
}

/// Fills the downward-pointing triangle centred on `(center_x, center_y)`.
pub fn draw_inverted_triangle_indicator(target: &mut Canvas, center_x: i32, center_y: i32, size: i32, color: Px)
    requires
        canvas_wf(*old(target)),
        i32::MIN <= center_x - (if size >= 2 { size } else { 2 }),
        center_x + (if size >= 2 { size } else { 2 }) <= i32::MAX,
        center_y + (if size >= 2 { size } else { 2 }) <= i32::MAX,
        i32::MIN <= center_y - (if size >= 2 { size } else { 2 }) / 2,
    ensures
        canvas_dims(*final(target)) == canvas_dims(*old(target)),
        canvas_pixels(*final(target)) == paint(
            canvas_pixels(*old(target)),
            canvas_dims(*old(target)),
            on_pixels(triangle_area(
                indicator_corners(center_x as int, center_y as int, size as int).0,
                indicator_corners(center_x as int, center_y as int, size as int).1,
                indicator_corners(center_x as int, center_y as int, size as int).2,
            )),
            color,
        ),
{
    let half = if size >= 2 { size } else { 2 };
    let top_y = center_y - (half / 2);
    let tip_y = center_y + half;
    fill_triangle(target, (center_x - half, top_y), (center_x + half, top_y), (center_x, tip_y), color);
}

} // verus!
