use agent_r::raster::{blend_pixel, Canvas};
use agent_r::shapes::{
    draw_char, draw_inverted_triangle_indicator, draw_line, fill_rounded_rect, fill_triangle, point_in_rounded_rect,
    point_in_triangle, stroke_rounded_rect, stroke_triangle,
};
use image::{Rgba, RgbaImage};

fn canvas(w: u32, h: u32, p: [u8; 4]) -> Canvas {
    Canvas { image: RgbaImage::from_pixel(w, h, Rgba(p)) }
}

fn px(c: &Canvas, x: u32, y: u32) -> [u8; 4] {
    c.image.get_pixel(x, y).0
}

fn count(c: &Canvas, p: [u8; 4]) -> usize {
    c.image.pixels().filter(|q| q.0 == p).count()
}

#[test]
fn opaque_source_replaces_the_pixel() {
    let mut c = canvas(2, 2, [10, 20, 30, 200]);
    blend_pixel(&mut c, 1, 0, (1, 2, 3, 255));
    assert_eq!(px(&c, 1, 0), [1, 2, 3, 255]);
    assert_eq!(px(&c, 0, 0), [10, 20, 30, 200]);
}

#[test]
fn transparent_source_keeps_the_pixel() {
    let mut c = canvas(1, 1, [10, 20, 30, 200]);
    blend_pixel(&mut c, 0, 0, (99, 99, 99, 0));
    assert_eq!(px(&c, 0, 0), [10, 20, 30, 200]);
}

#[test]
fn transparent_over_transparent_is_transparent_black() {
    let mut c = canvas(1, 1, [10, 20, 30, 0]);
    blend_pixel(&mut c, 0, 0, (99, 99, 99, 0));
    assert_eq!(px(&c, 0, 0), [0, 0, 0, 0]);
}

#[test]
fn half_black_over_white() {
    let mut c = canvas(1, 1, [255, 255, 255, 255]);
    blend_pixel(&mut c, 0, 0, (0, 0, 0, 128));
    assert_eq!(px(&c, 0, 0), [127, 127, 127, 255]);
}

#[test]
fn bubble_fill_over_transparent() {
    let mut c = canvas(1, 1, [0, 0, 0, 0]);
    blend_pixel(&mut c, 0, 0, (255, 255, 255, 230));
    assert_eq!(px(&c, 0, 0), [255, 255, 255, 230]);
}

#[test]
fn blending_outside_the_canvas_changes_nothing() {
    let mut c = canvas(2, 2, [1, 1, 1, 1]);
    blend_pixel(&mut c, 2, 0, (0, 0, 0, 255));
    blend_pixel(&mut c, 0, 5, (0, 0, 0, 255));
    assert_eq!(count(&c, [1, 1, 1, 1]), 4);
}

#[test]
fn rounded_rect_membership() {
    assert!(point_in_rounded_rect(10, 10, 0, 0, 20, 20, 5));
    assert!(!point_in_rounded_rect(0, 0, 0, 0, 20, 20, 5));
    assert!(point_in_rounded_rect(5, 0, 0, 0, 20, 20, 5));
    assert!(point_in_rounded_rect(1, 2, 0, 0, 20, 20, 5));
    assert!(!point_in_rounded_rect(20, 10, 0, 0, 20, 20, 5));
}

#[test]
fn zero_radius_rounded_rect_is_the_rectangle() {
    for py in -2..8 {
        for px in -2..8 {
            let in_rect = (0..5).contains(&px) && (0..4).contains(&py);
            assert_eq!(point_in_rounded_rect(px, py, 0, 0, 5, 4, 0), in_rect);
        }
    }
}

#[test]
fn triangle_membership() {
    let (a, b, c) = ((0, 0), (10, 0), (0, 10));
    assert!(point_in_triangle(0, 0, a, b, c));
    assert!(point_in_triangle(3, 3, a, b, c));
    assert!(point_in_triangle(5, 5, a, b, c));
    assert!(!point_in_triangle(6, 6, a, b, c));
    assert!(!point_in_triangle(-1, 0, a, b, c));
}

#[test]
fn line_paints_both_ends_and_one_pixel_per_step() {
    let mut c = canvas(6, 4, [0, 0, 0, 0]);
    draw_line(&mut c, (0, 0), (5, 2), (9, 9, 9, 255));
    assert_eq!(px(&c, 0, 0), [9, 9, 9, 255]);
    assert_eq!(px(&c, 5, 2), [9, 9, 9, 255]);
    assert_eq!(count(&c, [9, 9, 9, 255]), 6);
}

#[test]
fn line_of_one_point() {
    let mut c = canvas(3, 3, [0, 0, 0, 0]);
    draw_line(&mut c, (1, 1), (1, 1), (9, 9, 9, 255));
    assert_eq!(count(&c, [9, 9, 9, 255]), 1);
    assert_eq!(px(&c, 1, 1), [9, 9, 9, 255]);
}

#[test]
fn line_off_the_canvas_is_clipped() {
    let mut c = canvas(3, 3, [0, 0, 0, 0]);
    draw_line(&mut c, (-2, 1), (4, 1), (9, 9, 9, 255));
    assert_eq!(count(&c, [9, 9, 9, 255]), 3);
}

#[test]
fn filled_rectangle_without_radius() {
    let mut c = canvas(8, 8, [0, 0, 0, 0]);
    fill_rounded_rect(&mut c, 1, 2, 3, 4, 0, (5, 5, 5, 255));
    assert_eq!(count(&c, [5, 5, 5, 255]), 12);
    assert_eq!(px(&c, 1, 2), [5, 5, 5, 255]);
    assert_eq!(px(&c, 3, 5), [5, 5, 5, 255]);
    assert_eq!(px(&c, 4, 5), [0, 0, 0, 0]);
}

#[test]
fn stroked_rectangle_is_its_border() {
    let mut c = canvas(8, 8, [0, 0, 0, 0]);
    stroke_rounded_rect(&mut c, 1, 1, 5, 4, 0, (5, 5, 5, 255));
    assert_eq!(count(&c, [5, 5, 5, 255]), 14);
    assert_eq!(px(&c, 3, 2), [0, 0, 0, 0]);
}

#[test]
fn filled_triangle() {
    let mut c = canvas(6, 6, [0, 0, 0, 0]);
    fill_triangle(&mut c, (0, 0), (4, 0), (0, 4), (5, 5, 5, 255));
    assert_eq!(count(&c, [5, 5, 5, 255]), 15);
    assert_eq!(px(&c, 4, 4), [0, 0, 0, 0]);
}

#[test]
fn stroked_triangle_paints_its_corners() {
    let mut c = canvas(6, 6, [0, 0, 0, 0]);
    stroke_triangle(&mut c, (0, 0), (4, 0), (0, 4), (5, 5, 5, 255));
    assert_eq!(px(&c, 0, 0), [5, 5, 5, 255]);
    assert_eq!(px(&c, 4, 0), [5, 5, 5, 255]);
    assert_eq!(px(&c, 0, 4), [5, 5, 5, 255]);
    assert_eq!(px(&c, 1, 1), [0, 0, 0, 0]);
}

#[test]
fn indicator_points_down() {
    let mut c = canvas(20, 20, [0, 0, 0, 0]);
    draw_inverted_triangle_indicator(&mut c, 10, 10, 4, (5, 5, 5, 255));
    assert_eq!(px(&c, 10, 14), [5, 5, 5, 255]);
    assert_eq!(px(&c, 6, 8), [5, 5, 5, 255]);
    assert_eq!(px(&c, 10, 15), [0, 0, 0, 0]);
    assert_eq!(px(&c, 10, 7), [0, 0, 0, 0]);
}

#[test]
fn glyphs_scale_and_fall_back_to_question_mark() {
    let mut a = canvas(16, 16, [0, 0, 0, 0]);
    draw_char(&mut a, 0, 0, 'A', 1, (1, 1, 1, 255));
    let lit_a = count(&a, [1, 1, 1, 255]);
    assert!(lit_a > 0);
    let mut a2 = canvas(16, 16, [0, 0, 0, 0]);
    draw_char(&mut a2, 0, 0, 'A', 2, (1, 1, 1, 255));
    assert_eq!(count(&a2, [1, 1, 1, 255]), lit_a * 4);

    let mut q = canvas(8, 8, [0, 0, 0, 0]);
    draw_char(&mut q, 0, 0, '?', 1, (1, 1, 1, 255));
    let mut e = canvas(8, 8, [0, 0, 0, 0]);
    draw_char(&mut e, 0, 0, 'é', 1, (1, 1, 1, 255));
    assert_eq!(q.image, e.image);

    let mut space = canvas(8, 8, [0, 0, 0, 0]);
    draw_char(&mut space, 0, 0, ' ', 1, (1, 1, 1, 255));
    assert_eq!(count(&space, [1, 1, 1, 255]), 0);
}

#[test]
fn line_stays_in_the_box_of_its_ends() {
    let mut c = canvas(12, 12, [0, 0, 0, 0]);
    draw_line(&mut c, (2, 7), (9, 3), (9, 9, 9, 255));
    for y in 0..12 {
        for x in 0..12 {
            if px(&c, x, y) != [0, 0, 0, 0] {
                assert!((2..=9).contains(&x) && (3..=7).contains(&y));
            }
        }
    }
    assert_eq!(px(&c, 2, 7), [9, 9, 9, 255]);
    assert_eq!(px(&c, 9, 3), [9, 9, 9, 255]);
}

#[test]
fn lines_are_chains_of_neighbours() {
    for &(start, end) in &[((0, 0), (7, 3)), ((5, 1), (1, 6)), ((2, 2), (2, 2)), ((0, 4), (9, 4))] {
        let mut c = canvas(12, 12, [0, 0, 0, 0]);
        draw_line(&mut c, start, end, (9, 9, 9, 255));
        let lit = (0..12).flat_map(|y| (0..12).map(move |x| (x, y))).filter(|&(x, y)| px(&c, x, y) != [0, 0, 0, 0]).count();
        let dx = (end.0 - start.0).abs();
        let dy = (end.1 - start.1).abs();
        assert_eq!(lit as i32, dx.max(dy) + 1);
    }
}

#[test]
fn rounded_rects_are_mirror_symmetric() {
    for py in 0..12 {
        for px_ in 0..14 {
            let a = point_in_rounded_rect(px_, py, 1, 2, 11, 9, 3);
            assert_eq!(a, point_in_rounded_rect(2 + 11 - 1 - px_, py, 1, 2, 11, 9, 3));
            assert_eq!(a, point_in_rounded_rect(px_, 4 + 9 - 1 - py, 1, 2, 11, 9, 3));
            if a {
                assert!((1..=11).contains(&px_) && (2..=10).contains(&py));
            }
        }
    }
}
