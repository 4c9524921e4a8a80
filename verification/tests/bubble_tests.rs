use agent_r::layout::{SUBPIXELS as S, compute_layout, font_scale_for_image, indicator_anchor, BubbleLayout};
use agent_r::raster::Canvas;
use agent_r::speech::SpeechBubble;
use image::{Rgba, RgbaImage};
use std::time::Duration;

fn bubble(first: &str) -> SpeechBubble {
    SpeechBubble::new(first.to_string())
}

#[test]
fn font_scale_steps() {
    assert_eq!(font_scale_for_image(199), 1);
    assert_eq!(font_scale_for_image(200), 2);
    assert_eq!(font_scale_for_image(419), 2);
    assert_eq!(font_scale_for_image(420), 3);
}

#[test]
fn layout_of_a_short_message() {
    let l = compute_layout("hi", 200, 200);
    assert_eq!(l.canvas_width, 200);
    assert_eq!(l.canvas_height, 297);
    assert_eq!(l.image_x, 0);
    assert_eq!(l.image_y, 97);
    assert_eq!(l.bubble_x, 8);
    assert_eq!(l.bubble_y, 8);
    assert_eq!(l.bubble_width, 184);
    assert_eq!(l.bubble_height, 72);
    assert_eq!(l.tail_width, 20);
}

#[test]
fn layout_of_a_wide_image() {
    let l = compute_layout("hello", 100, 100);
    // margin 8, bubble width 140 (at least), canvas as wide as the bubble
    assert_eq!(l.canvas_width, 140);
    assert_eq!(l.bubble_x, 0);
    assert_eq!(l.image_x, 20);
    assert_eq!(l.bubble_width, 140);
}

#[test]
fn long_text_makes_the_bubble_taller_up_to_a_limit() {
    let short = compute_layout("hi", 200, 200);
    let long = compute_layout(&"word ".repeat(60), 200, 200);
    assert!(long.bubble_height > short.bubble_height);
    assert_eq!(long.bubble_height, 144);
}

#[test]
fn new_bubble_shows_its_first_message() {
    let b = bubble("Hello");
    assert!(b.is_visible());
    assert!(!b.is_finished());
    assert_eq!(b.current_text(), "Hello");
    let empty = bubble("   ");
    assert!(!empty.is_visible());
    assert_eq!(empty.current_text(), "");
}

#[test]
fn messages_are_shown_in_order_and_blank_ones_dropped() {
    let mut b = bubble("");
    assert!(!b.is_visible());
    b.push_message("first".to_string());
    b.push_message(" \t ".to_string());
    b.push_message("second".to_string());
    assert_eq!(b.current_text(), "first");
    assert!(!b.advance_message());
    b.update(Duration::from_secs(1));
    assert!(b.awaiting_advance());
    assert!(b.advance_message());
    assert_eq!(b.current_text(), "second");
    b.update(Duration::from_secs(1));
    assert!(b.advance_message());
    assert!(!b.is_visible());
    assert!(!b.advance_message());
}

#[test]
fn reveal_rate_is_24_or_96_per_second() {
    let mut b = bubble("abcdef");
    assert!(b.update(Duration::from_millis(249)));
    assert!(!b.is_finished());
    assert!(b.update(Duration::from_millis(1)));
    assert!(b.is_finished());
    assert!(!b.update(Duration::from_millis(1000)));

    let mut fast = bubble(&"x".repeat(24));
    fast.set_speed_up(true);
    fast.update(Duration::from_millis(249));
    assert!(!fast.is_finished());
    fast.update(Duration::from_millis(1));
    assert!(fast.is_finished());

    let mut slow = bubble("ab");
    assert!(!slow.update(Duration::from_millis(41)));
    assert!(slow.update(Duration::from_millis(1)));
    assert!(!slow.is_finished());
}

#[test]
fn boost_reveals_one_more_character() {
    let mut b = bubble("abc");
    b.boost_once();
    b.boost_once();
    assert!(!b.is_finished());
    b.boost_once();
    assert!(b.is_finished());
    b.boost_once();
    assert!(b.is_finished());
    assert!(b.awaiting_advance());

    let mut hidden = bubble("");
    hidden.boost_once();
    assert!(!hidden.is_visible());
}

#[test]
fn clearing_empties_the_bubble() {
    let mut b = bubble("one");
    b.push_message("two".to_string());
    b.clear_messages();
    assert!(!b.is_visible());
    b.push_message("three".to_string());
    assert_eq!(b.current_text(), "three");
}

#[test]
fn hidden_bubble_keeps_the_image_size() {
    let b = bubble("");
    assert_eq!(b.canvas_size(300, 120), (300, 120));
    assert_eq!(b.image_offset(300, 120), (0, 0));
    let img = Canvas { image: RgbaImage::from_pixel(4, 4, Rgba([1, 2, 3, 255])) };
    assert!(b.compose(&img, 0).is_none());
}

#[test]
fn shown_bubble_grows_the_canvas() {
    let b = bubble("hi");
    assert_eq!(b.canvas_size(200, 200), (200, 297));
    assert_eq!(b.image_offset(200, 200), (0, 97));
}

#[test]
fn composed_canvas_holds_image_and_bubble() {
    let mut b = bubble("hi");
    b.update(Duration::from_secs(1));
    let img = Canvas { image: RgbaImage::from_pixel(200, 200, Rgba([1, 2, 3, 255])) };
    let c = b.compose(&img, 0).unwrap();
    assert_eq!((c.image.width(), c.image.height()), (200, 297));
    assert_eq!(c.image.get_pixel(0, 296).0, [1, 2, 3, 255]);
    assert_eq!(c.image.get_pixel(199, 97).0, [1, 2, 3, 255]);
    assert_eq!(c.image.get_pixel(0, 0).0, [0, 0, 0, 0]);
    assert_eq!(c.image.get_pixel(100, 8).0, [24, 24, 24, 255]);
    assert_eq!(c.image.get_pixel(100, 40).0, [255, 255, 255, 230]);
    let text_pixels = c.image.pixels().filter(|p| p.0 == [20, 20, 20, 255]).count();
    assert!(text_pixels > 0);
}

#[test]
fn anchor_follows_the_last_line() {
    let l = BubbleLayout {
        canvas_width: 200,
        canvas_height: 300,
        image_x: 0,
        image_y: 100,
        bubble_x: 8,
        bubble_y: 8,
        bubble_width: 184,
        bubble_height: 72,
        tail_width: 20,
    };
    let lines = vec!["hello".to_string(), "ab".to_string()];
    assert_eq!(indicator_anchor(l, &lines, 18, 18, 16, 18), (18 + 32 + 8, 18 + 18 + 9));
    let long = vec!["x".repeat(20)];
    assert_eq!(indicator_anchor(l, &long, 18, 18, 16, 18), (192 - 16, 18 + 9));
    assert_eq!(indicator_anchor(l, &[], 18, 18, 16, 18), (192 - 32, 80 - 36));
}

#[test]
fn hit_test_covers_bubble_and_tail() {
    let b = bubble("hi");
    // bubble 8..=192 by 8..=80, tail from (90, 80)-(110, 80) to (100, 96)
    assert!(b.hit_test(8 * S, 8 * S, 200, 200));
    assert!(b.hit_test(192 * S, 80 * S, 200, 200));
    assert!(!b.hit_test(193 * S, 50 * S, 200, 200));
    assert!(!b.hit_test(7 * S, 50 * S, 200, 200));
    assert!(b.hit_test(100 * S, 90 * S, 200, 200));
    assert!(b.hit_test(100 * S, 96 * S, 200, 200));
    assert!(!b.hit_test(100 * S, 97 * S, 200, 200));
    assert!(!b.hit_test(91 * S, 95 * S, 200, 200));
    assert!(!bubble("").hit_test(100 * S, 40 * S, 200, 200));
}

#[test]
fn layout_and_compose_checks() {
    let b = bubble("hi");
    assert!(b.layout_fits(200, 200));
    assert!(!b.layout_fits(200, u32::MAX - 10));
    assert!(b.can_compose(200, 200, 3));
    assert!(b.can_compose(200, 200, -3));
    assert!(!b.can_compose(200, u32::MAX - 10, 0));
    assert!(bubble("").can_compose(200, u32::MAX, 0));
}

#[test]
fn transparent_image_pixels_leave_the_canvas_clear() {
    let b = bubble("hi");
    let mut image = RgbaImage::from_pixel(200, 200, Rgba([1, 2, 3, 255]));
    image.put_pixel(5, 5, Rgba([9, 9, 9, 0]));
    let c = b.compose(&Canvas { image }, 0).unwrap();
    assert_eq!(c.image.get_pixel(5, 97 + 5).0, [0, 0, 0, 0]);
    assert_eq!(c.image.get_pixel(6, 97 + 5).0, [1, 2, 3, 255]);
}

#[test]
fn reveal_does_not_depend_on_how_time_is_split() {
    let text = "a fairly long message for the bubble";
    let mut once = bubble(text);
    let mut split = bubble(text);
    once.update(Duration::from_millis(500));
    split.update(Duration::from_millis(123));
    split.update(Duration::from_millis(377));
    assert_eq!(once.indicator_phase(), split.indicator_phase());
    // 24 characters per second for half a second
    let c = Canvas { image: RgbaImage::from_pixel(200, 200, Rgba([1, 2, 3, 255])) };
    assert_eq!(once.compose(&c, 0).unwrap().image, split.compose(&c, 0).unwrap().image);
    assert!(!once.is_finished());
}

#[test]
fn compose_never_draws_over_the_image() {
    let mut b = bubble("hello there, this is a message that wraps over several lines");
    b.update(Duration::from_secs(10));
    assert!(b.awaiting_advance());
    let img = RgbaImage::from_fn(200, 200, |x, y| Rgba([x as u8, y as u8, 7, 255]));
    for bob in [-3, 0, 3] {
        let c = b.compose(&Canvas { image: img.clone() }, bob).unwrap();
        let (ix, iy) = b.image_offset(200, 200);
        for y in iy..c.image.height() {
            for x in 0..c.image.width() {
                let expected = if x >= ix && x < ix + 200 { img.get_pixel(x - ix, y - iy).0 } else { [0, 0, 0, 0] };
                assert_eq!(c.image.get_pixel(x, y).0, expected);
            }
        }
    }
}

#[test]
fn every_pixel_of_the_drawn_body_is_a_hit() {
    let mut b = bubble("hi");
    b.update(Duration::from_secs(1));
    let img = Canvas { image: RgbaImage::from_pixel(200, 200, Rgba([0, 0, 0, 0])) };
    let c = b.compose(&img, 0).unwrap();
    let l = b.layout(200, 200);
    for y in 0..l.bubble_y + l.bubble_height {
        for x in 0..c.image.width() {
            if c.image.get_pixel(x, y).0[3] != 0 {
                assert!(b.hit_test(x as i64 * S, y as i64 * S, 200, 200));
            }
        }
    }
}

#[test]
fn a_message_is_revealed_within_its_length_over_24_seconds() {
    let mut early = bubble("hello");
    early.update(Duration::from_nanos(208_333_333));
    assert!(!early.is_finished());
    let mut done = bubble("hello");
    done.update(Duration::from_nanos(208_333_334));
    assert!(done.is_finished());
    assert!(done.awaiting_advance());
}

#[test]
fn only_the_bubble_rows_answer_a_click() {
    let b = bubble("hi");
    let l = b.layout(200, 200);
    for y in 0..l.canvas_height as i32 {
        for x in 0..l.canvas_width as i32 {
            if y < l.bubble_y as i32 || y >= l.image_y as i32 {
                assert!(!b.hit_test(x as i64 * S, y as i64 * S, 200, 200));
            }
        }
    }
}

#[test]
fn bubble_pixels_are_nearly_opaque() {
    let mut b = bubble("hello there");
    b.update(Duration::from_secs(5));
    let img = Canvas { image: RgbaImage::from_pixel(200, 200, Rgba([0, 0, 0, 0])) };
    let c = b.compose(&img, 0).unwrap();
    let l = b.layout(200, 200);
    for y in 0..c.image.height() {
        for x in 0..c.image.width() {
            let p = c.image.get_pixel(x, y).0;
            if y < l.bubble_y {
                assert_eq!(p, [0, 0, 0, 0]);
            } else if p != [0, 0, 0, 0] {
                assert!(p[3] >= 230);
            }
        }
    }
    assert!(c.image.pixels().any(|p| p.0 == [20, 20, 20, 255]));
}

#[test]
fn fractional_cursor_positions_follow_the_closed_edges() {
    let b = bubble("hi");
    // bubble 8..=192 by 8..=80: a hair outside either edge misses
    assert!(!b.hit_test(8 * S - 1, 50 * S, 200, 200));
    assert!(b.hit_test(8 * S, 50 * S, 200, 200));
    assert!(b.hit_test(192 * S, 50 * S, 200, 200));
    assert!(!b.hit_test(192 * S + 1, 50 * S, 200, 200));
    assert!(!b.hit_test(50 * S, 8 * S - 1, 200, 200));
    assert!(b.hit_test(50 * S, 80 * S, 200, 200));
    // the tail between its base corners at (90, 80) and (110, 80)
    assert!(b.hit_test(100 * S + S / 2, 85 * S + S / 4, 200, 200));
}
