use agent_r::frames::{premultiplied_bgra, scale_dimensions, scale_frame};
use agent_r::raster::Canvas;
use agent_r::sensors::{gpu_temperature_sources, is_amd_vendor_id, present_readings, vendor_mentions};
use agent_r::tray::{
    icon_mask, rgba_to_bgra, to_wide_null, tray_icon_asset_path, tray_icon_candidates, tray_message_action, TrayAction,
    IDM_TRAY_CLOSE, WM_COMMAND, WM_CONTEXTMENU, WM_RBUTTONUP, WM_TRAYICON,
};
use image::{Rgba, RgbaImage};

#[test]
fn small_images_keep_their_size() {
    assert_eq!(scale_dimensions(640, 480, 2000), (640, 480));
    assert_eq!(scale_dimensions(2000, 2000, 2000), (2000, 2000));
}

#[test]
fn large_images_shrink_to_the_limit() {
    assert_eq!(scale_dimensions(4000, 2000, 2000), (2000, 1000));
    assert_eq!(scale_dimensions(1000, 3000, 2000), (666, 2000));
    assert_eq!(scale_dimensions(10, 5, 0), (0, 0));
}

#[test]
fn scaling_a_frame_to_its_own_size_copies_it() {
    let frame = Canvas { image: RgbaImage::from_pixel(3, 2, Rgba([1, 2, 3, 4])) };
    let copy = scale_frame(&frame, 3, 2);
    assert_eq!(copy.image, frame.image);
}

#[test]
fn scaling_a_frame_resamples_it() {
    let frame = Canvas { image: RgbaImage::from_pixel(8, 4, Rgba([200, 100, 50, 255])) };
    let small = scale_frame(&frame, 4, 2);
    assert_eq!((small.image.width(), small.image.height()), (4, 2));
    assert_eq!(small.image.get_pixel(1, 1).0, [200, 100, 50, 255]);
}

#[test]
fn layered_window_bytes_are_premultiplied_bgra() {
    let mut image = RgbaImage::from_pixel(2, 1, Rgba([255, 0, 0, 128]));
    image.put_pixel(1, 0, Rgba([10, 20, 30, 255]));
    let bytes = premultiplied_bgra(&Canvas { image });
    assert_eq!(bytes, vec![0, 0, 128, 128, 30, 20, 10, 255]);
}

#[test]
fn wide_strings_end_in_zero() {
    assert_eq!(to_wide_null("agent-r"), vec![97, 103, 101, 110, 116, 45, 114, 0]);
    assert_eq!(to_wide_null("A\u{1F600}"), vec![0x41, 0xD83D, 0xDE00, 0]);
    assert_eq!(to_wide_null(""), vec![0]);
    let text = "Close é\u{10FFFF}";
    let mut expected: Vec<u16> = text.encode_utf16().collect();
    expected.push(0);
    assert_eq!(to_wide_null(text), expected);
}

#[test]
fn first_existing_icon_is_chosen() {
    assert_eq!(tray_icon_candidates(), vec!["assets/tray.ico", "assets/icon.ico", "assets/wooper.png", "assets/wooper.gif"]);
    assert_eq!(tray_icon_asset_path(&vec![false, true, true, false]), Some("assets/icon.ico".to_string()));
    assert_eq!(tray_icon_asset_path(&vec![false, false, false, true]), Some("assets/wooper.gif".to_string()));
    assert_eq!(tray_icon_asset_path(&vec![false, false, false, false]), None);
}

#[test]
fn tray_messages() {
    assert_eq!(WM_TRAYICON, 0x8001);
    assert_eq!(tray_message_action(WM_TRAYICON, 0, WM_RBUTTONUP as isize), TrayAction::ShowMenu);
    assert_eq!(tray_message_action(WM_TRAYICON, 0, WM_CONTEXTMENU as isize), TrayAction::ShowMenu);
    assert_eq!(tray_message_action(WM_TRAYICON, 0, 0x0202), TrayAction::Forward);
    assert_eq!(tray_message_action(WM_COMMAND, IDM_TRAY_CLOSE, 0), TrayAction::Close);
    assert_eq!(tray_message_action(WM_COMMAND, 0x0001_0000 | IDM_TRAY_CLOSE, 0), TrayAction::Close);
    assert_eq!(tray_message_action(WM_COMMAND, 1002, 0), TrayAction::Forward);
    assert_eq!(tray_message_action(0x0010, IDM_TRAY_CLOSE, 0), TrayAction::Forward);
}

#[test]
fn icon_bytes_swap_red_and_blue() {
    let mut bytes = vec![1, 2, 3, 4, 5, 6, 7, 8, 9, 10];
    rgba_to_bgra(&mut bytes);
    assert_eq!(bytes, vec![3, 2, 1, 4, 7, 6, 5, 8, 9, 10]);
}

#[test]
fn icon_mask_has_one_bit_per_pixel() {
    assert_eq!(icon_mask(9, 2), vec![0, 0, 0, 0]);
    assert_eq!(icon_mask(16, 3).len(), 6);
    assert_eq!(icon_mask(0, 5).len(), 0);
}

#[test]
fn vendor_strings_ignore_case() {
    assert!(vendor_mentions("Advanced Micro Devices (AMD)", "amd"));
    assert!(vendor_mentions("NVIDIA", "nvidia"));
    assert!(!vendor_mentions("Intel", "amd"));
    assert!(vendor_mentions("anything", ""));
    assert!(!vendor_mentions("am", "amd"));
}

#[test]
fn gpu_sources_follow_the_vendor() {
    assert_eq!(gpu_temperature_sources("AMD"), (true, false));
    assert_eq!(gpu_temperature_sources("ATI Technologies"), (true, false));
    assert_eq!(gpu_temperature_sources("Intel"), (false, false));
    // "corporation" contains "ati", so NVIDIA's usual vendor string tries both readers.
    assert_eq!(gpu_temperature_sources("NVIDIA Corporation"), (true, true));
    assert!(is_amd_vendor_id("PCI\\VEN_1002"));
    assert!(is_amd_vendor_id("amd"));
    assert!(!is_amd_vendor_id("10de"));
}

#[test]
fn missing_readings_are_skipped() {
    assert_eq!(present_readings(&vec![Some(3000), None, Some(-5), None]), vec![3000, -5]);
    assert!(present_readings(&vec![None, None]).is_empty());
    assert!(present_readings(&vec![]).is_empty());
}

#[test]
fn swapping_twice_restores_the_bytes() {
    let before: Vec<u8> = (0u8..11).collect();
    let mut bytes = before.clone();
    rgba_to_bgra(&mut bytes);
    assert_eq!(bytes, vec![2, 1, 0, 3, 6, 5, 4, 7, 8, 9, 10]);
    rgba_to_bgra(&mut bytes);
    assert_eq!(bytes, before);
}

#[test]
fn opaque_pixels_keep_their_colour_and_transparent_ones_vanish() {
    let mut image = RgbaImage::from_pixel(2, 1, Rgba([7, 8, 9, 255]));
    image.put_pixel(1, 0, Rgba([200, 100, 50, 0]));
    let bytes = premultiplied_bgra(&Canvas { image });
    assert_eq!(bytes, vec![9, 8, 7, 255, 0, 0, 0, 0]);
}

#[test]
fn scaling_an_empty_frame_gives_the_asked_size() {
    let frame = Canvas { image: RgbaImage::new(0, 3) };
    let scaled = scale_frame(&frame, 2, 2);
    assert_eq!((scaled.image.width(), scaled.image.height()), (2, 2));
}
