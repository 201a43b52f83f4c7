use accessibility_daemon::screenshot::{qimage_to_rgba, screenshot_byte_count, ScreenshotError};

#[test]
fn reported_geometry_is_checked_before_reading() {
    assert_eq!(screenshot_byte_count(0, 5, 20), Err(ScreenshotError::Empty));
    assert_eq!(screenshot_byte_count(5, 0, 20), Err(ScreenshotError::Empty));
    assert_eq!(
        screenshot_byte_count(2, 3, 7),
        Err(ScreenshotError::StrideTooSmall { stride: 7, width: 2, need: 8 })
    );
    assert_eq!(screenshot_byte_count(2, 3, 8), Ok(24));
    assert_eq!(screenshot_byte_count(2, 3, 10), Ok(30));
}

#[test]
fn unknown_pixel_formats_are_refused() {
    assert_eq!(qimage_to_rgba(1, 1, 4, 99, &[0, 0, 0, 0]), Err(ScreenshotError::UnsupportedFormat(99)));
    assert_eq!(qimage_to_rgba(1, 1, 4, 3, &[0, 0, 0, 0]), Err(ScreenshotError::UnsupportedFormat(3)));
}

#[test]
fn premultiplied_blue_first_pixels_add_the_missing_alpha() {
    let raw = [10, 20, 30, 255, 0, 0, 128, 128];
    assert_eq!(qimage_to_rgba(2, 1, 8, 6, &raw), Ok(vec![30, 20, 10, 255, 255, 127, 127, 255]));
}

#[test]
fn straight_alpha_blends_onto_white() {
    assert_eq!(qimage_to_rgba(1, 1, 4, 17, &[100, 0, 255, 51]), Ok(vec![224, 204, 255, 255]));
    assert_eq!(qimage_to_rgba(1, 1, 4, 5, &[0, 0, 0, 0]), Ok(vec![255, 255, 255, 255]));
}

#[test]
fn opaque_formats_skip_row_padding_and_ignore_alpha() {
    let raw = [1, 2, 3, 0, 9, 9, 9, 9, 4, 5, 6, 7];
    assert_eq!(qimage_to_rgba(1, 2, 8, 4, &raw), Ok(vec![3, 2, 1, 255, 6, 5, 4, 255]));
    assert_eq!(qimage_to_rgba(1, 1, 4, 16, &[7, 8, 9, 0]), Ok(vec![7, 8, 9, 255]));
    assert_eq!(qimage_to_rgba(3, 0, 12, 4, &[]), Ok(vec![]));
}
