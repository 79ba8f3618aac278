use img2c::bits::reverse_byte;
use img2c::processor::{binarize_placed, BinaryFrame, ProcessParams, ResizeFilter, ScaleMode, ScanFormat};

fn frame_with(width: u32, height: u32, lit: &[(u32, u32)]) -> BinaryFrame {
    let mut f = BinaryFrame::new(width, height);
    for &(x, y) in lit {
        f.set_pixel(x, y, true);
    }
    f
}

#[test]
fn new_frame_is_dark() {
    let f = BinaryFrame::new(5, 3);
    assert_eq!(f.width, 5);
    assert_eq!(f.height, 3);
    assert_eq!(f.pixels.len(), 15);
    assert!(f.pixels.iter().all(|p| !p));
}

#[test]
fn set_then_get_pixel() {
    let mut f = BinaryFrame::new(4, 4);
    f.set_pixel(2, 1, true);
    assert!(f.get_pixel(2, 1));
    assert!(!f.get_pixel(1, 2));
    assert_eq!(f.pixels[1 * 4 + 2], true);
    f.set_pixel(2, 1, false);
    assert!(!f.get_pixel(2, 1));
}

#[test]
fn out_of_range_pixels_are_ignored_and_dark() {
    let mut f = BinaryFrame::new(3, 3);
    f.set_pixel(3, 0, true);
    f.set_pixel(0, 7, true);
    assert!(f.pixels.iter().all(|p| !p));
    assert!(!f.get_pixel(3, 0));
    assert!(!f.get_pixel(100, 100));
}

#[test]
fn frame_size_of_a_128x64_screen_is_1024_bytes() {
    let f = BinaryFrame::new(128, 64);
    for format in ScanFormat::all() {
        assert_eq!(f.frame_size(*format), 1024);
        assert_eq!(f.to_bytes(*format, false, false).len(), 1024);
    }
}

#[test]
fn frame_size_rounds_partial_bytes_up() {
    let f = BinaryFrame::new(10, 3);
    assert_eq!(f.frame_size(ScanFormat::VerticalLsb), 10);
    assert_eq!(f.frame_size(ScanFormat::VerticalMsb), 10);
    assert_eq!(f.frame_size(ScanFormat::HorizontalLsb), 6);
    assert_eq!(f.frame_size(ScanFormat::HorizontalMsb), 6);
}

#[test]
fn top_left_pixel_in_each_format() {
    let f = frame_with(8, 8, &[(0, 0)]);
    let mut want = vec![0u8; 8];
    want[0] = 0x01;
    assert_eq!(f.to_bytes(ScanFormat::VerticalLsb, false, false), want);
    assert_eq!(f.to_bytes(ScanFormat::HorizontalLsb, false, false), want);
    want[0] = 0x80;
    assert_eq!(f.to_bytes(ScanFormat::VerticalMsb, false, false), want);
    assert_eq!(f.to_bytes(ScanFormat::HorizontalMsb, false, false), want);
}

#[test]
fn vertical_formats_are_page_major() {
    // pixel (1, 9): page 1, column 1 → byte 1 * 2 + 1 = 3, row 1 of its page
    let f = frame_with(2, 16, &[(1, 9)]);
    assert_eq!(f.to_bytes(ScanFormat::VerticalLsb, false, false), vec![0, 0, 0, 0x02]);
    assert_eq!(f.to_bytes(ScanFormat::VerticalMsb, false, false), vec![0, 0, 0, 0x40]);
}

#[test]
fn horizontal_formats_are_row_major() {
    // pixel (9, 1): row 1, second byte of the row → byte 1 * 2 + 1 = 3, column 1 of it
    let f = frame_with(10, 2, &[(9, 1)]);
    assert_eq!(f.to_bytes(ScanFormat::HorizontalLsb, false, false), vec![0, 0, 0, 0x02]);
    assert_eq!(f.to_bytes(ScanFormat::HorizontalMsb, false, false), vec![0, 0, 0, 0x40]);
}

#[test]
fn vertical_lsb_column_of_rows() {
    let f = frame_with(1, 8, &[(0, 0), (0, 2), (0, 7)]);
    assert_eq!(f.to_bytes(ScanFormat::VerticalLsb, false, false), vec![0b1000_0101]);
    assert_eq!(f.to_bytes(ScanFormat::VerticalMsb, false, false), vec![0b1010_0001]);
}

#[test]
fn padding_fills_only_idle_bits() {
    let f = frame_with(1, 3, &[(0, 0)]);
    assert_eq!(f.to_bytes(ScanFormat::VerticalLsb, false, false), vec![0x01]);
    assert_eq!(f.to_bytes(ScanFormat::VerticalLsb, false, true), vec![0xF9]);
    assert_eq!(f.to_bytes(ScanFormat::VerticalMsb, false, false), vec![0x80]);
    assert_eq!(f.to_bytes(ScanFormat::VerticalMsb, false, true), vec![0x9F]);
    let g = frame_with(3, 1, &[(0, 0)]);
    assert_eq!(g.to_bytes(ScanFormat::HorizontalLsb, false, true), vec![0xF9]);
    assert_eq!(g.to_bytes(ScanFormat::HorizontalMsb, false, true), vec![0x9F]);
}

#[test]
fn padding_keeps_lit_last_row() {
    // The last valid row of a partial page keeps its value when idle bits are filled.
    let f = frame_with(1, 3, &[]);
    assert_eq!(f.to_bytes(ScanFormat::VerticalMsb, false, true), vec![0x1F]);
    assert_eq!(f.to_bytes(ScanFormat::VerticalLsb, false, true), vec![0xF8]);
}

#[test]
fn aligned_frames_ignore_padding() {
    let f = frame_with(8, 16, &[(3, 5), (7, 15)]);
    for format in ScanFormat::all() {
        assert_eq!(f.to_bytes(*format, false, true), f.to_bytes(*format, false, false));
    }
}

#[test]
fn reverse_bits_reverses_each_byte() {
    let f = frame_with(8, 8, &[(0, 0), (3, 1), (6, 6)]);
    for format in ScanFormat::all() {
        let plain = f.to_bytes(*format, false, false);
        let rev = f.to_bytes(*format, true, false);
        let back: Vec<u8> = plain.iter().map(|b| reverse_byte(*b)).collect();
        assert_eq!(rev, back);
    }
    let g = frame_with(8, 8, &[(0, 0)]);
    assert_eq!(g.to_bytes(ScanFormat::VerticalLsb, true, false)[0], 0x80);
}

#[test]
fn reverse_byte_values() {
    assert_eq!(reverse_byte(0x01), 0x80);
    assert_eq!(reverse_byte(0b0000_0001), 0b1000_0000);
    assert_eq!(reverse_byte(0xF0), 0x0F);
    assert_eq!(reverse_byte(0x12), 0x48);
    assert_eq!(reverse_byte(0xA5), 0xA5);
    for b in 0..=255u8 {
        assert_eq!(reverse_byte(reverse_byte(b)), b);
    }
}

#[test]
fn rgba_shows_lit_white_and_dark_black() {
    let f = frame_with(2, 1, &[(1, 0)]);
    assert_eq!(f.to_rgba8(), vec![0, 0, 0, 0xFF, 0xFF, 0xFF, 0xFF, 0xFF]);
}

#[test]
fn scan_format_names_and_order() {
    let names: Vec<&str> = ScanFormat::all().iter().map(|f| f.name()).collect();
    assert_eq!(names, vec!["vertical_lsb", "vertical_msb", "horizontal_lsb", "horizontal_msb"]);
    assert!(ScanFormat::VerticalLsb.is_vertical());
    assert!(ScanFormat::VerticalMsb.is_vertical());
    assert!(!ScanFormat::HorizontalLsb.is_vertical());
    assert!(!ScanFormat::HorizontalMsb.is_vertical());
}

#[test]
fn scale_mode_names_and_order() {
    let names: Vec<&str> = ScaleMode::all().iter().map(|m| m.name()).collect();
    assert_eq!(names, vec!["等比缩放", "拉伸填充", "等比裁剪"]);
}

#[test]
fn default_params() {
    let p = ProcessParams::default();
    assert_eq!(p.width, 128);
    assert_eq!(p.height, 64);
    assert_eq!(p.threshold, 128);
    assert_eq!(p.format, ScanFormat::VerticalLsb);
    assert_eq!(p.scale_mode, ScaleMode::KeepAspect);
    assert!(!p.invert);
    assert_eq!(p.filter, ResizeFilter::Lanczos3);
    assert!(!p.reverse_bits);
    assert!(!p.pad_unused_bits_1);
}

fn params(width: u32, height: u32, invert: bool) -> ProcessParams {
    let mut p = ProcessParams::default();
    p.width = width;
    p.height = height;
    p.invert = invert;
    p
}

#[test]
fn binarize_places_and_thresholds() {
    let gray = vec![0u8, 200, 128, 127];
    let f = binarize_placed(&gray, 2, 2, 1, 1, &params(3, 3, false));
    assert_eq!(f.width, 3);
    assert_eq!(f.height, 3);
    let lit: Vec<bool> = f.pixels.clone();
    assert_eq!(
        lit,
        vec![false, false, false, false, false, true, false, true, false]
    );
}

#[test]
fn binarize_invert_swaps_covered_pixels_only() {
    let gray = vec![0u8, 200, 128, 127];
    let f = binarize_placed(&gray, 2, 2, 1, 1, &params(3, 3, true));
    assert_eq!(
        f.pixels,
        vec![false, false, false, false, true, false, false, false, true]
    );
}

#[test]
fn binarize_negative_offset_crops() {
    let gray = vec![10u8, 200];
    let f = binarize_placed(&gray, 2, 1, -1, 0, &params(1, 1, false));
    assert_eq!(f.pixels, vec![true]);
    let g = binarize_placed(&gray, 2, 1, 5, 5, &params(2, 2, false));
    assert_eq!(g.pixels, vec![false; 4]);
}

#[test]
fn binarize_threshold_zero_lights_everything_covered() {
    let gray = vec![0u8; 4];
    let mut p = params(2, 2, false);
    p.threshold = 0;
    let f = binarize_placed(&gray, 2, 2, 0, 0, &p);
    assert_eq!(f.pixels, vec![true; 4]);
}

use img2c::processor::{process_image, ProcessError, RgbaPixels};

#[test]
fn process_image_refuses_empty_images() {
    let img = RgbaPixels { width: 0, height: 3, rgba: vec![] };
    let r = process_image(&img, 1, 1, 0, 0, &ProcessParams::default());
    assert!(matches!(r, Err(ProcessError::EmptyImage)));
}

#[test]
fn process_image_same_size_uses_grey_levels() {
    let img = RgbaPixels { width: 2, height: 1, rgba: vec![255, 255, 255, 255, 0, 0, 0, 255] };
    let mut p = params(2, 1, false);
    p.filter = ResizeFilter::Nearest;
    let f = process_image(&img, 2, 1, 0, 0, &p).unwrap();
    assert_eq!(f.pixels, vec![true, false]);
}

#[test]
fn process_image_resizes_then_thresholds_luma() {
    // Pure red has grey level 2126 * 255 / 10000 = 54.
    let img = RgbaPixels { width: 1, height: 1, rgba: vec![255, 0, 0, 255] };
    let mut p = params(2, 2, false);
    p.filter = ResizeFilter::Nearest;
    p.threshold = 50;
    let f = process_image(&img, 2, 2, 0, 0, &p).unwrap();
    assert_eq!(f.pixels, vec![true; 4]);
    p.threshold = 60;
    let g = process_image(&img, 2, 2, 0, 0, &p).unwrap();
    assert_eq!(g.pixels, vec![false; 4]);
}

#[test]
fn process_image_places_with_offset() {
    let img = RgbaPixels { width: 1, height: 1, rgba: vec![255, 255, 255, 255] };
    let mut p = params(3, 1, false);
    p.filter = ResizeFilter::Nearest;
    let f = process_image(&img, 1, 1, 1, 0, &p).unwrap();
    assert_eq!(f.pixels, vec![false, true, false]);
}

#[test]
fn raising_the_threshold_never_lights_a_pixel() {
    let img = RgbaPixels {
        width: 4,
        height: 1,
        rgba: vec![10, 10, 10, 255, 100, 100, 100, 255, 150, 150, 150, 255, 250, 250, 250, 255],
    };
    let mut low = params(4, 1, false);
    low.filter = ResizeFilter::Nearest;
    low.threshold = 90;
    let mut high = low;
    high.threshold = 160;
    let a = process_image(&img, 4, 1, 0, 0, &low).unwrap();
    let b = process_image(&img, 4, 1, 0, 0, &high).unwrap();
    assert_eq!(a.pixels, vec![false, true, true, true]);
    assert_eq!(b.pixels, vec![false, false, false, true]);
    low.invert = true;
    high.invert = true;
    let c = process_image(&img, 4, 1, 0, 0, &low).unwrap();
    let d = process_image(&img, 4, 1, 0, 0, &high).unwrap();
    assert_eq!(c.pixels, vec![true, false, false, false]);
    assert_eq!(d.pixels, vec![true, true, true, false]);
}
