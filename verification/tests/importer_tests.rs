use img2c::exporter::{export_c_header, ExportConfig};
use img2c::importer::{bytes_to_binary_frame, parse_header_matches, parse_header_text, ImportError};
use img2c::patterns::PatternMatch;
use img2c::processor::{BinaryFrame, ScanFormat};

fn frame_with(width: u32, height: u32, lit: &[(u32, u32)]) -> BinaryFrame {
    let mut f = BinaryFrame::new(width, height);
    for &(x, y) in lit {
        f.set_pixel(x, y, true);
    }
    f
}

#[test]
fn bytes_to_frame_vertical_lsb() {
    let f = bytes_to_binary_frame(vec![0x01, 0x80], 2, 8, ScanFormat::VerticalLsb, false).unwrap();
    assert_eq!(f.width, 2);
    assert_eq!(f.height, 8);
    assert!(f.get_pixel(0, 0));
    assert!(f.get_pixel(1, 7));
    assert_eq!(f.pixels.iter().filter(|p| **p).count(), 2);
}

#[test]
fn bytes_to_frame_reversed_and_short_input() {
    // 0x80 reversed is 0x01: pixel (0, 0) of a horizontal LSB frame.
    let f = bytes_to_binary_frame(vec![0x80], 8, 2, ScanFormat::HorizontalLsb, true).unwrap();
    assert!(f.get_pixel(0, 0));
    assert_eq!(f.pixels.iter().filter(|p| **p).count(), 1);
    // The missing second row reads as dark.
    assert!(!f.get_pixel(0, 1));
}

#[test]
fn decode_after_encode_every_format() {
    let f = frame_with(11, 13, &[(0, 0), (10, 12), (5, 7), (3, 8), (9, 1)]);
    for format in ScanFormat::all() {
        for reverse in [false, true] {
            for pad in [false, true] {
                let bytes = f.to_bytes(*format, reverse, pad);
                let g = bytes_to_binary_frame(bytes.clone(), 11, 13, *format, reverse).unwrap();
                assert_eq!(g.pixels, f.pixels);
                assert_eq!(g.to_bytes(*format, reverse, pad), bytes);
            }
        }
    }
}

#[test]
fn exported_header_reads_back() {
    let a = frame_with(10, 12, &[(0, 0), (9, 11), (4, 5)]);
    let b = frame_with(10, 12, &[(1, 1), (8, 3)]);
    let text = export_c_header(
        &[a.clone(), b.clone()],
        ScanFormat::HorizontalMsb,
        true,
        true,
        &ExportConfig::default(),
    );
    let parsed = parse_header_text(&text).unwrap();
    assert_eq!(parsed.name, "IMG");
    assert_eq!(parsed.format, ScanFormat::HorizontalMsb);
    assert!(parsed.reverse_bits);
    assert_eq!(parsed.frames.len(), 2);
    assert_eq!(parsed.frames[0].width, 10);
    assert_eq!(parsed.frames[0].height, 12);
    assert_eq!(parsed.frames[0].pixels, a.pixels);
    assert_eq!(parsed.frames[1].pixels, b.pixels);
}

#[test]
fn exported_header_reads_back_every_format() {
    let a = frame_with(7, 9, &[(0, 8), (6, 0), (3, 4)]);
    for format in ScanFormat::all() {
        let config = ExportConfig { name: String::from("Pic"), use_conditional: false, bytes_per_line: 5 };
        let text = export_c_header(&[a.clone()], *format, false, false, &config);
        let parsed = parse_header_text(&text).unwrap();
        assert_eq!(parsed.name, "PIC");
        assert_eq!(parsed.format, *format);
        assert!(!parsed.reverse_bits);
        assert_eq!(parsed.frames.len(), 1);
        assert_eq!(parsed.frames[0].pixels, a.pixels);
    }
}

#[test]
fn missing_size_macros() {
    let r = parse_header_text("static const uint8_t a[1][1] = {0x00};");
    assert!(matches!(r, Err(ImportError::NoSizeMacros)));
}

#[test]
fn missing_height() {
    let r = parse_header_text("#define A_WIDTH 8\nconst uint8_t a_data[1][8] = {{0}};");
    assert!(matches!(r, Err(ImportError::MissingHeight)));
}

#[test]
fn missing_width() {
    let r = parse_header_text("#define A_HEIGHT 8\nconst uint8_t a_data[1][8] = {{0}};");
    assert!(matches!(r, Err(ImportError::MissingWidth)));
}

#[test]
fn no_array() {
    let r = parse_header_text("#define A_WIDTH 8\n#define A_HEIGHT 8\n");
    assert!(matches!(r, Err(ImportError::NoArray)));
}

#[test]
fn not_enough_bytes() {
    let text = "#define A_WIDTH 8\n#define A_HEIGHT 8\n#define A_FRAME_SIZE 8\n#define A_FRAME_COUNT 1\nconst uint8_t a_data[A_FRAME_COUNT][A_FRAME_SIZE] = {{0x01,0x02}};";
    match parse_header_text(text) {
        Err(ImportError::NotEnoughBytes { frame_count, frame_size, found, array_prefix, macro_prefix }) => {
            assert_eq!(frame_count, 1);
            assert_eq!(frame_size, 8);
            assert_eq!(found, 2);
            assert_eq!(array_prefix, "a");
            assert_eq!(macro_prefix, "A");
        }
        _ => panic!("expected NotEnoughBytes"),
    }
}

#[test]
fn hand_written_header_with_numeric_dimensions() {
    let text = "#define LOGO_WIDTH 8\n#define LOGO_HEIGHT 8\nunsigned char logo[1][8] = {\n  {0xFF, 0x00, 0x00, 0x00, 0x00, 0x00, 0x00, 0x01}\n};\n";
    let parsed = parse_header_text(text).unwrap();
    assert_eq!(parsed.name, "LOGO");
    assert_eq!(parsed.format, ScanFormat::VerticalLsb);
    assert!(!parsed.reverse_bits);
    assert_eq!(parsed.frames.len(), 1);
    let f = &parsed.frames[0];
    for y in 0..8 {
        assert!(f.get_pixel(0, y));
    }
    assert!(f.get_pixel(7, 0));
    assert_eq!(f.pixels.iter().filter(|p| **p).count(), 9);
}

#[test]
fn frame_size_macro_picks_horizontal_layout() {
    // 16x8: vertical would be 16 bytes, horizontal 16 bytes as well; 12x8 tells them apart.
    let text = "#define P_WIDTH 12\n#define P_HEIGHT 8\n#define P_FRAME_SIZE 16\n#define P_FRAME_COUNT 1\nconst uint8_t p_data[P_FRAME_COUNT][P_FRAME_SIZE] = {{0x01,0x00,0x00,0x00,0x00,0x00,0x00,0x00,0x00,0x00,0x00,0x00,0x00,0x00,0x00,0x00}};";
    let parsed = parse_header_text(text).unwrap();
    assert_eq!(parsed.format, ScanFormat::HorizontalLsb);
    assert!(parsed.frames[0].get_pixel(0, 0));
    assert_eq!(parsed.frames[0].pixels.iter().filter(|p| **p).count(), 1);
}

fn pm(start: usize, groups: &[&str]) -> PatternMatch {
    PatternMatch { start, groups: groups.iter().map(|g| Some(g.to_string())).collect() }
}

#[test]
fn parse_from_given_matches() {
    let text = "#define A_WIDTH 8\n#define A_HEIGHT 1\nuint8_t a_data[1][1] = {{0x05}};";
    let mw = vec![pm(0, &["#define A_WIDTH 8", "A", "8"])];
    let mh = vec![pm(18, &["#define A_HEIGHT 1", "A", "1"])];
    let arr = text.find("uint8_t").unwrap();
    let ma = vec![pm(arr, &["uint8_t a_data[1][1] =", "a_data", "1", "1"])];
    let parsed = parse_header_matches(text, &mw, &mh, &vec![], &vec![], &ma, &vec![]).unwrap();
    assert_eq!(parsed.name, "A");
    assert_eq!(parsed.format, ScanFormat::VerticalLsb);
    assert_eq!(parsed.frames.len(), 1);
    assert_eq!(parsed.frames[0].width, 8);
    assert_eq!(parsed.frames[0].height, 1);
    assert_eq!(
        parsed.frames[0].pixels,
        vec![true, false, false, false, false, false, false, false]
    );
}

#[test]
fn parse_from_given_matches_without_macros() {
    let r = parse_header_matches("", &vec![], &vec![], &vec![], &vec![], &vec![], &vec![]);
    assert!(matches!(r, Err(ImportError::NoSizeMacros)));
}

#[test]
fn prefix_with_width_and_height_wins() {
    let text = "#define A_FRAME_SIZE 8\n#define A_FRAME_COUNT 1\n#define B_WIDTH 8\n#define B_HEIGHT 8\nconst uint8_t b_data[1][8] = {{1,2,3,4,5,6,7,8}};";
    let parsed = parse_header_text(text).unwrap();
    assert_eq!(parsed.name, "B");
    assert_eq!(parsed.frames.len(), 1);
    let f = &parsed.frames[0];
    assert!(f.get_pixel(0, 0));
    assert!(f.get_pixel(1, 1));
    assert!(f.get_pixel(6, 2));
    assert!(f.get_pixel(7, 3));
    assert_eq!(f.pixels.iter().filter(|p| **p).count(), 13);
}

#[test]
fn equal_prefixes_pick_the_first_in_key_order() {
    let text = "#define ZZ_WIDTH 8\n#define ZZ_HEIGHT 8\n#define AA_WIDTH 16\n#define AA_HEIGHT 8\nconst uint8_t zz_data[1][8] = {{0xFF}};";
    match parse_header_text(text) {
        Err(ImportError::NotEnoughBytes { frame_count, frame_size, found, array_prefix, macro_prefix }) => {
            assert_eq!((frame_count, frame_size, found), (1, 16, 1));
            assert_eq!(array_prefix, "zz");
            assert_eq!(macro_prefix, "AA");
        }
        _ => panic!("expected NotEnoughBytes"),
    }
}

#[test]
fn prefixes_merge_ignoring_case() {
    let text = "#define Img_WIDTH 8\n#define IMG_HEIGHT 1\nuint8_t img_data[1][8] = {{1,0,0,0,0,0,0,0}};";
    let parsed = parse_header_text(text).unwrap();
    assert_eq!(parsed.name, "Img");
    assert_eq!(parsed.frames[0].width, 8);
    assert_eq!(parsed.frames[0].height, 1);
    assert_eq!(parsed.frames[0].pixels, vec![true, false, false, false, false, false, false, false]);
}

#[test]
fn array_found_by_its_dimensions() {
    let text = "#define P_WIDTH 8\n#define P_HEIGHT 8\n#define P_FRAME_SIZE 8\n#define P_FRAME_COUNT 2\nconst uint8_t frames[2][8] = {{1,0,0,0,0,0,0,0},{2,0,0,0,0,0,0,0}};";
    let parsed = parse_header_text(text).unwrap();
    assert_eq!(parsed.name, "frames");
    assert_eq!(parsed.frames.len(), 2);
    assert!(parsed.frames[0].get_pixel(0, 0));
    assert!(parsed.frames[1].get_pixel(0, 1));
    assert_eq!(parsed.frames[0].pixels.iter().filter(|p| **p).count(), 1);
    assert_eq!(parsed.frames[1].pixels.iter().filter(|p| **p).count(), 1);
}

#[test]
fn reversal_marker_in_a_comment() {
    let text = "/* reverse_bits: 1 */\n#define R_WIDTH 8\n#define R_HEIGHT 8\nconst uint8_t r_data[1][8] = {{0x80,0,0,0,0,0,0,0}};";
    let parsed = parse_header_text(text).unwrap();
    assert!(parsed.reverse_bits);
    assert!(parsed.frames[0].get_pixel(0, 0));
    assert_eq!(parsed.frames[0].pixels.iter().filter(|p| **p).count(), 1);
}

#[test]
fn missing_frame_count_reads_one_frame() {
    let text = "#define Q_WIDTH 8\n#define Q_HEIGHT 8\nconst uint8_t q_data[][8] = {{1,0,0,0,0,0,0,0},{1,0,0,0,0,0,0,0}};";
    let parsed = parse_header_text(text).unwrap();
    assert_eq!(parsed.frames.len(), 1);
    assert!(parsed.frames[0].get_pixel(0, 0));
}
