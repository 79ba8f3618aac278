use img2c::exporter::{export_c_header, format_bytes, guard_name, to_c_ident, ExportConfig};
use img2c::processor::{BinaryFrame, ScanFormat};

fn ident(name: &str) -> String {
    to_c_ident(name).into_iter().collect()
}

#[test]
fn c_ident_upper_cases_and_replaces() {
    assert_eq!(ident("img"), "IMG");
    assert_eq!(ident("my img"), "MY_IMG");
    assert_eq!(ident("a-b.c"), "A_B_C");
    assert_eq!(ident("_x9"), "_X9");
}

#[test]
fn c_ident_leading_digit_gets_underscore() {
    assert_eq!(ident("123abc"), "_123ABC");
    assert_eq!(ident("9"), "_9");
}

#[test]
fn c_ident_non_ascii_becomes_underscore() {
    assert_eq!(ident("中文"), "__");
    assert_eq!(ident("a中"), "A_");
}

#[test]
fn c_ident_empty_name() {
    assert_eq!(ident(""), "IMG_DATA");
}

#[test]
fn guard_names() {
    assert_eq!(guard_name("img").into_iter().collect::<String>(), "IMG_H");
    assert_eq!(guard_name("").into_iter().collect::<String>(), "IMG_DATA_H");
}

#[test]
fn format_bytes_lines() {
    assert_eq!(format_bytes(&vec![0x01, 0xAB, 0xFF], 2), "    0x01,0xAB,\n    0xFF,");
    assert_eq!(format_bytes(&vec![0x00, 0x10], 16), "    0x00,0x10,");
    assert_eq!(format_bytes(&vec![0x01, 0x02, 0x03, 0x04], 2), "    0x01,0x02,\n    0x03,0x04,");
    assert_eq!(format_bytes(&vec![], 4), "");
    assert_eq!(format_bytes(&vec![0x7F], 0), "    0x7F,");
}

#[test]
fn default_export_config() {
    let c = ExportConfig::default();
    assert_eq!(c.name, "img");
    assert!(c.use_conditional);
    assert_eq!(c.bytes_per_line, 16);
}

#[test]
fn export_single_frame_header() {
    let mut f = BinaryFrame::new(8, 8);
    f.set_pixel(0, 0, true);
    let text = export_c_header(&[f], ScanFormat::VerticalLsb, false, false, &ExportConfig::default());
    let want = [
        "/* 自动生成 by img2c\n",
        " * 尺寸: 8 x 8\n",
        " * 格式: vertical_lsb\n",
        " * 单帧字节数: 8\n",
        " * 总字节数: 8\n",
        " */\n",
        "#ifndef IMG_H\n",
        "#define IMG_H\n",
        "\n",
        "#include <stdint.h>\n",
        "\n",
        "#define IMG2C_IMG      \t1\t// 是否编译\n",
        "#if IMG2C_IMG\n",
        "\n",
        "#define IMG_WIDTH      \t8\t// 图像宽度(像素)\n",
        "#define IMG_HEIGHT     \t8\t// 图像高度(像素)\n",
        "#define IMG_FRAME_SIZE \t8\t// 单帧字节数\n",
        "#define IMG_FRAME_COUNT\t1\t// 帧数\n",
        "#define IMG_TOTAL_SIZE \t8\t// 总字节数\n",
        "\n",
        "static const uint8_t img_data[IMG_FRAME_COUNT][IMG_FRAME_SIZE] = {\n",
        "  {\n",
        "    0x01,0x00,0x00,0x00,0x00,0x00,0x00,0x00,\n",
        "  },\n",
        "};\n",
        "#endif /* IMG2C_IMG */\n",
        "\n",
        "#endif /* IMG_H */\n",
    ]
    .concat();
    assert_eq!(text, want);
}

#[test]
fn export_centres_values_and_marks_reversal() {
    let f = BinaryFrame::new(128, 64);
    let g = BinaryFrame::new(128, 64);
    let config = ExportConfig { name: String::from("Logo"), use_conditional: false, bytes_per_line: 512 };
    let text = export_c_header(&[f, g], ScanFormat::HorizontalMsb, true, false, &config);
    assert!(text.starts_with(
        "/* 自动生成 by img2c\n * 尺寸: 128 x 64\n * 格式: horizontal_msb\n * 字节内位序: 已反转\n * 单帧字节数: 1024\n * 总字节数: 2048\n */\n#ifndef LOGO_H\n"
    ));
    assert!(text.contains("#define LOGO_WIDTH      \t128 \t// 图像宽度(像素)\n"));
    assert!(text.contains("#define LOGO_HEIGHT     \t 64 \t// 图像高度(像素)\n"));
    assert!(text.contains("#define LOGO_FRAME_SIZE \t1024\t// 单帧字节数\n"));
    assert!(text.contains("#define LOGO_FRAME_COUNT\t 2  \t// 帧数\n"));
    assert!(text.contains("#define LOGO_TOTAL_SIZE \t2048\t// 总字节数\n"));
    assert!(!text.contains("IMG2C_"));
    assert!(!text.contains("#if "));
    assert!(text.contains("static const uint8_t logo_data[LOGO_FRAME_COUNT][LOGO_FRAME_SIZE] = {\n"));
    assert_eq!(text.matches("  {\n").count(), 2);
    assert_eq!(text.matches("  },\n").count(), 2);
    assert!(text.ends_with("};\n#endif /* LOGO_H */\n"));
}

#[test]
fn export_without_frames() {
    let text = export_c_header(&[], ScanFormat::VerticalLsb, false, false, &ExportConfig::default());
    assert_eq!(text, "/* 错误：没有帧数据 */");
}

#[test]
fn export_lines_of_bytes() {
    let mut f = BinaryFrame::new(3, 8);
    f.set_pixel(2, 7, true);
    let config = ExportConfig { name: String::from("x"), use_conditional: false, bytes_per_line: 2 };
    let text = export_c_header(&[f], ScanFormat::VerticalLsb, false, false, &config);
    assert!(text.contains("= {\n  {\n    0x00,0x00,\n    0x80,\n  },\n};\n"));
}

#[test]
fn size_macros_whatever_the_name() {
    let f = BinaryFrame::new(8, 8);
    let config = ExportConfig { name: String::from("img2c_logo"), use_conditional: true, bytes_per_line: 16 };
    let text = export_c_header(&[f], ScanFormat::VerticalLsb, false, false, &config);
    assert!(text.contains("#define IMG2C_IMG2C_LOGO      \t1\t// 是否编译\n#if IMG2C_IMG2C_LOGO\n\n"));
    assert!(text.contains("#define IMG2C_LOGO_WIDTH      \t8\t// 图像宽度(像素)\n"));
    assert!(text.contains("#define IMG2C_LOGO_HEIGHT     \t8\t// 图像高度(像素)\n"));
    assert!(text.contains("#define IMG2C_LOGO_FRAME_SIZE \t8\t// 单帧字节数\n"));
    assert!(text.contains("#define IMG2C_LOGO_FRAME_COUNT\t1\t// 帧数\n"));
    assert!(text.contains("#define IMG2C_LOGO_TOTAL_SIZE \t8\t// 总字节数\n"));
    let g = BinaryFrame::new(8, 8);
    let plain = ExportConfig { name: String::from("IMG2C_x"), use_conditional: false, bytes_per_line: 16 };
    let text2 = export_c_header(&[g], ScanFormat::VerticalLsb, false, false, &plain);
    assert!(text2.contains("#define IMG2C_X_WIDTH      \t8\t// 图像宽度(像素)\n"));
}
