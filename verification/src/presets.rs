//! The display controllers with known frame-buffer settings.

use vstd::prelude::*;
use crate::processor::{ProcessParams, ScanFormat};

verus! {

/// A display controller and the settings its frame buffer expects.
#[derive(Debug, Clone, Copy)]
pub struct DriverPreset {
    /// Controller name and resolution.
    pub name: &'static str,
    pub width: u32,
    pub height: u32,
    pub format: ScanFormat,
    pub reverse_bits: bool,
    pub invert: bool,
    /// What the preset is for.
    pub hint: &'static str,
}

/// A preset as plain values: (name, width, height, format, reverse bits,
/// invert, hint).
pub open spec fn preset_view(p: DriverPreset) -> (Seq<char>, u32, u32, ScanFormat, bool, bool, Seq<char>) {
    (p.name@, p.width, p.height, p.format, p.reverse_bits, p.invert, p.hint@)
}

/// The known controllers, in the order they are listed.
pub open spec fn driver_table() -> Seq<(Seq<char>, u32, u32, ScanFormat, bool, bool, Seq<char>)> {
    seq![
        ("SSD1306 / SSD1309 128×64"@, 128u32, 64u32, ScanFormat::VerticalLsb, false, false, "通用12864 OLED"@),
        ("SSD1306 128×32"@, 128u32, 32u32, ScanFormat::VerticalLsb, false, false, "窄款0.91\" OLED"@),
        ("SSD1306 64×48"@, 64u32, 48u32, ScanFormat::VerticalLsb, false, false, "小尺寸 OLED"@),
        ("SH1106 128×64"@, 128u32, 64u32, ScanFormat::VerticalLsb, false, false, "兼容SSD1306"@),
        ("SH1106 132×64"@, 132u32, 64u32, ScanFormat::VerticalLsb, false, false, "1.3\" OLED原生"@),
        ("SSD1315 128×64"@, 128u32, 64u32, ScanFormat::VerticalLsb, false, false, "同SSD1306"@),
        ("ST7567 / ST7565 128×64"@, 128u32, 64u32, ScanFormat::VerticalLsb, false, false, "LCD 12864 并/串"@),
        ("UC1701 128×64"@, 128u32, 64u32, ScanFormat::VerticalLsb, false, false, "LCD 12864"@),
        ("PCD8544 (Nokia5110) 84×48"@, 84u32, 48u32, ScanFormat::VerticalMsb, false, false, "诺基亚屏 MSB在上"@),
        ("ST7920 128×64 (串/并)"@, 128u32, 64u32, ScanFormat::HorizontalMsb, false, false, "字库型12864"@),
        ("SSD1327 (灰阶单色) 128×128"@, 128u32, 128u32, ScanFormat::HorizontalMsb, false, false, "水平写入"@),
        ("WS0010 / OLED 128×64"@, 128u32, 64u32, ScanFormat::HorizontalMsb, false, false, "字库型 OLED"@),
        ("SSD1675A / 墨水屏 2.13\""@, 250u32, 122u32, ScanFormat::HorizontalMsb, false, false, "水平扫MSB"@),
        ("SSD1322 256×64 (灰阶)"@, 256u32, 64u32, ScanFormat::HorizontalMsb, false, false, "0.95\"-2.8\" 黄蓝OLED"@),
    ]
}

/// The known display controllers, with the size, scan format, bit order
/// and colour their frame buffers expect.
pub fn driver_presets() -> (r: Vec<DriverPreset>)
    ensures
        r@.map_values(|p: DriverPreset| preset_view(p)) == driver_table(),
{
    let r = vec![
        DriverPreset { name: "SSD1306 / SSD1309 128×64", width: 128, height: 64, format: ScanFormat::VerticalLsb, reverse_bits: false, invert: false, hint: "通用12864 OLED" },
        DriverPreset { name: "SSD1306 128×32", width: 128, height: 32, format: ScanFormat::VerticalLsb, reverse_bits: false, invert: false, hint: "窄款0.91\" OLED" },
        DriverPreset { name: "SSD1306 64×48", width: 64, height: 48, format: ScanFormat::VerticalLsb, reverse_bits: false, invert: false, hint: "小尺寸 OLED" },
        DriverPreset { name: "SH1106 128×64", width: 128, height: 64, format: ScanFormat::VerticalLsb, reverse_bits: false, invert: false, hint: "兼容SSD1306" },
        DriverPreset { name: "SH1106 132×64", width: 132, height: 64, format: ScanFormat::VerticalLsb, reverse_bits: false, invert: false, hint: "1.3\" OLED原生" },
        DriverPreset { name: "SSD1315 128×64", width: 128, height: 64, format: ScanFormat::VerticalLsb, reverse_bits: false, invert: false, hint: "同SSD1306" },
        DriverPreset { name: "ST7567 / ST7565 128×64", width: 128, height: 64, format: ScanFormat::VerticalLsb, reverse_bits: false, invert: false, hint: "LCD 12864 并/串" },
        DriverPreset { name: "UC1701 128×64", width: 128, height: 64, format: ScanFormat::VerticalLsb, reverse_bits: false, invert: false, hint: "LCD 12864" },
        DriverPreset { name: "PCD8544 (Nokia5110) 84×48", width: 84, height: 48, format: ScanFormat::VerticalMsb, reverse_bits: false, invert: false, hint: "诺基亚屏 MSB在上" },
        DriverPreset { name: "ST7920 128×64 (串/并)", width: 128, height: 64, format: ScanFormat::HorizontalMsb, reverse_bits: false, invert: false, hint: "字库型12864" },
        DriverPreset { name: "SSD1327 (灰阶单色) 128×128", width: 128, height: 128, format: ScanFormat::HorizontalMsb, reverse_bits: false, invert: false, hint: "水平写入" },
        DriverPreset { name: "WS0010 / OLED 128×64", width: 128, height: 64, format: ScanFormat::HorizontalMsb, reverse_bits: false, invert: false, hint: "字库型 OLED" },
        DriverPreset { name: "SSD1675A / 墨水屏 2.13\"", width: 250, height: 122, format: ScanFormat::HorizontalMsb, reverse_bits: false, invert: false, hint: "水平扫MSB" },
        DriverPreset { name: "SSD1322 256×64 (灰阶)", width: 256, height: 64, format: ScanFormat::HorizontalMsb, reverse_bits: false, invert: false, hint: "0.95\"-2.8\" 黄蓝OLED" },
    ];
    assert(r@.map_values(|p: DriverPreset| preset_view(p)) =~= driver_table());
    r
}

/// Whether the processing parameters are those of the preset.
pub open spec fn preset_matches(p: DriverPreset, params: ProcessParams) -> bool {
    p.width == params.width && p.height == params.height && p.format == params.format
        && p.reverse_bits == params.reverse_bits && p.invert == params.invert
}

/// The first preset whose settings the parameters have, if any.
pub fn matching_preset(presets: &Vec<DriverPreset>, params: &ProcessParams) -> (r: Option<usize>)
    ensures
        match r {
            Some(i) => i < presets@.len() && preset_matches(presets@[i as int], *params) && forall|j: int|
                0 <= j < i ==> !preset_matches(#[trigger] presets@[j], *params),
            None => forall|j: int| 0 <= j < presets@.len() ==> !preset_matches(#[trigger] presets@[j], *params),
        },
{
    let mut i: usize = 0;
    while i < presets.len()
        invariant
            i <= presets@.len(),
            forall|j: int| 0 <= j < i ==> !preset_matches(#[trigger] presets@[j], *params),
        decreases presets@.len() - i,
    {
        let p = &presets[i];
        if p.width == params.width && p.height == params.height && p.format == params.format
            && p.reverse_bits == params.reverse_bits && p.invert == params.invert {
            return Some(i);
        }
        i = i + 1;
    }
    None
}

} // verus!
