use img2c::presets::{driver_presets, matching_preset};
use img2c::processor::{ProcessParams, ScanFormat};

#[test]
fn known_controllers() {
    let d = driver_presets();
    assert_eq!(d.len(), 14);
    assert_eq!(d[0].name, "SSD1306 / SSD1309 128×64");
    assert_eq!((d[0].width, d[0].height, d[0].format), (128, 64, ScanFormat::VerticalLsb));
    let nokia = d.iter().find(|p| p.name.starts_with("PCD8544")).unwrap();
    assert_eq!((nokia.width, nokia.height, nokia.format), (84, 48, ScanFormat::VerticalMsb));
    let st7920 = d.iter().find(|p| p.name.starts_with("ST7920")).unwrap();
    assert_eq!(st7920.format, ScanFormat::HorizontalMsb);
    assert!(d.iter().all(|p| !p.reverse_bits && !p.invert));
}

#[test]
fn default_params_match_the_ssd1306() {
    let d = driver_presets();
    let p = ProcessParams::default();
    assert_eq!(matching_preset(&d, &p), Some(0));
    assert_eq!(d[0].hint, "通用12864 OLED");
}

#[test]
fn no_preset_for_unusual_settings() {
    let d = driver_presets();
    let mut p = ProcessParams::default();
    p.width = 100;
    assert_eq!(matching_preset(&d, &p), None);
    p.width = 128;
    p.reverse_bits = true;
    assert_eq!(matching_preset(&d, &p), None);
    let mut q = ProcessParams::default();
    q.width = 250;
    q.height = 122;
    q.format = ScanFormat::HorizontalMsb;
    assert_eq!(matching_preset(&d, &q), Some(12));
}
