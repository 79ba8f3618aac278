//! Monochrome display image encoding ("取模"): binarised frames, the four
//! scan layouts used by OLED/LCD controllers, C header export and import,
//! and the frame selection of animations and videos.
//!
//! - `processor`: frames, scan formats, encoding, binarisation.
//! - `exporter` / `importer`: writing a C header and reading one back.
//! - `video`, `ffmpeg`: frame ranges and sampling, ffmpeg output and filters.
//! - `presets`: known display controllers.
//! - `laws`, `readback`, `roundtrip`: what holds across these functions.
//! - `bits`, `text`, `patterns`: bytes, text and regular expressions.

pub mod bits;
pub mod processor;
pub mod importer;
pub mod laws;
pub mod text;
pub mod exporter;
pub mod patterns;
pub mod video;
pub mod ffmpeg;
pub mod readback;
pub mod presets;
pub mod roundtrip;
