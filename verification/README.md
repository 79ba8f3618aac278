# img2c

Image encoding ("取模") for monochrome OLED / LCD screens, verified with Verus.

Frames are binarised images; they are encoded in one of four scan formats
(`vertical_lsb`, `vertical_msb`, `horizontal_lsb`, `horizontal_msb`, page-major
for the vertical ones), optionally with the bit order reversed in every byte and
the idle bits of a partial byte filled with 1, and written as a C header with
size macros and a two-dimensional byte array. Headers are read back with the
same grammar.

## Layout

- `src/` — the verified library. Contracts are stated over spec functions
  (`BinaryFrame::scan_bytes`, `c_header`, `header_plan`, ...); `laws.rs`,
  `readback.rs`, `roundtrip.rs` and the laws in `video.rs` state what holds
  across functions (decoding undoes encoding, reading a header back gives the
  exported frames, ...).
- `tests/` — tests on concrete values.
- `app/` — the desktop program (eframe / egui): file dialogs, image decoding,
  ffmpeg / ffprobe processes, and the floating-point fitting of an image to
  the output size.

Regular expressions are matched by the `regex` crate and images are resampled
by the `image` crate; what they return is named (`regex_matches`, and
`resized_luma` for the `Nearest` and `Triangle` filters, whose arithmetic is
exact IEEE arithmetic) rather than described, so the contracts speak of those
results. With the other filters only the size of the resampled image is
stated.
