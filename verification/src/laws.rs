//! Laws of the encoding: where each pixel is stored, decoding and
//! re-encoding, bit reversal, padding, pixel writes and inversion.

use vstd::prelude::*;
use crate::bits::{bit_of, lemma_byte_eq_by_bits, lemma_reversed_byte_bits, reversed_byte};
use crate::processor::{
    bit_for_pixel, ceil8, decoded_pixel, lemma_group_of_byte, lit, pixel_byte, pixel_slot,
    placed_pixel, scan_cell, scan_len, BinaryFrame, ProcessParams, ScanFormat,
    exact_filter, processed_from, RgbaPixels,
};

verus! {

/// Where pixel `(x, y)` is stored: its byte lies inside the scan, its slot
/// inside the byte, and the scan maps that byte and slot back to `(x, y)`.
pub proof fn lemma_pixel_position(w: int, h: int, format: ScanFormat, x: int, y: int)
    requires
        0 <= x < w,
        0 <= y < h,
    ensures
        0 <= pixel_byte(w, h, format, x, y) < scan_len(w, h, format),
        0 <= pixel_slot(format, x, y) < 8,
        scan_cell(w, h, format, pixel_byte(w, h, format, x, y), pixel_slot(format, x, y)) == (
            x,
            y,
        ),
{
    let i = pixel_byte(w, h, format, x, y);
    if format.vertical() {
        let p = y / 8;
        assert(0 <= p < ceil8(h));
        assert(0 <= p * w + x < ceil8(h) * w) by (nonlinear_arith)
            requires
                0 <= p < ceil8(h),
                0 <= x < w,
        ;
        assert(w * ceil8(h) == ceil8(h) * w) by (nonlinear_arith);
        vstd::arithmetic::div_mod::lemma_fundamental_div_mod_converse(i, w, p, x);
    } else {
        let c = ceil8(w);
        let j = x / 8;
        assert(0 <= j < c);
        assert(0 <= y * c + j < h * c) by (nonlinear_arith)
            requires
                0 <= j < c,
                0 <= y < h,
        ;
        assert(y * c + j == c * y + j) by (nonlinear_arith);
        vstd::arithmetic::div_mod::lemma_fundamental_div_mod_converse(i, c, y, j);
    }
}

/// Reading back an encoded frame gives the frame: when `bytes` is the frame
/// in some format (whatever the padding and bit order), every in-frame pixel
/// decoded from `bytes` in the same format and bit order is the frame's pixel.
pub proof fn law_decode_after_encode(
    f: BinaryFrame,
    format: ScanFormat,
    reverse_bits: bool,
    pad: bool,
    bytes: Seq<u8>,
)
    requires
        f.encoded_as(format, reverse_bits, pad, bytes),
    ensures
        forall|x: int, y: int|
            0 <= x < f.width && 0 <= y < f.height ==> #[trigger] decoded_pixel(
                bytes,
                f.width as int,
                f.height as int,
                format,
                reverse_bits,
                x,
                y,
            ) == f.pixel(x, y),
{
    let w = f.width as int;
    let h = f.height as int;
    assert forall|x: int, y: int| 0 <= x < w && 0 <= y < h implies #[trigger] decoded_pixel(
        bytes,
        w,
        h,
        format,
        reverse_bits,
        x,
        y,
    ) == f.pixel(x, y) by {
        lemma_pixel_position(w, h, format, x, y);
        let i = pixel_byte(w, h, format, x, y);
        let k = pixel_slot(format, x, y);
        let pos = bit_for_pixel(format, k);
        let b = if reverse_bits {
            7 - pos
        } else {
            pos
        };
        lemma_reversed_byte_bits(bytes[i]);
        assert(bit_of(bytes[i], b) == f.scan_bit(format, pad, i, pos));
        assert(bit_for_pixel(format, pos) == k);
        assert(f.scan_pixel(format, pad, i, k) == f.pixel(x, y));
    }
}

/// A scan byte and pixel position that lie inside the frame are the byte
/// and position of the pixel they name.
pub proof fn lemma_cell_position(w: int, h: int, format: ScanFormat, i: int, k: int)
    requires
        0 <= i,
        0 <= k < 8,
        0 <= scan_cell(w, h, format, i, k).0 < w,
        0 <= scan_cell(w, h, format, i, k).1 < h,
    ensures
        pixel_byte(w, h, format, scan_cell(w, h, format, i, k).0, scan_cell(w, h, format, i, k).1)
            == i,
        pixel_slot(format, scan_cell(w, h, format, i, k).0, scan_cell(w, h, format, i, k).1) == k,
{
    if format.vertical() {
        let q = i / w;
        let y = q * 8 + k;
        vstd::arithmetic::div_mod::lemma_fundamental_div_mod(i, w);
        vstd::arithmetic::div_mod::lemma_fundamental_div_mod_converse(y, 8, q, k);
        assert(q * w == w * q) by (nonlinear_arith);
    } else {
        let c = ceil8(w);
        assert(c > 0);
        let j = i % c;
        let x = j * 8 + k;
        vstd::arithmetic::div_mod::lemma_fundamental_div_mod(i, c);
        vstd::arithmetic::div_mod::lemma_fundamental_div_mod_converse(x, 8, j, k);
        assert((i / c) * c == c * (i / c)) by (nonlinear_arith);
    }
}

/// Every scan byte of a frame holds only in-frame pixels when the frame's
/// size along the packing direction is a multiple of eight.
pub proof fn lemma_aligned_cells(w: int, h: int, format: ScanFormat, i: int, k: int)
    requires
        w >= 0,
        h >= 0,
        0 <= i < scan_len(w, h, format),
        0 <= k < 8,
        format.vertical() ==> h % 8 == 0,
        !format.vertical() ==> w % 8 == 0,
    ensures
        0 <= scan_cell(w, h, format, i, k).0 < w,
        0 <= scan_cell(w, h, format, i, k).1 < h,
{
    if format.vertical() {
        assert(w * ceil8(h) == ceil8(h) * w) by (nonlinear_arith);
        if w == 0 {
            assert(w * ceil8(h) == 0);
        }
        lemma_group_of_byte(i, w, ceil8(h));
        assert(ceil8(h) * 8 == h);
        assert((i / w) * 8 + k < h) by (nonlinear_arith)
            requires
                i / w < ceil8(h),
                ceil8(h) * 8 == h,
                k < 8,
        ;
    } else {
        let c = ceil8(w);
        assert(h * c == c * h) by (nonlinear_arith);
        if c == 0 {
            assert(h * c == 0);
        }
        lemma_group_of_byte(i, c, h);
        assert(c * 8 == w);
        assert((i % c) * 8 + k < w) by (nonlinear_arith)
            requires
                i % c < c,
                c * 8 == w,
                k < 8,
        ;
    }
}

/// The byte count of a frame (`BinaryFrame::frame_size`) is the length of
/// its encoding (`BinaryFrame::to_bytes`), whatever the bit order and padding.
pub proof fn law_frame_size_is_encoded_length(
    f: BinaryFrame,
    format: ScanFormat,
    reverse_bits: bool,
    pad: bool,
)
    ensures
        f.scan_bytes(format, reverse_bits, pad).len() == scan_len(
            f.width as int,
            f.height as int,
            format,
        ),
{
    assert(scan_len(f.width as int, f.height as int, format) >= 0) by (nonlinear_arith)
        requires
            f.width >= 0,
            f.height >= 0,
    ;
}

/// Byte reversal ("字节位反转") acts on each output byte alone: the
/// encoding with reversal is, byte for byte, the bit-reversed encoding
/// without it.
pub proof fn law_reverse_bits_reverses_each_byte(f: BinaryFrame, format: ScanFormat, pad: bool)
    ensures
        f.scan_bytes(format, true, pad).len() == f.scan_bytes(format, false, pad).len(),
        forall|i: int|
            0 <= i < f.scan_bytes(format, true, pad).len() ==> #[trigger] f.scan_bytes(
                format,
                true,
                pad,
            )[i] == reversed_byte(f.scan_bytes(format, false, pad)[i]),
{
    let r = f.scan_bytes(format, true, pad);
    let p = f.scan_bytes(format, false, pad);
    f.lemma_scan_bytes_encoded(format, true, pad, r);
    f.lemma_scan_bytes_encoded(format, false, pad, p);
    assert forall|i: int| 0 <= i < r.len() implies #[trigger] r[i] == reversed_byte(p[i]) by {
        lemma_reversed_byte_bits(p[i]);
        assert forall|b: int| 0 <= b < 8 implies bit_of(r[i], b) == bit_of(reversed_byte(p[i]), b) by {
            assert(bit_of(r[i], b) == f.scan_bit(format, pad, i, 7 - b));
            assert(bit_of(p[i], 7 - b) == f.scan_bit(format, pad, i, 7 - b));
        }
        lemma_byte_eq_by_bits(r[i], reversed_byte(p[i]));
    }
}

/// Padding ("未满 8 位填 1") touches only the idle bits: every bit that
/// holds a pixel of the frame is the same whether idle bits are filled
/// with 1 or with 0.
pub proof fn law_padding_touches_idle_bits_only(
    f: BinaryFrame,
    format: ScanFormat,
    reverse_bits: bool,
)
    ensures
        forall|i: int, b: int|
            0 <= i < scan_len(f.width as int, f.height as int, format) && 0 <= b < 8 && ({
                let cell = scan_cell(
                    f.width as int,
                    f.height as int,
                    format,
                    i,
                    bit_for_pixel(
                        format,
                        if reverse_bits {
                            7 - b
                        } else {
                            b
                        },
                    ),
                );
                cell.0 < f.width && cell.1 < f.height
            }) ==> #[trigger] bit_of(f.scan_bytes(format, reverse_bits, true)[i], b) == bit_of(
                f.scan_bytes(format, reverse_bits, false)[i],
                b,
            ),
{
    let t = f.scan_bytes(format, reverse_bits, true);
    let z = f.scan_bytes(format, reverse_bits, false);
    f.lemma_scan_bytes_encoded(format, reverse_bits, true, t);
    f.lemma_scan_bytes_encoded(format, reverse_bits, false, z);
}

/// A frame whose size along the packing direction is a multiple of eight
/// (its height for vertical formats, its width for horizontal ones) has no
/// idle bits: the padding choice does not change its encoding.
pub proof fn law_aligned_frames_ignore_padding(
    f: BinaryFrame,
    format: ScanFormat,
    reverse_bits: bool,
)
    requires
        format.vertical() ==> f.height % 8 == 0,
        !format.vertical() ==> f.width % 8 == 0,
    ensures
        f.scan_bytes(format, reverse_bits, true) == f.scan_bytes(format, reverse_bits, false),
{
    let w = f.width as int;
    let h = f.height as int;
    let t = f.scan_bytes(format, reverse_bits, true);
    let z = f.scan_bytes(format, reverse_bits, false);
    f.lemma_scan_bytes_encoded(format, reverse_bits, true, t);
    f.lemma_scan_bytes_encoded(format, reverse_bits, false, z);
    assert forall|i: int| 0 <= i < t.len() implies t[i] == z[i] by {
        assert forall|b: int| 0 <= b < 8 implies bit_of(t[i], b) == bit_of(z[i], b) by {
            let rb = if reverse_bits {
                7 - b
            } else {
                b
            };
            lemma_aligned_cells(w, h, format, i, bit_for_pixel(format, rb));
            assert(bit_of(t[i], b) == f.scan_bit(format, true, i, rb));
            assert(bit_of(z[i], b) == f.scan_bit(format, false, i, rb));
        }
        lemma_byte_eq_by_bits(t[i], z[i]);
    }
    assert(t =~= z);
}

/// The idle bits of `bytes` (those of a partial byte that hold no pixel of
/// the `w`×`h` frame) all hold `pad`.
pub open spec fn idle_bits_hold(
    bytes: Seq<u8>,
    w: int,
    h: int,
    format: ScanFormat,
    reverse_bits: bool,
    pad: bool,
) -> bool {
    forall|i: int, b: int|
        0 <= i < bytes.len() && 0 <= b < 8 && ({
            let cell = scan_cell(
                w,
                h,
                format,
                i,
                bit_for_pixel(
                    format,
                    if reverse_bits {
                        7 - b
                    } else {
                        b
                    },
                ),
            );
            !(cell.0 < w && cell.1 < h)
        }) ==> #[trigger] bit_of(bytes[i], b) == pad
}

/// Encoding a decoded frame gives the bytes back: when `bytes` has the
/// length of a `w`×`h` scan and its idle bits hold the padding, the frame
/// read from it (`bytes_to_binary_frame`) encodes (`to_bytes`, same format,
/// bit order and padding) to `bytes` again.
pub proof fn law_encode_after_decode(
    g: BinaryFrame,
    format: ScanFormat,
    reverse_bits: bool,
    pad: bool,
    bytes: Seq<u8>,
)
    requires
        bytes.len() == scan_len(g.width as int, g.height as int, format),
        idle_bits_hold(bytes, g.width as int, g.height as int, format, reverse_bits, pad),
        forall|x: int, y: int|
            0 <= x < g.width && 0 <= y < g.height ==> #[trigger] g.pixel(x, y) == decoded_pixel(
                bytes,
                g.width as int,
                g.height as int,
                format,
                reverse_bits,
                x,
                y,
            ),
    ensures
        g.scan_bytes(format, reverse_bits, pad) == bytes,
{
    let w = g.width as int;
    let h = g.height as int;
    assert forall|i: int, b: int| 0 <= i < bytes.len() && 0 <= b < 8 implies #[trigger] bit_of(
        bytes[i],
        b,
    ) == g.scan_bit(
        format,
        pad,
        i,
        if reverse_bits {
            7 - b
        } else {
            b
        },
    ) by {
        let rb = if reverse_bits {
            7 - b
        } else {
            b
        };
        let k = bit_for_pixel(format, rb);
        let cell = scan_cell(w, h, format, i, k);
        assert(bit_for_pixel(format, k) == rb);
        if cell.0 < w && cell.1 < h {
            assert(cell.0 >= 0 && cell.1 >= 0) by {
                if format.vertical() {
                    vstd::arithmetic::div_mod::lemma_mod_bound(i, w);
                    assert((i / w) >= 0) by {
                        vstd::arithmetic::div_mod::lemma_div_pos_is_pos(i, w);
                    }
                } else {
                    vstd::arithmetic::div_mod::lemma_mod_bound(i, ceil8(w));
                    vstd::arithmetic::div_mod::lemma_div_pos_is_pos(i, ceil8(w));
                }
            }
            lemma_cell_position(w, h, format, i, k);
            lemma_reversed_byte_bits(bytes[i]);
            assert(g.pixel(cell.0, cell.1) == decoded_pixel(
                bytes,
                w,
                h,
                format,
                reverse_bits,
                cell.0,
                cell.1,
            ));
        } else {
            assert(bit_of(bytes[i], b) == pad);
        }
    }
    g.lemma_scan_bytes_encoded(format, reverse_bits, pad, bytes);
}

/// Writing a pixel (`BinaryFrame::set_pixel`) and reading it back
/// (`BinaryFrame::get_pixel`) gives the written value, and every other
/// pixel keeps its value.
pub proof fn law_get_after_set(f: BinaryFrame, g: BinaryFrame, x: int, y: int, v: bool)
    requires
        f.covers(),
        0 <= x < f.width,
        0 <= y < f.height,
        g.width == f.width,
        g.height == f.height,
        g.pixels@ == f.pixels@.update(y * f.width + x, v),
    ensures
        g.pixel(x, y) == v,
        forall|x2: int, y2: int| (x2, y2) != (x, y) ==> #[trigger] g.pixel(x2, y2) == f.pixel(x2, y2),
{
    let w = f.width as int;
    crate::processor::lemma_pixel_index(x, y, w, f.height as int);
    assert forall|x2: int, y2: int| (x2, y2) != (x, y) implies #[trigger] g.pixel(x2, y2) == f.pixel(
        x2,
        y2,
    ) by {
        if 0 <= x2 < w && 0 <= y2 < f.height {
            crate::processor::lemma_pixel_index(x2, y2, w, f.height as int);
            assert(y2 * w + x2 != y * w + x) by (nonlinear_arith)
                requires
                    0 <= x < w,
                    0 <= x2 < w,
                    (x2, y2) != (x, y),
            {
                if y2 == y {
                } else if y2 < y {
                    assert(y2 * w + x2 < y * w) by (nonlinear_arith)
                        requires
                            y2 + 1 <= y,
                            x2 < w,
                            0 <= x2,
                    ;
                } else {
                    assert(y * w + x < y2 * w) by (nonlinear_arith)
                        requires
                            y + 1 <= y2,
                            x < w,
                            0 <= x,
                    ;
                }
            }
        }
    }
}

/// Inverting ("反色") swaps lit and dark on every output pixel that a
/// source pixel lands on; where none lands the pixel stays dark either way.
pub proof fn law_invert_swaps_covered_pixels(
    gray: Seq<u8>,
    sw: int,
    sh: int,
    ox: int,
    oy: int,
    params: ProcessParams,
    x: int,
    y: int,
)
    ensures
        ({
            let flipped = ProcessParams { invert: !params.invert, ..params };
            let covered = 0 <= x - ox < sw && 0 <= y - oy < sh && x < (params.width as i32) && y < (
            params.height as i32);
            &&& covered ==> placed_pixel(gray, sw, sh, ox, oy, flipped, x, y) == !placed_pixel(
                gray,
                sw,
                sh,
                ox,
                oy,
                params,
                x,
                y,
            )
            &&& !covered ==> !placed_pixel(gray, sw, sh, ox, oy, flipped, x, y) && !placed_pixel(
                gray,
                sw,
                sh,
                ox,
                oy,
                params,
                x,
                y,
            )
        }),
{
}

/// Raising the threshold ("阈值") never lights a pixel; with inversion
/// ("反色") it never darkens one.
pub proof fn law_threshold_monotone(
    gray: Seq<u8>,
    sw: int,
    sh: int,
    ox: int,
    oy: int,
    low: ProcessParams,
    high: ProcessParams,
    x: int,
    y: int,
)
    requires
        high == (ProcessParams { threshold: high.threshold, ..low }),
        low.threshold <= high.threshold,
    ensures
        !low.invert ==> (placed_pixel(gray, sw, sh, ox, oy, high, x, y) ==> placed_pixel(
            gray,
            sw,
            sh,
            ox,
            oy,
            low,
            x,
            y,
        )),
        low.invert ==> (placed_pixel(gray, sw, sh, ox, oy, low, x, y) ==> placed_pixel(
            gray,
            sw,
            sh,
            ox,
            oy,
            high,
            x,
            y,
        )),
{
}

/// Processing one image twice, at a lower and at a higher threshold and
/// otherwise alike, with the `Nearest` or `Triangle` filter: no pixel lit at
/// the higher threshold is dark at the lower one (the other way round with
/// inversion).
pub proof fn law_processed_threshold_monotone(
    img: RgbaPixels,
    sw: u32,
    sh: u32,
    ox: int,
    oy: int,
    low: ProcessParams,
    high: ProcessParams,
    f_low: BinaryFrame,
    f_high: BinaryFrame,
    g_low: Seq<u8>,
    g_high: Seq<u8>,
)
    requires
        high == (ProcessParams { threshold: high.threshold, ..low }),
        low.threshold <= high.threshold,
        exact_filter(low.filter),
        processed_from(f_low, g_low, img, sw, sh, ox, oy, low),
        processed_from(f_high, g_high, img, sw, sh, ox, oy, high),
    ensures
        f_low.width == f_high.width,
        f_low.height == f_high.height,
        forall|x: int, y: int|
            !low.invert ==> (#[trigger] f_high.pixel(x, y) ==> f_low.pixel(x, y)),
        forall|x: int, y: int|
            low.invert ==> (#[trigger] f_low.pixel(x, y) ==> f_high.pixel(x, y)),
{
    assert(g_low == g_high);
    assert forall|x: int, y: int| !low.invert implies (#[trigger] f_high.pixel(x, y) ==> f_low.pixel(
        x,
        y,
    )) by {
        if 0 <= x < low.width && 0 <= y < low.height {
            law_threshold_monotone(g_low, sw as int, sh as int, ox, oy, low, high, x, y);
        }
    }
    assert forall|x: int, y: int| low.invert implies (#[trigger] f_low.pixel(x, y) ==> f_high.pixel(
        x,
        y,
    )) by {
        if 0 <= x < low.width && 0 <= y < low.height {
            law_threshold_monotone(g_low, sw as int, sh as int, ox, oy, low, high, x, y);
        }
    }
}

} // verus!
