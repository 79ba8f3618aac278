//! Binarised frames and their encoding in the four scan formats, the
//! processing parameters, and the binarisation of a resized grey image.

use vstd::prelude::*;
use crate::bits::{
    bit_of, byte_from_bits, lemma_byte_eq_by_bits, lemma_byte_from_bits, lemma_set_bit,
    lemma_zero_bits, reverse_byte, reversed_byte,
};

verus! {

/// The four byte layouts ("scan formats") of a monochrome frame.
#[derive(Debug, Clone, Copy, PartialEq, Eq, Structural)]
pub enum ScanFormat {
    /// Column bytes, 8 rows each, bit 0 is the top row; pages of 8 rows, page-major.
    VerticalLsb,
    /// Column bytes, 8 rows each, bit 7 is the top row; pages of 8 rows, page-major.
    VerticalMsb,
    /// Row bytes, 8 columns each, bit 0 is the leftmost column.
    HorizontalLsb,
    /// Row bytes, 8 columns each, bit 7 is the leftmost column.
    HorizontalMsb,
}

impl ScanFormat {
    /// Whether bytes run down the columns.
    pub open spec fn vertical(self) -> bool {
        self is VerticalLsb || self is VerticalMsb
    }

    /// Whether the first pixel of a byte goes to bit 0.
    pub open spec fn lsb_first(self) -> bool {
        self is VerticalLsb || self is HorizontalLsb
    }

    /// All formats, in the order the user interface lists them.
    pub fn all() -> (r: &'static [ScanFormat])
        ensures
            r@ == seq![
                ScanFormat::VerticalLsb,
                ScanFormat::VerticalMsb,
                ScanFormat::HorizontalLsb,
                ScanFormat::HorizontalMsb,
            ],
    {
        &[
            ScanFormat::VerticalLsb,
            ScanFormat::VerticalMsb,
            ScanFormat::HorizontalLsb,
            ScanFormat::HorizontalMsb,
        ]
    }

    /// The format's name, as written into exported headers.
    pub fn name(&self) -> (r: &'static str)
        ensures
            r@ == format_name(*self),
    {
        match self {
            ScanFormat::VerticalLsb => "vertical_lsb",
            ScanFormat::VerticalMsb => "vertical_msb",
            ScanFormat::HorizontalLsb => "horizontal_lsb",
            ScanFormat::HorizontalMsb => "horizontal_msb",
        }
    }

    /// Whether bytes run down the columns (the height may leave a partial byte).
    pub fn is_vertical(&self) -> (r: bool)
        ensures
            r == self.vertical(),
    {
        matches!(self, ScanFormat::VerticalLsb | ScanFormat::VerticalMsb)
    }
}

/// Name of a scan format.
pub open spec fn format_name(f: ScanFormat) -> Seq<char> {
    match f {
        ScanFormat::VerticalLsb => "vertical_lsb"@,
        ScanFormat::VerticalMsb => "vertical_msb"@,
        ScanFormat::HorizontalLsb => "horizontal_lsb"@,
        ScanFormat::HorizontalMsb => "horizontal_msb"@,
    }
}


/// `ceil(n / 8)`: bytes needed for `n` pixels packed eight to a byte.
pub open spec fn ceil8(n: int) -> int {
    (n + 7) / 8
}

/// Number of bytes of one frame of size `w`×`h` in the given format.
pub open spec fn scan_len(w: int, h: int, format: ScanFormat) -> int {
    if format.vertical() {
        w * ceil8(h)
    } else {
        h * ceil8(w)
    }
}

/// Whether computing the byte count of a `w`×`h` frame stays inside the
/// machine integers (`u32` for the rounding, `usize` for the product).
pub open spec fn scan_len_fits(w: int, h: int, format: ScanFormat) -> bool {
    if format.vertical() {
        h + 7 <= u32::MAX && w * ceil8(h) <= usize::MAX
    } else {
        w + 7 <= u32::MAX && h * ceil8(w) <= usize::MAX
    }
}

/// Index of the pixel `k` of byte `i` of the scan, in scan order (the first
/// pixel of a byte is its pixel 0). For vertical formats bytes are
/// page-major (`i = page * w + column`), pixel `k` lies in row `8 * page + k`;
/// for horizontal formats `i = row * ceil8(w) + j`, pixel `k` lies in column
/// `8 * j + k`.
pub open spec fn scan_cell(w: int, h: int, format: ScanFormat, i: int, k: int) -> (int, int) {
    if format.vertical() {
        (i % w, (i / w) * 8 + k)
    } else {
        ((i % ceil8(w)) * 8 + k, i / ceil8(w))
    }
}

/// The bit of a byte that holds its pixel `k` (`k` for LSB formats, `7 - k` for MSB ones).
pub open spec fn bit_for_pixel(format: ScanFormat, k: int) -> int {
    if format.lsb_first() {
        k
    } else {
        7 - k
    }
}

/// The byte of a `w`×`h` scan that holds pixel `(x, y)`.
pub open spec fn pixel_byte(w: int, h: int, format: ScanFormat, x: int, y: int) -> int {
    if format.vertical() {
        (y / 8) * w + x
    } else {
        y * ceil8(w) + x / 8
    }
}

/// The position (pixel index inside its byte) of pixel `(x, y)`.
pub open spec fn pixel_slot(format: ScanFormat, x: int, y: int) -> int {
    if format.vertical() {
        y % 8
    } else {
        x % 8
    }
}

/// Pixel `(x, y)` as read back from `bytes`: the bit holding it, after
/// undoing the bit reversal; dark when `bytes` is too short to hold it.
pub open spec fn decoded_pixel(
    bytes: Seq<u8>,
    w: int,
    h: int,
    format: ScanFormat,
    reverse_bits: bool,
    x: int,
    y: int,
) -> bool {
    let i = pixel_byte(w, h, format, x, y);
    let byte = if reverse_bits {
        reversed_byte(bytes[i])
    } else {
        bytes[i]
    };
    i < bytes.len() && bit_of(byte, bit_for_pixel(format, pixel_slot(format, x, y)))
}

/// A binarised frame: `pixels[y * width + x]` is true for a lit pixel.
#[derive(Debug, Clone)]
pub struct BinaryFrame {
    pub width: u32,
    pub height: u32,
    pub pixels: Vec<bool>,
}

impl BinaryFrame {
    /// Every in-range pixel has its entry in `pixels`.
    pub open spec fn covers(&self) -> bool {
        self.width * self.height <= self.pixels.len()
    }

    /// The pixel at `(x, y)`; outside the frame every pixel is dark.
    pub open spec fn pixel(&self, x: int, y: int) -> bool {
        if 0 <= x < self.width && 0 <= y < self.height {
            self.pixels@[y * self.width + x]
        } else {
            false
        }
    }

    /// Pixel `k` of byte `i` of the scan: the frame's pixel, or `pad` for the
    /// unused positions of a partial last byte.
    pub open spec fn scan_pixel(&self, format: ScanFormat, pad: bool, i: int, k: int) -> bool {
        let (x, y) = scan_cell(self.width as int, self.height as int, format, i, k);
        if x < self.width && y < self.height {
            self.pixel(x, y)
        } else {
            pad
        }
    }

    /// Bit `b` of byte `i` of the scan, before any bit reversal.
    pub open spec fn scan_bit(&self, format: ScanFormat, pad: bool, i: int, b: int) -> bool {
        self.scan_pixel(format, pad, i, bit_for_pixel(format, b))
    }

    /// `bytes` is exactly this frame in the given format, bit order reversed
    /// inside each byte when `reverse_bits`, unused positions holding `pad`.
    pub open spec fn encoded_as(
        &self,
        format: ScanFormat,
        reverse_bits: bool,
        pad: bool,
        bytes: Seq<u8>,
    ) -> bool {
        &&& bytes.len() == scan_len(self.width as int, self.height as int, format)
        &&& forall|i: int, b: int|
            0 <= i < bytes.len() && 0 <= b < 8 ==> #[trigger] bit_of(bytes[i], b) == self.scan_bit(
                format,
                pad,
                i,
                if reverse_bits {
                    7 - b
                } else {
                    b
                },
            )
    }

    /// The frame in the given format: one byte per group of eight scan
    /// pixels (see `scan_bit`), bit order reversed inside each byte when
    /// `reverse_bits`, unused positions of a partial byte holding `pad`.
    pub open spec fn scan_bytes(&self, format: ScanFormat, reverse_bits: bool, pad: bool) -> Seq<u8> {
        Seq::new(
            scan_len(self.width as int, self.height as int, format) as nat,
            |i: int|
                byte_from_bits(
                    |b: int|
                        self.scan_bit(
                            format,
                            pad,
                            i,
                            if reverse_bits {
                                7 - b
                            } else {
                                b
                            },
                        ),
                ),
        )
    }

    /// `scan_bytes` holds, bit by bit, what `encoded_as` describes, and is
    /// the only sequence that does.
    pub proof fn lemma_scan_bytes_encoded(&self, format: ScanFormat, reverse_bits: bool, pad: bool, bytes: Seq<u8>)
        ensures
            self.encoded_as(format, reverse_bits, pad, self.scan_bytes(format, reverse_bits, pad)),
            self.encoded_as(format, reverse_bits, pad, bytes) ==> bytes == self.scan_bytes(format, reverse_bits, pad),
    {
        let s = self.scan_bytes(format, reverse_bits, pad);
        assert forall|i: int, b: int| 0 <= i < s.len() && 0 <= b < 8 implies #[trigger] bit_of(s[i], b) == self.scan_bit(
                format,
                pad,
                i,
                if reverse_bits {
                    7 - b
                } else {
                    b
                },
            ) by {
            lemma_byte_from_bits(|b: int|
                        self.scan_bit(
                            format,
                            pad,
                            i,
                            if reverse_bits {
                                7 - b
                            } else {
                                b
                            },
                        ));
        }
        if self.encoded_as(format, reverse_bits, pad, bytes) {
            assert forall|i: int| 0 <= i < bytes.len() implies bytes[i] == s[i] by {
                assert forall|b: int| 0 <= b < 8 implies bit_of(bytes[i], b) == bit_of(s[i], b) by {
                    assert(bit_of(bytes[i], b) == bit_of(s[i], b));
                }
                lemma_byte_eq_by_bits(bytes[i], s[i]);
            }
            assert(bytes =~= s);
        }
    }

    /// A dark frame of the given size.
    pub fn new(width: u32, height: u32) -> (f: Self)
        requires
            width * height <= u32::MAX,
        ensures
            f.width == width,
            f.height == height,
            f.pixels@.len() == width * height,
            forall|i: int| 0 <= i < f.pixels@.len() ==> !f.pixels@[i],
    {
        let n = (width * height) as usize;
        let mut pixels: Vec<bool> = Vec::new();
        let mut i: usize = 0;
        while i < n
            invariant
                i <= n,
                pixels@.len() == i,
                forall|j: int| 0 <= j < i ==> !pixels@[j],
            decreases n - i,
        {
            pixels.push(false);
            i = i + 1;
        }
        BinaryFrame { width, height, pixels }
    }

    /// Sets the pixel at `(x, y)`; a position outside the frame is ignored.
    pub fn set_pixel(&mut self, x: u32, y: u32, v: bool)
        requires
            x < old(self).width && y < old(self).height ==> y * old(self).width + x < old(
                self,
            ).pixels.len(),
        ensures
            final(self).width == old(self).width,
            final(self).height == old(self).height,
            x < old(self).width && y < old(self).height ==> final(self).pixels@ == old(
                self,
            ).pixels@.update(y * old(self).width + x, v),
            !(x < old(self).width && y < old(self).height) ==> final(self).pixels@ == old(
                self,
            ).pixels@,
    {
        if x >= self.width || y >= self.height {
            return ;
        }
        proof {
            vstd::arithmetic::mul::lemma_mul_nonnegative(y as int, self.width as int);
        }
        let idx = (y as usize) * (self.width as usize) + (x as usize);
        self.pixels.set(idx, v);
    }

    /// The pixel at `(x, y)`; dark outside the frame.
    pub fn get_pixel(&self, x: u32, y: u32) -> (r: bool)
        requires
            x < self.width && y < self.height ==> y * self.width + x < self.pixels.len(),
        ensures
            r == self.pixel(x as int, y as int),
    {
        if x >= self.width || y >= self.height {
            return false;
        }
        proof {
            vstd::arithmetic::mul::lemma_mul_nonnegative(y as int, self.width as int);
        }
        self.pixels[(y as usize) * (self.width as usize) + (x as usize)]
    }

    /// Bytes of one frame in the given format.
    pub fn frame_size(&self, format: ScanFormat) -> (r: usize)
        requires
            scan_len_fits(self.width as int, self.height as int, format),
        ensures
            r == scan_len(self.width as int, self.height as int, format),
    {
        match format {
            ScanFormat::VerticalLsb | ScanFormat::VerticalMsb => {
                let bytes_per_col = ((self.height + 7) / 8) as usize;
                (self.width as usize) * bytes_per_col
            },
            ScanFormat::HorizontalLsb | ScanFormat::HorizontalMsb => {
                let bytes_per_row = ((self.width + 7) / 8) as usize;
                (self.height as usize) * bytes_per_row
            },
        }
    }
}


/// The in-frame pixel `(x, y)` has a row-major index below `w * h`.
pub proof fn lemma_pixel_index(x: int, y: int, w: int, h: int)
    requires
        0 <= x < w,
        0 <= y < h,
    ensures
        0 <= y * w + x < w * h,
{
    assert(0 <= y * w + x < w * h) by (nonlinear_arith)
        requires
            0 <= x < w,
            0 <= y < h,
    ;
}

/// Byte `i` of a scan of `q` groups of `d` bytes lies in group `i / d < q`.
pub proof fn lemma_group_of_byte(i: int, d: int, q: int)
    requires
        0 <= i < d * q,
        0 < d,
    ensures
        0 <= i / d < q,
        0 <= i % d < d,
{
    assert(0 <= i / d < q) by (nonlinear_arith)
        requires
            0 <= i < d * q,
            0 < d,
    ;
    vstd::arithmetic::div_mod::lemma_mod_bound(i, d);
}

impl BinaryFrame {
    /// Byte `i` of the scan in the given format, before any bit reversal.
    fn scan_byte(&self, format: ScanFormat, pad: bool, i: usize) -> (r: u8)
        requires
            self.covers(),
            scan_len_fits(self.width as int, self.height as int, format),
            i < scan_len(self.width as int, self.height as int, format),
        ensures
            forall|b: int| 0 <= b < 8 ==> bit_of(r, b) == self.scan_bit(format, pad, i as int, b),
    {
        let w = self.width as usize;
        let h = self.height as usize;
        let vertical = format.is_vertical();
        let lsb = matches!(format, ScanFormat::VerticalLsb | ScanFormat::HorizontalLsb);
        let bpr = if vertical {
            0
        } else {
            (w + 7) / 8
        };
        let (base_x, base_y) = if vertical {
            proof {
                lemma_group_of_byte(i as int, w as int, ceil8(h as int));
            }
            (i % w, (i / w) * 8)
        } else {
            proof {
                vstd::arithmetic::mul::lemma_mul_is_commutative(h as int, ceil8(w as int));
                if bpr == 0 {
                    assert(h as int * ceil8(w as int) == 0);
                }
                lemma_group_of_byte(i as int, bpr as int, h as int);
            }
            ((i % bpr) * 8, i / bpr)
        };
        let mut byte: u8 = 0;
        let mut k: u8 = 0;
        proof {
            assert forall|b: int| 0 <= b < 8 implies !bit_of(byte, b) by {
                lemma_zero_bits(b as u8);
            }
        }
        while k < 8
            invariant
                0 <= k <= 8,
                self.covers(),
                w == self.width,
                h == self.height,
                vertical == format.vertical(),
                lsb == format.lsb_first(),
                !vertical ==> bpr == ceil8(w as int),
                vertical ==> w > 0 && base_x == (i as int) % (w as int) && base_y == ((i as int)
                    / (w as int)) * 8 && base_y <= h + 6,
                !vertical ==> bpr > 0 && base_x == ((i as int) % (bpr as int)) * 8 && base_y == (
                i as int) / (bpr as int) && base_x <= w + 6,
                forall|b: int|
                    0 <= b < 8 ==> bit_of(byte, b) == (bit_for_pixel(format, b) < k
                        && self.scan_pixel(format, pad, i as int, bit_for_pixel(format, b))),
            decreases 8 - k,
        {
            let (x, y) = if vertical {
                (base_x, base_y + k as usize)
            } else {
                (base_x + k as usize, base_y)
            };
            assert((x as int, y as int) == scan_cell(w as int, h as int, format, i as int, k as int));
            let v = if x < w && y < h {
                proof {
                    lemma_pixel_index(x as int, y as int, w as int, h as int);
                }
                self.get_pixel(x as u32, y as u32)
            } else {
                pad
            };
            let bit: u8 = if lsb {
                k
            } else {
                7 - k
            };
            let old_byte = byte;
            assert(v == self.scan_pixel(format, pad, i as int, k as int));
            assert(bit as int == bit_for_pixel(format, k as int));
            if v {
                byte = byte | (1u8 << bit);
            }
            proof {
                assert forall|b: int| 0 <= b < 8 implies bit_of(byte, b) == (bit_for_pixel(format, b)
                    < k + 1 && self.scan_pixel(format, pad, i as int, bit_for_pixel(format, b))) by {
                    let bu = b as u8;
                    assert(bit_of(old_byte, b) == ((old_byte >> bu) & 1u8 == 1u8));
                    assert(bit_of(byte, b) == ((byte >> bu) & 1u8 == 1u8));
                    if bit_for_pixel(format, b) == k {
                        assert(b == bit);
                        if v {
                            lemma_set_bit(old_byte, bit, bu);
                        }
                    } else {
                        assert(b != bit);
                        if v {
                            lemma_set_bit(old_byte, bit, bu);
                        }
                    }
                }
            }
            k = k + 1;
        }
        byte
    }

    /// The frame encoded in the given format ("取模"): byte `i`, bit `b` holds
    /// the scan pixel given by `scan_bit`, with bit order reversed inside every
    /// byte when `reverse_bits` is set. The unused positions of a partial last
    /// byte hold `pad_unused_bits_1`.
    pub fn to_bytes(&self, format: ScanFormat, reverse_bits: bool, pad_unused_bits_1: bool) -> (r:
        Vec<u8>)
        requires
            self.covers(),
            scan_len_fits(self.width as int, self.height as int, format),
        ensures
            r@ == self.scan_bytes(format, reverse_bits, pad_unused_bits_1),
            self.encoded_as(format, reverse_bits, pad_unused_bits_1, r@),
    {
        let n = self.frame_size(format);
        let mut result: Vec<u8> = Vec::new();
        let mut i: usize = 0;
        while i < n
            invariant
                self.covers(),
                scan_len_fits(self.width as int, self.height as int, format),
                n == scan_len(self.width as int, self.height as int, format),
                i <= n,
                result@.len() == i,
                forall|j: int, b: int|
                    0 <= j < i && 0 <= b < 8 ==> #[trigger] bit_of(result@[j], b) == self.scan_bit(
                        format,
                        pad_unused_bits_1,
                        j,
                        if reverse_bits {
                            7 - b
                        } else {
                            b
                        },
                    ),
            decreases n - i,
        {
            let byte = self.scan_byte(format, pad_unused_bits_1, i);
            let out = if reverse_bits {
                reverse_byte(byte)
            } else {
                byte
            };
            result.push(out);
            i = i + 1;
        }
        proof {
            self.lemma_scan_bytes_encoded(format, reverse_bits, pad_unused_bits_1, result@);
        }
        result
    }
}


/// How the source image is fitted to the output size.
#[derive(Debug, Clone, Copy, PartialEq, Eq, Structural)]
pub enum ScaleMode {
    /// Keep the aspect ratio, centre, leave the rest dark.
    KeepAspect,
    /// Stretch to the output size.
    Stretch,
    /// Keep the aspect ratio, centre, crop what exceeds the output.
    Crop,
}

impl ScaleMode {
    /// All modes, in the order the user interface lists them.
    pub fn all() -> (r: &'static [ScaleMode])
        ensures
            r@ == seq![ScaleMode::KeepAspect, ScaleMode::Stretch, ScaleMode::Crop],
    {
        &[ScaleMode::KeepAspect, ScaleMode::Stretch, ScaleMode::Crop]
    }

    /// The mode's display name.
    pub fn name(&self) -> (r: &'static str)
        ensures
            r@ == scale_mode_name(*self),
    {
        match self {
            ScaleMode::KeepAspect => "等比缩放",
            ScaleMode::Stretch => "拉伸填充",
            ScaleMode::Crop => "等比裁剪",
        }
    }
}

/// Display name of a scale mode.
pub open spec fn scale_mode_name(m: ScaleMode) -> Seq<char> {
    match m {
        ScaleMode::KeepAspect => "等比缩放"@,
        ScaleMode::Stretch => "拉伸填充"@,
        ScaleMode::Crop => "等比裁剪"@,
    }
}

/// Resampling filter used when the source image is resized.
#[derive(Debug, Clone, Copy, PartialEq, Eq, Structural)]
pub enum ResizeFilter {
    Nearest,
    Triangle,
    CatmullRom,
    Gaussian,
    Lanczos3,
}

/// Processing parameters.
#[derive(Debug, Clone, Copy, PartialEq, Eq, Structural)]
pub struct ProcessParams {
    /// Output width in pixels.
    pub width: u32,
    /// Output height in pixels.
    pub height: u32,
    /// Binarisation threshold: grey levels at or above it are lit.
    pub threshold: u8,
    /// Scan format of the output bytes.
    pub format: ScanFormat,
    /// How the source is fitted to the output size.
    pub scale_mode: ScaleMode,
    /// Light the dark pixels instead.
    pub invert: bool,
    /// Resampling filter.
    pub filter: ResizeFilter,
    /// Reverse the bit order inside each output byte.
    pub reverse_bits: bool,
    /// Fill the unused bits of a partial last byte with 1.
    pub pad_unused_bits_1: bool,
}

impl Default for ProcessParams {
    fn default() -> (r: Self)
        ensures
            r == (ProcessParams {
                width: 128,
                height: 64,
                threshold: 128,
                format: ScanFormat::VerticalLsb,
                scale_mode: ScaleMode::KeepAspect,
                invert: false,
                filter: ResizeFilter::Lanczos3,
                reverse_bits: false,
                pad_unused_bits_1: false,
            }),
    {
        ProcessParams {
            width: 128,
            height: 64,
            threshold: 128,
            format: ScanFormat::VerticalLsb,
            scale_mode: ScaleMode::KeepAspect,
            invert: false,
            filter: ResizeFilter::Lanczos3,
            reverse_bits: false,
            pad_unused_bits_1: false,
        }
    }
}

/// Whether a grey level is lit: at or above the threshold, or below it
/// when inverted.
pub open spec fn lit(luma: u8, threshold: u8, invert: bool) -> bool {
    if invert {
        luma < threshold
    } else {
        luma >= threshold
    }
}

/// Output pixel `(x, y)` when the `sw`×`sh` grey image is placed with its
/// top-left corner at `(ox, oy)`: the binarised source pixel under it, or
/// dark where no source pixel lands. The canvas is `width`×`height`,
/// compared as `i32` values (as the placement arithmetic is done in `i32`).
pub open spec fn placed_pixel(
    gray: Seq<u8>,
    sw: int,
    sh: int,
    ox: int,
    oy: int,
    params: ProcessParams,
    x: int,
    y: int,
) -> bool {
    let sx = x - ox;
    let sy = y - oy;
    if 0 <= sx < sw && 0 <= sy < sh && x < (params.width as i32) && y < (params.height as i32) {
        lit(gray[sy * sw + sx], params.threshold, params.invert)
    } else {
        false
    }
}

/// Binarises a resized grey image (`gray`, `scaled_w`×`scaled_h`, row-major)
/// onto the output canvas of `params`, its top-left corner at
/// `(offset_x, offset_y)`; pixels where no source pixel lands stay dark.
pub fn binarize_placed(
    gray: &Vec<u8>,
    scaled_w: u32,
    scaled_h: u32,
    offset_x: i32,
    offset_y: i32,
    params: &ProcessParams,
) -> (f: BinaryFrame)
    requires
        scaled_w * scaled_h <= gray@.len(),
        params.width * params.height <= u32::MAX,
        scaled_w <= i32::MAX + 1,
        scaled_h <= i32::MAX + 1,
        scaled_w == 0 || scaled_w - 1 + offset_x <= i32::MAX,
        scaled_h == 0 || scaled_h - 1 + offset_y <= i32::MAX,
    ensures
        f.width == params.width,
        f.height == params.height,
        f.pixels@.len() == params.width * params.height,
        forall|x: int, y: int|
            0 <= x < params.width && 0 <= y < params.height ==> #[trigger] f.pixel(x, y)
                == placed_pixel(
                gray@,
                scaled_w as int,
                scaled_h as int,
                offset_x as int,
                offset_y as int,
                *params,
                x,
                y,
            ),
{
    let mut frame = BinaryFrame::new(params.width, params.height);
    let ghost w = params.width as int;
    let ghost h = params.height as int;
    let cw = #[verifier::truncate] (params.width as i32);
    let ch = #[verifier::truncate] (params.height as i32);
    proof {
        assert forall|x: int, yy: int| 0 <= x < w && 0 <= yy < h implies #[trigger] frame.pixel(x, yy)
            == false by {
            lemma_pixel_index(x, yy, w, h);
        }
    }
    let mut y: u32 = 0;
    while y < scaled_h
        invariant
            y <= scaled_h,
            scaled_w * scaled_h <= gray@.len(),
            w == params.width,
            h == params.height,
            cw == (params.width as i32),
            ch == (params.height as i32),
            w * h <= u32::MAX,
            scaled_w <= i32::MAX + 1,
            scaled_h <= i32::MAX + 1,
            scaled_w == 0 || scaled_w - 1 + offset_x <= i32::MAX,
            scaled_h == 0 || scaled_h - 1 + offset_y <= i32::MAX,
            frame.width == params.width,
            frame.height == params.height,
            frame.pixels@.len() == w * h,
            forall|x: int, yy: int|
                0 <= x < w && 0 <= yy < h ==> #[trigger] frame.pixel(x, yy) == (if yy - offset_y
                    < y {
                    placed_pixel(
                        gray@,
                        scaled_w as int,
                        scaled_h as int,
                        offset_x as int,
                        offset_y as int,
                        *params,
                        x,
                        yy,
                    )
                } else {
                    false
                }),
        decreases scaled_h - y,
    {
        let dst_y = (y as i32) + offset_y;
        if dst_y < 0 || dst_y >= ch {
            proof {
                assert forall|x: int, yy: int|
                    0 <= x < w && 0 <= yy < h implies #[trigger] frame.pixel(x, yy) == (if yy
                    - offset_y < y + 1 {
                    placed_pixel(
                        gray@,
                        scaled_w as int,
                        scaled_h as int,
                        offset_x as int,
                        offset_y as int,
                        *params,
                        x,
                        yy,
                    )
                } else {
                    false
                }) by {
                    if yy - offset_y == y {
                        assert(!placed_pixel(
                            gray@,
                            scaled_w as int,
                            scaled_h as int,
                            offset_x as int,
                            offset_y as int,
                            *params,
                            x,
                            yy,
                        ));
                    }
                }
            }
            y = y + 1;
            continue;
        }
        let mut x: u32 = 0;
        while x < scaled_w
            invariant
                x <= scaled_w,
                y < scaled_h,
                0 <= dst_y < ch,
                dst_y == y + offset_y,
                scaled_w * scaled_h <= gray@.len(),
                w == params.width,
                h == params.height,
                cw == (params.width as i32),
                ch == (params.height as i32),
                w * h <= u32::MAX,
                scaled_w <= i32::MAX + 1,
                scaled_w == 0 || scaled_w - 1 + offset_x <= i32::MAX,
                frame.width == params.width,
                frame.height == params.height,
                frame.pixels@.len() == w * h,
                forall|xx: int, yy: int|
                    0 <= xx < w && 0 <= yy < h ==> #[trigger] frame.pixel(xx, yy) == (if yy
                        - offset_y < y || (yy - offset_y == y && xx - offset_x < x) {
                        placed_pixel(
                            gray@,
                            scaled_w as int,
                            scaled_h as int,
                            offset_x as int,
                            offset_y as int,
                            *params,
                            xx,
                            yy,
                        )
                    } else {
                        false
                    }),
            decreases scaled_w - x,
        {
            let dst_x = (x as i32) + offset_x;
            if dst_x >= 0 && dst_x < cw {
                proof {
                    lemma_pixel_index(x as int, y as int, scaled_w as int, scaled_h as int);
                    assert(dst_y as int <= h) by {
                        if h > i32::MAX {
                        }
                    }
                }
                let glen = gray.len();
                assert((y as int) * (scaled_w as int) + (x as int) < glen);
                assert(0 <= (y as int) * (scaled_w as int)) by (nonlinear_arith)
                    requires
                        0 <= y,
                        0 <= scaled_w,
                ;
                let idx = (y as usize) * (scaled_w as usize) + (x as usize);
                let luma = gray[idx];
                let fg = if params.invert {
                    luma < params.threshold
                } else {
                    luma >= params.threshold
                };
                let ghost before = frame;
                proof {
                    lemma_pixel_index(dst_x as int, dst_y as int, w, h);
                }
                frame.set_pixel(dst_x as u32, dst_y as u32, fg);
                proof {
                    assert forall|xx: int, yy: int|
                        0 <= xx < w && 0 <= yy < h implies #[trigger] frame.pixel(xx, yy) == (if yy
                        - offset_y < y || (yy - offset_y == y && xx - offset_x < x + 1) {
                        placed_pixel(
                            gray@,
                            scaled_w as int,
                            scaled_h as int,
                            offset_x as int,
                            offset_y as int,
                            *params,
                            xx,
                            yy,
                        )
                    } else {
                        false
                    }) by {
                        assert(before.pixel(xx, yy) == before.pixels@[yy * w + xx]);
                        assert(frame.pixel(xx, yy) == frame.pixels@[yy * w + xx]);
                        if xx == dst_x && yy == dst_y {
                        } else {
                            lemma_pixel_index(xx, yy, w, h);
                            assert(yy * w + xx != dst_y * w + dst_x) by (nonlinear_arith)
                                requires
                                    0 <= xx < w,
                                    0 <= yy < h,
                                    0 <= dst_x < w,
                                    0 <= dst_y < h,
                                    xx != dst_x || yy != dst_y,
                            ;
                        }
                    }
                }
            } else {
                proof {
                    assert forall|xx: int, yy: int|
                        0 <= xx < w && 0 <= yy < h implies #[trigger] frame.pixel(xx, yy) == (if yy
                        - offset_y < y || (yy - offset_y == y && xx - offset_x < x + 1) {
                        placed_pixel(
                            gray@,
                            scaled_w as int,
                            scaled_h as int,
                            offset_x as int,
                            offset_y as int,
                            *params,
                            xx,
                            yy,
                        )
                    } else {
                        false
                    }) by {
                        if yy - offset_y == y && xx - offset_x == x {
                            assert(!placed_pixel(
                                gray@,
                                scaled_w as int,
                                scaled_h as int,
                                offset_x as int,
                                offset_y as int,
                                *params,
                                xx,
                                yy,
                            ));
                        }
                    }
                }
            }
            x = x + 1;
        }
        proof {
            assert forall|xx: int, yy: int|
                0 <= xx < w && 0 <= yy < h implies #[trigger] frame.pixel(xx, yy) == (if yy
                - offset_y < y + 1 {
                placed_pixel(
                    gray@,
                    scaled_w as int,
                    scaled_h as int,
                    offset_x as int,
                    offset_y as int,
                    *params,
                    xx,
                    yy,
                )
            } else {
                false
            }) by {
                if yy - offset_y == y && xx - offset_x >= scaled_w {
                    assert(!placed_pixel(
                        gray@,
                        scaled_w as int,
                        scaled_h as int,
                        offset_x as int,
                        offset_y as int,
                        *params,
                        xx,
                        yy,
                    ));
                }
            }
        }
        y = y + 1;
    }
    proof {
        assert forall|x: int, yy: int|
            0 <= x < w && 0 <= yy < h implies #[trigger] frame.pixel(x, yy) == placed_pixel(
            gray@,
            scaled_w as int,
            scaled_h as int,
            offset_x as int,
            offset_y as int,
            *params,
            x,
            yy,
        ) by {
            if yy - offset_y >= scaled_h {
                assert(!placed_pixel(
                    gray@,
                    scaled_w as int,
                    scaled_h as int,
                    offset_x as int,
                    offset_y as int,
                    *params,
                    x,
                    yy,
                ));
            }
        }
    }
    frame
}


/// A source image as plain values: `width`×`height` pixels, row-major,
/// four bytes (R, G, B, A) per pixel.
pub struct RgbaPixels {
    pub width: u32,
    pub height: u32,
    pub rgba: Vec<u8>,
}

impl RgbaPixels {
    /// Every pixel has its four bytes, and no more bytes are held.
    pub open spec fn well_formed(&self) -> bool {
        self.rgba@.len() == 4 * self.width * self.height
    }
}

/// Why an image could not be processed.
#[derive(Debug, Clone, Copy, PartialEq, Eq, Structural)]
pub enum ProcessError {
    /// The source image has no pixel (zero width or height).
    EmptyImage,
}

/// The grey levels (one byte per pixel, row-major) of the `w`×`h` RGBA image
/// `rgba` resized to `nw`×`nh` with `filter`, as the `image` crate computes
/// them with the `Nearest` and `Triangle` filters, whose kernels use basic
/// floating-point arithmetic only. (The other kernels use `sin`, `exp` and
/// `powi`, whose precision std leaves unspecified; no name is given to
/// their results.)
pub uninterp spec fn resized_luma(
    rgba: Seq<u8>,
    w: u32,
    h: u32,
    nw: u32,
    nh: u32,
    filter: ResizeFilter,
) -> Seq<u8>;

/// Whether `out` is a possible outcome of resizing the `w`×`h` RGBA image
/// `rgba` to `nw`×`nh` with `filter` in the `image` crate and taking its
/// grey levels: it ties the outcome to the image, size and filter handed to
/// the call, also for the filters whose results are not named (their
/// kernels use `sin`, `exp` and `powi`, whose precision std leaves open).
pub uninterp spec fn resample_outcome(
    rgba: Seq<u8>,
    w: u32,
    h: u32,
    nw: u32,
    nh: u32,
    filter: ResizeFilter,
    out: Seq<u8>,
) -> bool;

/// Whether the filter's resampling uses basic floating-point arithmetic
/// only (`Nearest`, `Triangle`).
pub open spec fn exact_filter(filter: ResizeFilter) -> bool {
    filter is Nearest || filter is Triangle
}

/// `image::DynamicImage::resize_exact` of the RGBA image (built with
/// `RgbaImage::from_raw`), converted with `to_luma8`: it holds one byte per
/// pixel of the new size; it is an outcome (`resample_outcome`) of the image,
/// size and filter handed over; with `Nearest` or `Triangle` the result is
/// named `resized_luma`. With the other filters nothing more is stated of the
/// grey levels, which rest on `sin`, `exp` and `powi`. The resampling buffers
/// (`4 * w * nh` and `4 * nw * nh` values) must fit `usize`, as
/// `ImageBuffer::new` panics otherwise.
#[verifier::external_body]
fn resize_to_luma(rgba: &Vec<u8>, w: u32, h: u32, nw: u32, nh: u32, filter: ResizeFilter) -> (r: Vec<u8>)
    requires
        rgba@.len() == 4 * w * h,
        4 * w * nh <= usize::MAX,
        4 * nw * nh <= usize::MAX,
    ensures
        exact_filter(filter) ==> r@ == resized_luma(rgba@, w, h, nw, nh, filter),
        resample_outcome(rgba@, w, h, nw, nh, filter, r@),
        r@.len() == nw * nh,
{
    let ft = match filter {
        ResizeFilter::Nearest => image::imageops::FilterType::Nearest,
        ResizeFilter::Triangle => image::imageops::FilterType::Triangle,
        ResizeFilter::CatmullRom => image::imageops::FilterType::CatmullRom,
        ResizeFilter::Gaussian => image::imageops::FilterType::Gaussian,
        ResizeFilter::Lanczos3 => image::imageops::FilterType::Lanczos3,
    };
    let img = image::RgbaImage::from_raw(w, h, rgba.clone()).unwrap();
    image::DynamicImage::ImageRgba8(img).resize_exact(nw, nh, ft).to_luma8().into_raw()
}

/// The frame is `gray` (`sw`×`sh` grey levels) binarised onto the canvas of
/// `params` with its top-left corner at `(ox, oy)` (see `binarize_placed`).
pub open spec fn frame_from_gray(
    f: BinaryFrame,
    gray: Seq<u8>,
    sw: int,
    sh: int,
    ox: int,
    oy: int,
    params: ProcessParams,
) -> bool {
    &&& f.width == params.width
    &&& f.height == params.height
    &&& f.pixels@.len() == params.width * params.height
    &&& forall|x: int, y: int|
        0 <= x < params.width && 0 <= y < params.height ==> #[trigger] f.pixel(x, y)
            == placed_pixel(gray, sw, sh, ox, oy, params, x, y)
}

/// The frame is what processing `img` gives through the grey levels
/// `gray`: they have the scaled size, are an outcome of resampling the image
/// to that size with the parameters' filter (`resample_outcome`; the
/// image's `resized_luma` with the `Nearest` and `Triangle` filters), and
/// are binarised into the frame (`frame_from_gray`).
pub open spec fn processed_from(
    f: BinaryFrame,
    gray: Seq<u8>,
    img: RgbaPixels,
    sw: u32,
    sh: u32,
    ox: int,
    oy: int,
    params: ProcessParams,
) -> bool {
    &&& gray.len() == sw * sh
    &&& resample_outcome(img.rgba@, img.width, img.height, sw, sh, params.filter, gray)
    &&& exact_filter(params.filter) ==> gray == resized_luma(
        img.rgba@,
        img.width,
        img.height,
        sw,
        sh,
        params.filter,
    )
    &&& frame_from_gray(f, gray, sw as int, sh as int, ox, oy, params)
}

/// Processes one source image ("取模" of a frame): an empty image is refused;
/// otherwise the image is resized to `scaled_w`×`scaled_h` with the
/// parameters' filter, turned to grey levels (`resized_luma` with the
/// `Nearest` and `Triangle` filters), and binarised onto the output canvas
/// with its top-left corner at `(offset_x, offset_y)` (see
/// `binarize_placed`). The scaled size and offset are those of
/// `calculate_scaled_size` for the parameters' scale mode.
pub fn process_image(
    img: &RgbaPixels,
    scaled_w: u32,
    scaled_h: u32,
    offset_x: i32,
    offset_y: i32,
    params: &ProcessParams,
) -> (r: Result<BinaryFrame, ProcessError>)
    requires
        img.well_formed(),
        params.width * params.height <= u32::MAX,
        4 * img.width * scaled_h <= usize::MAX,
        4 * scaled_w * scaled_h <= usize::MAX,
        scaled_w <= i32::MAX + 1,
        scaled_h <= i32::MAX + 1,
        scaled_w == 0 || scaled_w - 1 + offset_x <= i32::MAX,
        scaled_h == 0 || scaled_h - 1 + offset_y <= i32::MAX,
    ensures
        (img.width == 0 || img.height == 0) <==> r == Err::<BinaryFrame, ProcessError>(
            ProcessError::EmptyImage,
        ),
        r matches Ok(f) ==> exists|gray: Seq<u8>|
            #[trigger] processed_from(
                f,
                gray,
                *img,
                scaled_w,
                scaled_h,
                offset_x as int,
                offset_y as int,
                *params,
            ),
{
    if img.width == 0 || img.height == 0 {
        return Err(ProcessError::EmptyImage);
    }
    let gray = resize_to_luma(&img.rgba, img.width, img.height, scaled_w, scaled_h, params.filter);
    let f = binarize_placed(&gray, scaled_w, scaled_h, offset_x, offset_y, params);
    let ghost witness = gray@;
    assert(exists|g2: Seq<u8>|
        #[trigger] processed_from(
            f,
            g2,
            *img,
            scaled_w,
            scaled_h,
            offset_x as int,
            offset_y as int,
            *params,
        )) by {
        assert(processed_from(
            f,
            witness,
            *img,
            scaled_w,
            scaled_h,
            offset_x as int,
            offset_y as int,
            *params,
        ));
    }
    let r: Result<BinaryFrame, ProcessError> = Ok(f);
    assert(r->Ok_0 == f);
    r
}

/// Channel `j` (R, G, B, A) of the colour a pixel is shown in: lit pixels
/// are opaque white, dark ones opaque black.
pub open spec fn rgba_channel(lit: bool, j: int) -> u8 {
    if lit || j == 3 {
        0xFF
    } else {
        0x00
    }
}

impl BinaryFrame {
    /// The frame as RGBA bytes for display, row-major, four bytes per pixel.
    pub fn to_rgba8(&self) -> (r: Vec<u8>)
        requires
            self.covers(),
            self.width * self.height * 4 <= u32::MAX,
        ensures
            r@.len() == 4 * (self.width * self.height),
            forall|x: int, y: int, j: int|
                0 <= x < self.width && 0 <= y < self.height && 0 <= j < 4 ==> #[trigger] r@[4 * (y
                    * self.width + x) + j] == rgba_channel(self.pixel(x, y), j),
    {
        let w = self.width;
        let h = self.height;
        let mut rgba: Vec<u8> = Vec::new();
        let mut y: u32 = 0;
        while y < h
            invariant
                y <= h,
                w == self.width,
                h == self.height,
                self.covers(),
                w * h * 4 <= u32::MAX,
                rgba@.len() == 4 * (y * w),
                forall|px: int, py: int, j: int|
                    0 <= px < w && 0 <= py < y && 0 <= j < 4 ==> #[trigger] rgba@[4 * (py * w + px)
                        + j] == rgba_channel(self.pixel(px, py), j),
            decreases h - y,
        {
            let mut x: u32 = 0;
            while x < w
                invariant
                    y < h,
                    x <= w,
                    w == self.width,
                    h == self.height,
                    self.covers(),
                    w * h * 4 <= u32::MAX,
                    rgba@.len() == 4 * (y * w + x),
                    forall|px: int, py: int, j: int|
                        0 <= px < w && 0 <= py < y && 0 <= j < 4 ==> #[trigger] rgba@[4 * (py * w
                            + px) + j] == rgba_channel(self.pixel(px, py), j),
                    forall|px: int, j: int|
                        0 <= px < x && 0 <= j < 4 ==> #[trigger] rgba@[4 * (y * w + px) + j]
                            == rgba_channel(self.pixel(px, y as int), j),
                decreases w - x,
            {
                proof {
                    lemma_pixel_index(x as int, y as int, w as int, h as int);
                }
                let lit = self.get_pixel(x, y);
                let ghost before = rgba@;
                if lit {
                    rgba.push(0xFF);
                    rgba.push(0xFF);
                    rgba.push(0xFF);
                    rgba.push(0xFF);
                } else {
                    rgba.push(0x00);
                    rgba.push(0x00);
                    rgba.push(0x00);
                    rgba.push(0xFF);
                }
                proof {
                    assert forall|px: int, py: int, j: int|
                        0 <= px < w && 0 <= py < y && 0 <= j < 4 implies #[trigger] rgba@[4 * (py * w
                        + px) + j] == rgba_channel(self.pixel(px, py), j) by {
                        assert(py * w + px < y * w) by (nonlinear_arith)
                            requires
                                0 <= px < w,
                                0 <= py < y,
                        ;
                        assert(rgba@[4 * (py * w + px) + j] == before[4 * (py * w + px) + j]);
                    }
                    assert forall|px: int, j: int|
                        0 <= px < x + 1 && 0 <= j < 4 implies #[trigger] rgba@[4 * (y * w + px) + j]
                        == rgba_channel(self.pixel(px, y as int), j) by {
                        if px < x {
                            assert(rgba@[4 * (y * w + px) + j] == before[4 * (y * w + px) + j]);
                        }
                    }
                }
                x = x + 1;
            }
            proof {
                assert forall|px: int, py: int, j: int|
                    0 <= px < w && 0 <= py < y + 1 && 0 <= j < 4 implies #[trigger] rgba@[4 * (py
                    * w + px) + j] == rgba_channel(self.pixel(px, py), j) by {
                    if py == y {
                        assert(rgba@[4 * (y * w + px) + j] == rgba_channel(
                            self.pixel(px, y as int),
                            j,
                        ));
                    }
                }
                assert((y + 1) * w == y * w + w) by (nonlinear_arith);
            }
            y = y + 1;
        }
        proof {
            assert(h * w == w * h) by (nonlinear_arith);
        }
        rgba
    }
}

} // verus!
