//! Reading a C header back: the header grammar (size macros, array
//! declarations, format line), the initialiser scanner, and the decoding of
//! frame bytes into frames.

use vstd::prelude::*;
use crate::bits::lemma_reversed_byte_bits;
use crate::text::{byte_points, chars_of, code_points, is_hex_digit, parse_u64_points, parsed_u64, points_of};
use crate::patterns::{find_matches, match_view, matches_view, regex_matches, PatternMatch};
use crate::text::string_from_chars;
use vstd::utf8::encode_utf8;
use crate::processor::{
    decoded_pixel, lemma_pixel_index, pixel_byte, pixel_slot, scan_len, scan_len_fits,
    BinaryFrame, ScanFormat, ceil8,
};

verus! {

/// Why a header could not be read back.
#[derive(Debug, Clone, PartialEq, Eq)]
pub enum ImportError {
    /// No `*_WIDTH` / `*_HEIGHT` / `*_FRAME_SIZE` / `*_FRAME_COUNT` macro.
    NoSizeMacros,
    /// The chosen macro prefix has no `*_WIDTH`.
    MissingWidth,
    /// The chosen macro prefix has no `*_HEIGHT`.
    MissingHeight,
    /// No two-dimensional `uint8_t` / `unsigned char` array declaration.
    NoArray,
    /// Fewer bytes than the declaration asks for.
    NotEnoughBytes {
        frame_count: usize,
        frame_size: usize,
        found: usize,
        array_prefix: String,
        macro_prefix: String,
    },
    /// A size read from the header overflows the machine integers (or
    /// divides by zero) in the computations the header asks for.
    Arithmetic,
    /// A pattern of the header grammar could not be compiled.
    Pattern,
}

/// Reads pixel `(x, y)` back from the encoded bytes.
fn decode_pixel(
    bytes: &Vec<u8>,
    w: u32,
    h: u32,
    format: ScanFormat,
    reverse_bits: bool,
    x: u32,
    y: u32,
) -> (r: bool)
    requires
        x < w,
        y < h,
        scan_len_fits(w as int, h as int, format),
        w * h <= u32::MAX,
    ensures
        r == decoded_pixel(bytes@, w as int, h as int, format, reverse_bits, x as int, y as int),
{
    let vertical = format.is_vertical();
    proof {
        lemma_pixel_index(x as int, y as int, w as int, h as int);
    }
    let (i, slot) = if vertical {
        proof {
            assert((y / 8) * w + x <= y * w + x) by (nonlinear_arith)
                requires
                    0 <= y,
                    0 <= w,
            ;
        }
        ((y / 8) as usize * w as usize + x as usize, y % 8)
    } else {
        let bpr = ((w + 7) / 8) as usize;
        proof {
            assert(y * ceil8(w as int) + x / 8 <= y * ceil8(w as int) + ceil8(w as int));
            assert(y * ceil8(w as int) + ceil8(w as int) == (y + 1) * ceil8(w as int)) by (
            nonlinear_arith);
            assert((y + 1) * ceil8(w as int) <= h * ceil8(w as int)) by (nonlinear_arith)
                requires
                    y + 1 <= h,
                    0 <= ceil8(w as int),
            ;
        }
        (y as usize * bpr + (x / 8) as usize, x % 8)
    };
    assert(i as int == pixel_byte(w as int, h as int, format, x as int, y as int));
    assert(slot as int == pixel_slot(format, x as int, y as int));
    if i >= bytes.len() {
        return false;
    }
    let byte = bytes[i];
    let pos: u8 = if matches!(format, ScanFormat::VerticalLsb | ScanFormat::HorizontalLsb) {
        slot as u8
    } else {
        7 - slot as u8
    };
    let bit: u8 = if reverse_bits {
        7 - pos
    } else {
        pos
    };
    proof {
        lemma_reversed_byte_bits(byte);
    }
    (byte >> bit) & 1u8 == 1u8
}

/// Bytes → frame, the inverse of `BinaryFrame::to_bytes`: pixel `(x, y)` is
/// read from the bit that holds it (`decoded_pixel`).
pub fn bytes_to_binary_frame(
    bytes: Vec<u8>,
    w: u32,
    h: u32,
    format: ScanFormat,
    reverse_bits: bool,
) -> (r: Result<BinaryFrame, ImportError>)
    requires
        w * h <= u32::MAX,
        scan_len_fits(w as int, h as int, format),
    ensures
        r matches Ok(f) && f.width == w && f.height == h && f.pixels@.len() == w * h && forall|
            x: int,
            y: int,
        |
            0 <= x < w && 0 <= y < h ==> #[trigger] f.pixel(x, y) == decoded_pixel(
                bytes@,
                w as int,
                h as int,
                format,
                reverse_bits,
                x,
                y,
            ),
{
    let n = (w * h) as usize;
    let mut pixels: Vec<bool> = Vec::new();
    let mut y: u32 = 0;
    while y < h
        invariant
            y <= h,
            n == w * h,
            w * h <= u32::MAX,
            scan_len_fits(w as int, h as int, format),
            pixels@.len() == y * w,
            forall|px: int, py: int|
                0 <= px < w && 0 <= py < y ==> #[trigger] pixels@[py * w + px] == decoded_pixel(
                    bytes@,
                    w as int,
                    h as int,
                    format,
                    reverse_bits,
                    px,
                    py,
                ),
        decreases h - y,
    {
        let mut x: u32 = 0;
        while x < w
            invariant
                y < h,
                x <= w,
                w * h <= u32::MAX,
                scan_len_fits(w as int, h as int, format),
                pixels@.len() == y * w + x,
                forall|px: int, py: int|
                    0 <= px < w && 0 <= py < y ==> #[trigger] pixels@[py * w + px] == decoded_pixel(
                        bytes@,
                        w as int,
                        h as int,
                        format,
                        reverse_bits,
                        px,
                        py,
                    ),
                forall|px: int|
                    0 <= px < x ==> #[trigger] pixels@[y * w + px] == decoded_pixel(
                        bytes@,
                        w as int,
                        h as int,
                        format,
                        reverse_bits,
                        px,
                        y as int,
                    ),
            decreases w - x,
        {
            let v = decode_pixel(&bytes, w, h, format, reverse_bits, x, y);
            let ghost old_pixels = pixels@;
            pixels.push(v);
            proof {
                assert forall|px: int, py: int|
                    0 <= px < w && 0 <= py < y implies #[trigger] pixels@[py * w + px]
                    == decoded_pixel(bytes@, w as int, h as int, format, reverse_bits, px, py) by {
                    assert(py * w + px < y * w) by (nonlinear_arith)
                        requires
                            0 <= px < w,
                            0 <= py < y,
                    ;
                    assert(pixels@[py * w + px] == old_pixels[py * w + px]);
                }
            }
            x = x + 1;
        }
        proof {
            assert forall|px: int, py: int|
                0 <= px < w && 0 <= py < y + 1 implies #[trigger] pixels@[py * w + px]
                == decoded_pixel(bytes@, w as int, h as int, format, reverse_bits, px, py) by {
                if py == y {
                    assert(pixels@[y * w + px] == decoded_pixel(
                        bytes@,
                        w as int,
                        h as int,
                        format,
                        reverse_bits,
                        px,
                        y as int,
                    ));
                }
            }
            assert((y + 1) * w == y * w + w) by (nonlinear_arith);
        }
        y = y + 1;
    }
    let frame = BinaryFrame { width: w, height: h, pixels };
    proof {
        assert(h * w == w * h) by (nonlinear_arith);
        assert forall|x: int, y: int| 0 <= x < w && 0 <= y < h implies #[trigger] frame.pixel(x, y)
            == decoded_pixel(bytes@, w as int, h as int, format, reverse_bits, x, y) by {
            assert(frame.pixel(x, y) == frame.pixels@[y * w + x]);
        }
    }
    Ok(frame)
}


/// The hexadecimal digits of a token, in order.
pub open spec fn hex_only(tok: Seq<u8>) -> Seq<u8>
    decreases tok.len(),
{
    if tok.len() == 0 {
        Seq::empty()
    } else {
        hex_only(tok.drop_last()) + if is_hex_digit(tok.last() as u32) {
            seq![tok.last()]
        } else {
            Seq::empty()
        }
    }
}

/// The byte a number token of the initialiser stands for: its hexadecimal
/// digits read in base 16 (or, should that overflow `u64`, in base 10), when
/// there is at least one digit and the value is at most `0xFF`.
pub open spec fn token_byte(tok: Seq<u8>) -> Option<u8> {
    let clean = byte_points(hex_only(tok));
    if clean.len() == 0 {
        None
    } else {
        let v = match parsed_u64(clean, 16) {
            Some(v) => Some(v),
            None => parsed_u64(clean, 10),
        };
        match v {
            Some(v) => if v <= 0xFF {
                Some(v as u8)
            } else {
                None
            },
            None => None,
        }
    }
}

/// Reads one number token of an initialiser list (`0x3F`, `12`, ...).
fn parse_byte_token(tok: &Vec<u8>) -> (r: Option<u8>)
    ensures
        r == token_byte(tok@),
{
    let mut clean: Vec<u32> = Vec::new();
    let mut i: usize = 0;
    while i < tok.len()
        invariant
            i <= tok@.len(),
            clean@ == byte_points(hex_only(tok@.take(i as int))),
        decreases tok@.len() - i,
    {
        let c = tok[i] as u32;
        if (48 <= c && c <= 57) || (97 <= c && c <= 102) || (65 <= c && c <= 70) {
            clean.push(c);
        }
        i = i + 1;
        assert(tok@.take(i as int).drop_last() == tok@.take(i - 1));
        assert(byte_points(hex_only(tok@.take(i as int))) =~= clean@);
    }
    assert(tok@.take(tok@.len() as int) == tok@);
    if clean.len() == 0 {
        return None;
    }
    let v = match parse_u64_points(&clean, 16) {
        Some(v) => Some(v),
        None => parse_u64_points(&clean, 10),
    };
    match v {
        Some(v) => if v <= 0xFF {
            Some(v as u8)
        } else {
            None
        },
        None => None,
    }
}

/// State of the initialiser scanner: brace depth, the token being read,
/// the bytes read so far, where each frame (second-level brace) starts, and
/// whether the outermost brace has closed.
pub struct ScanState {
    pub depth: int,
    pub token: Seq<u8>,
    pub bytes: Seq<u8>,
    pub starts: Seq<int>,
    pub done: bool,
}

/// Ends the current token, keeping its byte when it stands for one.
pub open spec fn flush_token(st: ScanState) -> ScanState {
    if st.token.len() > 0 {
        ScanState {
            bytes: match token_byte(st.token) {
                Some(b) => st.bytes.push(b),
                None => st.bytes,
            },
            token: Seq::empty(),
            ..st
        }
    } else {
        st
    }
}

/// One character of the initialiser: `{` opens a level (a frame at level
/// two), `}` ends the token and closes a level (the outermost one ends the
/// scan), hex digits and `x`/`X` extend the token, anything else ends it.
pub open spec fn scan_step(st: ScanState, c: u8) -> ScanState {
    if st.done {
        st
    } else if c == 123 {
        let d = st.depth + 1;
        ScanState {
            depth: d,
            starts: if d == 2 {
                st.starts.push(st.bytes.len() as int)
            } else {
                st.starts
            },
            ..st
        }
    } else if c == 125 {
        let f = flush_token(st);
        ScanState { depth: st.depth - 1, done: st.depth - 1 <= 0, ..f }
    } else if is_hex_digit(c as u32) || c == 120 || c == 88 {
        ScanState { token: st.token.push(c), ..st }
    } else {
        flush_token(st)
    }
}

/// The scanner state after the characters `data`.
pub open spec fn scan_run(data: Seq<u8>) -> ScanState
    decreases data.len(),
{
    if data.len() == 0 {
        ScanState { depth: 0, token: Seq::empty(), bytes: Seq::empty(), starts: Seq::empty(), done: false }
    } else {
        scan_step(scan_run(data.drop_last()), data.last())
    }
}

/// First position at or after `i` where `s` holds `c`.
pub open spec fn index_of_from(s: Seq<u8>, c: u8, i: int) -> Option<int>
    decreases s.len() - i,
{
    if i < 0 || i >= s.len() {
        None
    } else if s[i] == c {
        Some(i)
    } else {
        index_of_from(s, c, i + 1)
    }
}

/// Offsets as integers.
pub open spec fn offsets_view(v: Seq<usize>) -> Seq<int> {
    v.map_values(|o: usize| o as int)
}

/// The bytes of the initialiser list that follows byte offset `start` of
/// `text` (from the first `{` on), and the offsets where its frames start;
/// a list without inner braces but with bytes is one frame at offset 0.
pub open spec fn scanned_initialiser(text: Seq<u8>, start: int) -> (Seq<u8>, Seq<int>) {
    let slice = text.skip(start);
    match index_of_from(slice, 123, 0) {
        None => (Seq::empty(), Seq::empty()),
        Some(p) => {
            let st = scan_run(slice.skip(p));
            if st.starts.len() == 0 && st.bytes.len() > 0 {
                (st.bytes, seq![0int])
            } else {
                (st.bytes, st.starts)
            }
        },
    }
}

/// Reads the initialiser list that follows byte offset `start` of `text`:
/// its bytes and the offsets (into those bytes) where frames start.
fn scan_bytes_from(text: &[u8], start: usize) -> (r: (Vec<u8>, Vec<usize>))
    requires
        start <= text@.len(),
    ensures
        r.0@ == scanned_initialiser(text@, start as int).0,
        offsets_view(r.1@) == scanned_initialiser(text@, start as int).1,
{
    let ghost slice = text@.skip(start as int);
    let n = text.len();
    let mut p = start;
    while p < n && text[p] != 123
        invariant
            start <= p <= n == text@.len(),
            slice == text@.skip(start as int),
            index_of_from(slice, 123, (p - start) as int) == index_of_from(slice, 123, 0),
        decreases n - p,
    {
        p = p + 1;
    }
    if p == n {
        return (Vec::new(), Vec::new());
    }
    assert(index_of_from(slice, 123, 0) == Some((p - start) as int));
    let ghost data = slice.skip((p - start) as int);
    assert(data == text@.skip(p as int));
    let mut depth: usize = 0;
    let mut token: Vec<u8> = Vec::new();
    let mut bytes: Vec<u8> = Vec::new();
    let mut starts: Vec<usize> = Vec::new();
    let mut done = false;
    let mut i = p;
    while i < n
        invariant
            p <= i <= n == text@.len(),
            data == text@.skip(p as int),
            text@[p as int] == 123,
            ({
                let st = scan_run(data.take((i - p) as int));
                &&& st.depth == depth as int
                &&& st.token == token@
                &&& st.bytes == bytes@
                &&& st.starts == offsets_view(starts@)
                &&& st.done == done
                &&& (i > p && !done ==> depth >= 1)
                &&& depth <= i - p
            }),
        decreases n - i,
    {
        let c = text[i];
        let ghost prev = data.take((i - p) as int);
        assert(data.take((i - p + 1) as int).drop_last() == prev);
        assert(data.take((i - p + 1) as int).last() == c);
        if !done {
            if c == 123 {
                depth = depth + 1;
                if depth == 2 {
                    starts.push(bytes.len());
                }
            } else if c == 125 {
                if token.len() > 0 {
                    let b = parse_byte_token(&token);
                    if let Some(b) = b {
                        bytes.push(b);
                    }
                    token = Vec::new();
                }
                assert(i > p);
                depth = depth - 1;
                if depth == 0 {
                    done = true;
                }
            } else if (48 <= c && c <= 57) || (97 <= c && c <= 102) || (65 <= c && c <= 70) || c
                == 120 || c == 88 {
                token.push(c);
            } else {
                if token.len() > 0 {
                    let b = parse_byte_token(&token);
                    if let Some(b) = b {
                        bytes.push(b);
                    }
                    token = Vec::new();
                }
            }
        }
        i = i + 1;
        assert(scan_run(data.take((i - p) as int)).starts =~= offsets_view(starts@));
    }
    assert(data.take((n - p) as int) == data);
    if starts.len() == 0 && bytes.len() > 0 {
        starts.push(0);
        assert(offsets_view(starts@) =~= seq![0int]);
    }
    (bytes, starts)
}


/// A match as plain values: start offset and group texts.
pub type MatchV = (nat, Seq<Option<Seq<char>>>);

/// Text of group `g` of a match.
pub open spec fn group(m: MatchV, g: int) -> Option<Seq<char>> {
    if 0 <= g < m.1.len() {
        m.1[g]
    } else {
        None
    }
}

/// The decimal number a group holds, as `str::parse::<u64>` reads it.
pub open spec fn group_number(m: MatchV, g: int) -> Option<u64> {
    match group(m, g) {
        Some(t) => parsed_u64(code_points(t), 10),
        None => None,
    }
}

/// ASCII lower case, character by character (`str::to_ascii_lowercase`).
pub open spec fn ascii_lower(s: Seq<char>) -> Seq<char> {
    s.map_values(|c: char| if 'A' <= c && c <= 'Z' { ((c as u32) + 32) as char } else { c })
}

/// A size macro read from the text: which quantity it sets (0 width,
/// 1 height, 2 frame size, 3 frame count), its prefix and its value.
pub type MacroEvent = (int, Seq<char>, Option<u64>);

/// The size macros that the matches `ms` of the `which` pattern define,
/// in order (group 1 is the prefix, group 2 the number).
pub open spec fn macro_events(ms: Seq<MatchV>, which: int) -> Seq<MacroEvent>
    decreases ms.len(),
{
    if ms.len() == 0 {
        Seq::empty()
    } else {
        macro_events(ms.drop_last(), which) + match group(ms.last(), 1) {
            Some(p) => seq![(which, p, group_number(ms.last(), 2))],
            None => Seq::empty(),
        }
    }
}

/// One prefix of the size macros: its lower-case key, the prefix as first
/// met, and the four values (width, height, frame size, frame count).
pub type PrefixEntry = (Seq<char>, Seq<char>, Seq<Option<u64>>);

/// Position of the entry with the given key, searching from `i`.
pub open spec fn find_key(entries: Seq<PrefixEntry>, key: Seq<char>, i: int) -> Option<int>
    decreases entries.len() - i,
{
    if i < 0 || i >= entries.len() {
        None
    } else if entries[i].0 == key {
        Some(i)
    } else {
        find_key(entries, key, i + 1)
    }
}

/// A found key lies in the table and carries the key.
pub proof fn lemma_find_key(entries: Seq<PrefixEntry>, key: Seq<char>, i: int)
    ensures
        find_key(entries, key, i) matches Some(j) ==> i <= j < entries.len() && entries[j].0 == key,
    decreases entries.len() - i,
{
    if 0 <= i < entries.len() && entries[i].0 != key {
        lemma_find_key(entries, key, i + 1);
    }
}

/// Records one size macro: the entry of its (case-insensitive) prefix gets
/// the value; a new prefix gets a new entry.
pub open spec fn record_macro(entries: Seq<PrefixEntry>, ev: MacroEvent) -> Seq<PrefixEntry> {
    let key = ascii_lower(ev.1);
    match find_key(entries, key, 0) {
        Some(j) => entries.update(j, (entries[j].0, entries[j].1, entries[j].2.update(ev.0, ev.2))),
        None => entries.push((key, ev.1, seq![None, None, None, None].update(ev.0, ev.2))),
    }
}

/// The prefix table after the given size macros.
pub open spec fn prefix_table(evs: Seq<MacroEvent>) -> Seq<PrefixEntry>
    decreases evs.len(),
{
    if evs.len() == 0 {
        Seq::empty()
    } else {
        record_macro(prefix_table(evs.drop_last()), evs.last())
    }
}

/// How many of the four values are present.
pub open spec fn count_present(vals: Seq<Option<u64>>) -> int {
    (if vals[0] is Some { 1int } else { 0 }) + (if vals[1] is Some { 1int } else { 0 }) + (if vals[2] is Some {
        1int
    } else {
        0
    }) + (if vals[3] is Some { 1int } else { 0 })
}

/// How well a prefix describes an image: one point per value present, four
/// more when it has both width and height.
pub open spec fn prefix_score(vals: Seq<Option<u64>>) -> int {
    count_present(vals) + if vals[0] is Some && vals[1] is Some {
        4int
    } else {
        0
    }
}

/// Lexicographic order on character sequences (by code point).
pub open spec fn seq_less(a: Seq<char>, b: Seq<char>) -> bool
    decreases a.len(),
{
    if a.len() == 0 {
        b.len() > 0
    } else if b.len() == 0 {
        false
    } else if a[0] != b[0] {
        a[0] < b[0]
    } else {
        seq_less(a.drop_first(), b.drop_first())
    }
}

/// The best of the first `n` entries: highest score, and among equal
/// scores the smallest key (the first met in key order).
pub open spec fn best_entry(entries: Seq<PrefixEntry>, n: int) -> Option<int>
    decreases n,
{
    if n <= 0 {
        None
    } else {
        match best_entry(entries, n - 1) {
            None => Some(n - 1),
            Some(b) => {
                let e = entries[n - 1];
                let sb = prefix_score(entries[b].2);
                let se = prefix_score(e.2);
                if se > sb || (se == sb && seq_less(e.0, entries[b].0)) {
                    Some(n - 1)
                } else {
                    Some(b)
                }
            },
        }
    }
}

/// The best entry is one of the first `n`.
pub proof fn lemma_best_entry_range(entries: Seq<PrefixEntry>, n: int)
    ensures
        best_entry(entries, n) matches Some(b) ==> 0 <= b < n,
    decreases n,
{
    if n > 0 {
        lemma_best_entry_range(entries, n - 1);
    }
}

/// Whether two character vectors are equal.
fn chars_equal(a: &Vec<char>, b: &Vec<char>) -> (r: bool)
    ensures
        r == (a@ == b@),
{
    if a.len() != b.len() {
        return false;
    }
    let mut i: usize = 0;
    while i < a.len()
        invariant
            a@.len() == b@.len(),
            i <= a@.len(),
            forall|j: int| 0 <= j < i ==> a@[j] == b@[j],
        decreases a@.len() - i,
    {
        if a[i] != b[i] {
            return false;
        }
        i = i + 1;
    }
    assert(a@ =~= b@);
    true
}

/// Whether `a` comes before `b` in lexicographic order.
fn chars_less(a: &Vec<char>, b: &Vec<char>) -> (r: bool)
    ensures
        r == seq_less(a@, b@),
{
    let mut i: usize = 0;
    assert(a@.skip(0) == a@);
    assert(b@.skip(0) == b@);
    while i < a.len() && i < b.len() && a[i] == b[i]
        invariant
            i <= a@.len(),
            i <= b@.len(),
            seq_less(a@, b@) == seq_less(a@.skip(i as int), b@.skip(i as int)),
        decreases a@.len() - i,
    {
        proof {
            let sa = a@.skip(i as int);
            let sb = b@.skip(i as int);
            assert(sa.drop_first() == a@.skip(i + 1));
            assert(sb.drop_first() == b@.skip(i + 1));
        }
        i = i + 1;
    }
    let ghost sa = a@.skip(i as int);
    let ghost sb = b@.skip(i as int);
    if i == a.len() {
        assert(sa.len() == 0);
        i < b.len()
    } else if i == b.len() {
        assert(sb.len() == 0);
        false
    } else {
        assert(sa[0] == a@[i as int]);
        assert(sb[0] == b@[i as int]);
        a[i] < b[i]
    }
}

/// ASCII lower case of a character sequence.
fn lower_chars(s: &Vec<char>) -> (r: Vec<char>)
    ensures
        r@ == ascii_lower(s@),
{
    let mut r: Vec<char> = Vec::new();
    let mut i: usize = 0;
    while i < s.len()
        invariant
            i <= s@.len(),
            r@ == ascii_lower(s@.take(i as int)),
        decreases s@.len() - i,
    {
        let c = s[i];
        r.push(
            if 'A' <= c && c <= 'Z' {
                ((c as u8) + 32) as char
            } else {
                c
            },
        );
        i = i + 1;
        assert(ascii_lower(s@.take(i as int)) =~= r@);
    }
    assert(s@.take(s@.len() as int) == s@);
    r
}

/// The text of group `g` of a match.
fn group_text(m: &PatternMatch, g: usize) -> (r: Option<&String>)
    ensures
        match r {
            Some(s) => group(match_view(*m), g as int) == Some(s@),
            None => group(match_view(*m), g as int) is None,
        },
{
    if g < m.groups.len() {
        match &m.groups[g] {
            Some(s) => Some(s),
            None => None,
        }
    } else {
        None
    }
}

/// The number group `g` of a match holds.
fn group_number_of(m: &PatternMatch, g: usize) -> (r: Option<u64>)
    ensures
        r == group_number(match_view(*m), g as int),
{
    match group_text(m, g) {
        Some(t) => {
            let p = points_of(t.as_str());
            parse_u64_points(&p, 10)
        },
        None => None,
    }
}

/// One prefix of the size macros, as the importer keeps it.
struct PrefixRow {
    key: Vec<char>,
    name: String,
    vals: Vec<Option<u64>>,
}

spec fn row_view(r: PrefixRow) -> PrefixEntry {
    (r.key@, r.name@, r.vals@)
}

spec fn rows_view(rs: Seq<PrefixRow>) -> Seq<PrefixEntry> {
    rs.map_values(|r: PrefixRow| row_view(r))
}

fn find_row(rows: &Vec<PrefixRow>, key: &Vec<char>) -> (r: Option<usize>)
    ensures
        match r {
            Some(j) => find_key(rows_view(rows@), key@, 0) == Some(j as int),
            None => find_key(rows_view(rows@), key@, 0) is None,
        },
{
    let ghost es = rows_view(rows@);
    let mut i: usize = 0;
    while i < rows.len()
        invariant
            i <= rows@.len(),
            es == rows_view(rows@),
            find_key(es, key@, 0) == find_key(es, key@, i as int),
        decreases rows@.len() - i,
    {
        assert(es[i as int] == row_view(rows@[i as int]));
        if chars_equal(&rows[i].key, key) {
            return Some(i);
        }
        i = i + 1;
    }
    None
}

/// Adds the size macros of the matches `ms` of pattern `which` to the table.
fn record_matches(
    rows: &mut Vec<PrefixRow>,
    ms: &Vec<PatternMatch>,
    which: usize,
    Ghost(evs): Ghost<Seq<MacroEvent>>,
)
    requires
        which < 4,
        forall|j: int| 0 <= j < old(rows)@.len() ==> (#[trigger] old(rows)@[j]).vals@.len() == 4,
        rows_view(old(rows)@) == prefix_table(evs),
    ensures
        forall|j: int| 0 <= j < final(rows)@.len() ==> (#[trigger] final(rows)@[j]).vals@.len() == 4,
        rows_view(final(rows)@) == prefix_table(evs + macro_events(matches_view(ms@), which as int)),
{
    let ghost mv = matches_view(ms@);
    let ghost start_rows = rows_view(rows@);
    assert(macro_events(mv.take(0), which as int) == Seq::<MacroEvent>::empty());
    assert(evs + Seq::<MacroEvent>::empty() == evs);
    let mut i: usize = 0;
    while i < ms.len()
        invariant
            i <= ms@.len(),
            which < 4,
            mv == matches_view(ms@),
            start_rows == rows_view(old(rows)@),
            forall|j: int| 0 <= j < rows@.len() ==> (#[trigger] rows@[j]).vals@.len() == 4,
            rows_view(rows@) == prefix_table(evs + macro_events(mv.take(i as int), which as int)),
        decreases ms@.len() - i,
    {
        let m = &ms[i];
        assert(mv[i as int] == match_view(*m));
        assert(mv.take(i + 1).drop_last() == mv.take(i as int));
        assert(mv.take(i + 1).last() == mv[i as int]);
        match group_text(m, 1) {
            Some(p) => {
                let val = group_number_of(m, 2);
                let pc = chars_of(p.as_str());
                let key = lower_chars(&pc);
                let ghost before = rows_view(rows@);
                let ghost ev: MacroEvent = (which as int, p@, val);
                match find_row(rows, &key) {
                    Some(j) => {
                        proof {
                            lemma_find_key(before, key@, 0);
                        }
                        assert(rows@[j as int].vals@.len() == 4);
                        let mut row = rows.remove(j);
                        row.vals.set(which, val);
                        rows.insert(j, row);
                        proof {
                            assert(rows_view(rows@) =~= record_macro(before, ev));
                        }
                    },
                    None => {
                        let mut vals: Vec<Option<u64>> = Vec::new();
                        vals.push(None);
                        vals.push(None);
                        vals.push(None);
                        vals.push(None);
                        vals.set(which, val);
                        assert(vals@ =~= seq![None, None, None, None].update(which as int, val));
                        let name = p.clone();
                        assert(name@ == p@);
                        let row = PrefixRow { key, name, vals };
                        assert(row_view(row) == (ascii_lower(p@), p@, seq![None, None, None, None].update(which as int, val)));
                        rows.push(row);
                        proof {
                            assert(rows_view(rows@) =~= before.push(row_view(row)));
                            assert(rows_view(rows@) =~= record_macro(before, ev));
                        }
                    },
                }
                proof {
                    let all = evs + macro_events(mv.take(i + 1), which as int);
                    assert(macro_events(mv.take(i + 1), which as int) == macro_events(mv.take(i as int), which as int) + seq![ev]);
                    assert(all.drop_last() == evs + macro_events(mv.take(i as int), which as int));
                    assert(all.last() == ev);
                }
            },
            None => {
                proof {
                    assert(macro_events(mv.take(i + 1), which as int) == macro_events(mv.take(i as int), which as int));
                    assert(evs + macro_events(mv.take(i + 1), which as int) == evs + macro_events(mv.take(i as int), which as int));
                }
            },
        }
        i = i + 1;
    }
    assert(mv.take(ms@.len() as int) == mv);
}


/// An array declaration: where it starts in the text (byte offset), its
/// name prefix (the name without a trailing `_data`) and its two
/// dimensions when they are numbers.
pub type ArrayDecl = (nat, Seq<char>, Option<u64>, Option<u64>);

/// The name without a trailing `_data`.
pub open spec fn strip_data(s: Seq<char>) -> Seq<char> {
    if s.len() >= 5 && s.skip(s.len() - 5) == "_data"@ {
        s.take(s.len() - 5)
    } else {
        s
    }
}

/// The array declarations that the matches of the declaration pattern
/// describe (group 1 the name, groups 2 and 3 the dimensions).
pub open spec fn array_decls(ms: Seq<MatchV>) -> Seq<ArrayDecl>
    decreases ms.len(),
{
    if ms.len() == 0 {
        Seq::empty()
    } else {
        array_decls(ms.drop_last()) + match group(ms.last(), 1) {
            Some(id) => seq![
                (ms.last().0, strip_data(id), group_number(ms.last(), 2), group_number(ms.last(), 3)),
            ],
            None => Seq::empty(),
        }
    }
}

/// The scan format named in the header comment (`* 格式: <name>`),
/// `VerticalLsb` when there is none or the name is unknown.
pub open spec fn declared_format(mf: Seq<MatchV>) -> ScanFormat {
    if mf.len() == 0 {
        ScanFormat::VerticalLsb
    } else {
        match group(mf[0], 1) {
            Some(n) => if n == "vertical_lsb"@ {
                ScanFormat::VerticalLsb
            } else if n == "vertical_msb"@ {
                ScanFormat::VerticalMsb
            } else if n == "horizontal_lsb"@ {
                ScanFormat::HorizontalLsb
            } else if n == "horizontal_msb"@ {
                ScanFormat::HorizontalMsb
            } else {
                ScanFormat::VerticalLsb
            },
            None => ScanFormat::VerticalLsb,
        }
    }
}

/// `s` contains `p` as a contiguous part.
pub open spec fn has_substring(s: Seq<char>, p: Seq<char>) -> bool {
    exists|i: int| 0 <= i && i + p.len() <= s.len() && #[trigger] s.subrange(i, i + p.len()) == p
}

/// The header says that bits are reversed inside each byte.
pub open spec fn declares_reversed(text: Seq<char>) -> bool {
    has_substring(text, "字节内位序: 已反转"@) || has_substring(text, "bit-reversed"@)
        || has_substring(text, "字节内位序反转: 是"@) || has_substring(text, "reverse_bits: 1"@)
}

/// Both layouts' frame sizes of a `w`×`h` frame fit the machine integers.
pub open spec fn sizes_fit(w: u32, h: u32) -> bool {
    &&& h + 7 <= u32::MAX
    &&& w + 7 <= u32::MAX
    &&& ceil8(h as int) * w <= usize::MAX
    &&& ceil8(w as int) * h <= usize::MAX
}

/// When the sizes fit, the frame size in any format fits `usize`.
pub proof fn lemma_sizes_fit(w: u32, h: u32, format: ScanFormat)
    requires
        sizes_fit(w, h),
    ensures
        0 <= scan_len(w as int, h as int, format) <= usize::MAX,
{
    assert(ceil8(w as int) * h == h * ceil8(w as int)) by (nonlinear_arith);
    assert(ceil8(h as int) * w == w * ceil8(h as int)) by (nonlinear_arith);
    assert(0 <= w * ceil8(h as int)) by (nonlinear_arith)
        requires
            0 <= w,
            0 <= ceil8(h as int),
    ;
    assert(0 <= h * ceil8(w as int)) by (nonlinear_arith)
        requires
            0 <= h,
            0 <= ceil8(w as int),
    ;
}

/// A name found from `i` on lies at or after `i` and matches.
pub proof fn lemma_first_named(arrs: Seq<ArrayDecl>, key: Seq<char>, i: int)
    ensures
        first_named(arrs, key, i) matches Some(a) ==> i <= a < arrs.len() && ascii_lower(arrs[a].1) == key,
    decreases arrs.len() - i,
{
    if 0 <= i < arrs.len() && ascii_lower(arrs[i].1) != key {
        lemma_first_named(arrs, key, i + 1);
    }
}

/// The frame size in the given format, computing both layouts' sizes;
/// `None` when they overflow.
pub open spec fn computed_frame_size(w: u32, h: u32, format: ScanFormat) -> Option<usize> {
    if sizes_fit(w, h) {
        Some(scan_len(w as int, h as int, format) as usize)
    } else {
        None
    }
}

/// The layout a frame size points to: `VerticalLsb` when it is the
/// vertical size, else `HorizontalLsb` when it is the horizontal one, else
/// `VerticalLsb`; `None` when the sizes overflow.
pub open spec fn guessed_format(w: u32, h: u32, frame_size: usize) -> Option<ScanFormat> {
    if !sizes_fit(w, h) {
        None
    } else if frame_size == scan_len(w as int, h as int, ScanFormat::VerticalLsb) {
        Some(ScanFormat::VerticalLsb)
    } else if frame_size == scan_len(w as int, h as int, ScanFormat::HorizontalLsb) {
        Some(ScanFormat::HorizontalLsb)
    } else {
        Some(ScanFormat::VerticalLsb)
    }
}

/// What the size macros lead the importer to expect: the frame size, the
/// total byte count, the frame count and the format (a `VerticalLsb` format
/// with a frame size macro is re-guessed from that size); `None` when the
/// sizes it computes overflow.
pub open spec fn expectations(
    w: u32,
    h: u32,
    fs_m: Option<usize>,
    fc_m: Option<usize>,
    format0: ScanFormat,
) -> Option<(int, int, int, ScanFormat)> {
    let cfs = scan_len(w as int, h as int, format0);
    let needs_computed = fs_m is None || fs_m == Some(0usize) || format0 == ScanFormat::VerticalLsb;
    let total: int = match (fs_m, fc_m) {
        (Some(s), Some(c)) => s * c,
        (Some(s), None) => s as int,
        (None, Some(c)) => cfs * c,
        (None, None) => cfs,
    };
    if (needs_computed && !sizes_fit(w, h)) || total > usize::MAX {
        None
    } else {
        let guessed = format0 == ScanFormat::VerticalLsb && fs_m is Some;
        let efs: int = if guessed {
            fs_m->0 as int
        } else {
            match fs_m {
                Some(s) => if s == 0 {
                    cfs
                } else {
                    s as int
                },
                None => cfs,
            }
        };
        let format = if guessed {
            guessed_format(w, h, fs_m->0)->0
        } else {
            format0
        };
        let frames: int = match fc_m {
            Some(c) => c as int,
            None => 1,
        };
        Some((efs, total, frames, format))
    }
}

/// Product of an array's two dimensions (each taken as `usize`).
pub open spec fn dims_product(a: ArrayDecl) -> Option<int> {
    match (a.2, a.3) {
        (Some(x), Some(y)) => Some((x as usize) * (y as usize)),
        _ => None,
    }
}

/// The array's dimension product exceeds `usize::MAX`.
pub open spec fn product_overflows(a: ArrayDecl) -> bool {
    match dims_product(a) {
        Some(p) => p > usize::MAX,
        None => false,
    }
}

/// Among the first `n` arrays, one has a dimension product over `usize::MAX`.
pub open spec fn dims_overflow(arrs: Seq<ArrayDecl>, n: int) -> bool {
    exists|a: int| 0 <= a < n && #[trigger] product_overflows(arrs[a])
}

/// First array, from `i` on, whose prefix is `key` ignoring ASCII case.
pub open spec fn first_named(arrs: Seq<ArrayDecl>, key: Seq<char>, i: int) -> Option<int>
    decreases arrs.len() - i,
{
    if i < 0 || i >= arrs.len() {
        None
    } else if ascii_lower(arrs[i].1) == key {
        Some(i)
    } else {
        first_named(arrs, key, i + 1)
    }
}

/// Frame size and count of the array named like the macros: from its
/// dimensions (`[count][size]`, or `[size][count]` when the first one is
/// the expected frame size), else the expected ones.
pub open spec fn named_array_sizes(a: ArrayDecl, efs: int, exp_frames: int) -> (int, int) {
    match (a.2, a.3) {
        (Some(x), Some(y)) => {
            let x = x as usize as int;
            let y = y as usize as int;
            if y == efs {
                (y, x)
            } else if x == efs {
                (x, y)
            } else {
                (y, x)
            }
        },
        _ => (efs, exp_frames),
    }
}

/// What an array declaration offers when no array is named like the macros.
pub enum SizeMatch {
    /// Its dimensions do not fit the expectations.
    Skip,
    /// It fits, with this frame size and frame count.
    Take(int, int),
    /// The sizes it leads to divide by zero.
    Fault,
}

/// An array fits when one dimension is the expected frame size, or when
/// its byte count is the expected total and one dimension is the frame
/// count macro.
pub open spec fn size_match(a: ArrayDecl, efs: int, total: int, fc_m: Option<usize>) -> SizeMatch {
    match (a.2, a.3) {
        (Some(x), Some(y)) => {
            let x = x as usize as int;
            let y = y as usize as int;
            let p = x * y;
            if y == efs {
                SizeMatch::Take(y, x)
            } else if x == efs {
                SizeMatch::Take(x, y)
            } else if p == total {
                let fc: Option<int> = if fc_m == Some(x as usize) {
                    Some(x)
                } else if fc_m == Some(y as usize) {
                    Some(y)
                } else {
                    None
                };
                match fc {
                    Some(c) => if c == 0 {
                        SizeMatch::Fault
                    } else if p / c > 0 {
                        SizeMatch::Take(p / c, c)
                    } else {
                        SizeMatch::Skip
                    },
                    None => SizeMatch::Skip,
                }
            } else {
                SizeMatch::Skip
            }
        },
        _ => SizeMatch::Skip,
    }
}

/// The first array, from `i` on, that fits by its sizes: `Some(Ok((index,
/// frame size, frame count)))`, `Some(Err(()))` when the first array not
/// skipped divides by zero, `None` when all are skipped.
pub open spec fn first_fitting(
    arrs: Seq<ArrayDecl>,
    efs: int,
    total: int,
    fc_m: Option<usize>,
    i: int,
) -> Option<Result<(int, int, int), ()>>
    decreases arrs.len() - i,
{
    if i < 0 || i >= arrs.len() {
        None
    } else {
        match size_match(arrs[i], efs, total, fc_m) {
            SizeMatch::Skip => first_fitting(arrs, efs, total, fc_m, i + 1),
            SizeMatch::Take(fs, fc) => Some(Ok((i, fs, fc))),
            SizeMatch::Fault => Some(Err(())),
        }
    }
}

/// Why a header could not be read back, as plain values.
pub enum ImportFailure {
    NoSizeMacros,
    MissingWidth,
    MissingHeight,
    NoArray,
    NotEnoughBytes {
        frame_count: int,
        frame_size: int,
        found: int,
        array_prefix: Seq<char>,
        macro_prefix: Seq<char>,
    },
    Arithmetic,
    Pattern,
}

/// The error as plain values.
pub open spec fn failure_of(e: ImportError) -> ImportFailure {
    match e {
        ImportError::NoSizeMacros => ImportFailure::NoSizeMacros,
        ImportError::MissingWidth => ImportFailure::MissingWidth,
        ImportError::MissingHeight => ImportFailure::MissingHeight,
        ImportError::NoArray => ImportFailure::NoArray,
        ImportError::NotEnoughBytes { frame_count, frame_size, found, array_prefix, macro_prefix } =>
            ImportFailure::NotEnoughBytes {
            frame_count: frame_count as int,
            frame_size: frame_size as int,
            found: found as int,
            array_prefix: array_prefix@,
            macro_prefix: macro_prefix@,
        },
        ImportError::Arithmetic => ImportFailure::Arithmetic,
        ImportError::Pattern => ImportFailure::Pattern,
    }
}

/// The array the importer reads the bytes from: the first one named like
/// the macros; else the first whose sizes fit the expectations; else the
/// first array at all, its frame count estimated from the bytes it holds.
/// Gives its start offset, prefix, frame size and frame count.
pub open spec fn chosen_array(
    text: Seq<u8>,
    arrs: Seq<ArrayDecl>,
    macro_prefix: Seq<char>,
    efs: int,
    total: int,
    exp_frames: int,
    fc_m: Option<usize>,
) -> Result<(nat, Seq<char>, int, int), ImportFailure> {
    let fa = first_named(arrs, ascii_lower(macro_prefix), 0);
    let upto = match fa {
        Some(a) => a + 1,
        None => arrs.len() as int,
    };
    if dims_overflow(arrs, upto) {
        Err(ImportFailure::Arithmetic)
    } else {
        match fa {
            Some(a) => {
                let (fs, fc) = named_array_sizes(arrs[a], efs, exp_frames);
                Ok((arrs[a].0, arrs[a].1, fs, fc))
            },
            None => match first_fitting(arrs, efs, total, fc_m, 0) {
                Some(Err(())) => Err(ImportFailure::Arithmetic),
                Some(Ok((a, fs, fc))) => Ok((arrs[a].0, arrs[a].1, fs, fc)),
                None => if arrs.len() == 0 {
                    Err(ImportFailure::NoArray)
                } else {
                    let n = scanned_initialiser(text, arrs[0].0 as int).0.len();
                    if efs > 0 && n + efs - 1 > usize::MAX {
                        Err(ImportFailure::Arithmetic)
                    } else {
                        let fc = if efs > 0 {
                            (n + efs - 1) / efs
                        } else {
                            1
                        };
                        Ok((arrs[0].0, arrs[0].1, efs, if fc < 1 { 1 } else { fc }))
                    }
                },
            },
        }
    }
}

/// Offset of frame `i` in the scanned bytes: where its inner brace opened,
/// else `i * frame_size`.
pub open spec fn frame_offset(starts: Seq<int>, i: int, frame_size: int) -> int {
    if i < starts.len() {
        starts[i]
    } else {
        i * frame_size
    }
}

/// Computing frame `i`'s byte range overflows (or its start lies past the
/// end of the bytes).
pub open spec fn frame_fault(len: int, starts: Seq<int>, i: int, frame_size: int) -> bool {
    let off = frame_offset(starts, i, frame_size);
    i * frame_size > usize::MAX || off + frame_size > usize::MAX || (if off + frame_size < len {
        off + frame_size
    } else {
        len
    }) < off
}

/// Cutting the bytes into `frame_count` frames of `frame_size` bytes of a
/// `w`×`h` image fails: some frame's byte range overflows, or a frame has to
/// be decoded and its size overflows the machine integers.
pub open spec fn frames_fail(
    len: int,
    starts: Seq<int>,
    frame_count: int,
    frame_size: int,
    w: u32,
    h: u32,
    format: ScanFormat,
) -> bool {
    (exists|i: int| 0 <= i < frame_count && #[trigger] frame_fault(len, starts, i, frame_size)) || (
    frame_count > 0 && !(w * h <= u32::MAX && scan_len_fits(w as int, h as int, format)))
}

/// The `frame_size` bytes of frame `i`: from its offset on, zero-filled
/// past the end of the scanned bytes.
pub open spec fn frame_data(bytes: Seq<u8>, starts: Seq<int>, i: int, frame_size: int) -> Seq<u8> {
    let off = frame_offset(starts, i, frame_size);
    let end = if off + frame_size < bytes.len() {
        off + frame_size
    } else {
        bytes.len() as int
    };
    bytes.subrange(off, end) + Seq::new((frame_size - (end - off)) as nat, |j: int| 0u8)
}

/// What a successfully read header holds: name, format, bit order, frame
/// size in pixels, and the bytes of every frame.
pub struct HeaderPlan {
    pub name: Seq<char>,
    pub format: ScanFormat,
    pub reverse_bits: bool,
    pub width: u32,
    pub height: u32,
    pub frames: Seq<Seq<u8>>,
}

/// The name the header is given: the array's prefix (without a trailing
/// `_data`), or the macro prefix when they agree ignoring ASCII case.
pub open spec fn header_name(array_prefix: Seq<char>, macro_prefix: Seq<char>) -> Seq<char> {
    let cp = strip_data(array_prefix);
    if ascii_lower(cp) == ascii_lower(macro_prefix) {
        macro_prefix
    } else {
        cp
    }
}

/// Reading a header back, given what the header grammar's patterns found
/// in it: `mw`, `mh`, `ms`, `mc` the `*_WIDTH`, `*_HEIGHT`, `*_FRAME_SIZE`,
/// `*_FRAME_COUNT` macros, `ma` the two-dimensional array declarations and
/// `mf` the format comment. The prefix with the most size macros (width and
/// height counting extra) names the image; the sizes it gives, the format
/// and bit order from the comment, and the chosen array's bytes, cut into
/// frames, make the result.
pub open spec fn header_plan(
    text: Seq<char>,
    bytes: Seq<u8>,
    mw: Seq<MatchV>,
    mh: Seq<MatchV>,
    ms: Seq<MatchV>,
    mc: Seq<MatchV>,
    ma: Seq<MatchV>,
    mf: Seq<MatchV>,
) -> Result<HeaderPlan, ImportFailure> {
    let table = prefix_table(
        macro_events(mw, 0) + macro_events(mh, 1) + macro_events(ms, 2) + macro_events(mc, 3),
    );
    match best_entry(table, table.len() as int) {
        None => Err(ImportFailure::NoSizeMacros),
        Some(b) => {
            let macro_prefix = table[b].1;
            let vals = table[b].2;
            match (vals[0], vals[1]) {
                (None, _) => Err(ImportFailure::MissingWidth),
                (Some(_), None) => Err(ImportFailure::MissingHeight),
                (Some(wv), Some(hv)) => {
                    let w = wv as u32;
                    let h = hv as u32;
                    let fs_m: Option<usize> = match vals[2] {
                        Some(v) => Some(v as usize),
                        None => None,
                    };
                    let fc_m: Option<usize> = match vals[3] {
                        Some(v) => Some(v as usize),
                        None => None,
                    };
                    match expectations(w, h, fs_m, fc_m, declared_format(mf)) {
                        None => Err(ImportFailure::Arithmetic),
                        Some((efs, total, exp_frames, format)) => {
                            let reverse_bits = declares_reversed(text);
                            match chosen_array(
                                bytes,
                                array_decls(ma),
                                macro_prefix,
                                efs,
                                total,
                                exp_frames,
                                fc_m,
                            ) {
                                Err(e) => Err(e),
                                Ok((off, array_prefix, fs0, fc0)) => {
                                    let cfc = if fc0 == 0 {
                                        if exp_frames < 1 {
                                            1
                                        } else {
                                            exp_frames
                                        }
                                    } else {
                                        fc0
                                    };
                                    let cfs = if fs0 == 0 {
                                        efs
                                    } else {
                                        fs0
                                    };
                                    let (data, starts) = scanned_initialiser(bytes, off as int);
                                    if cfs * cfc > usize::MAX {
                                        Err(ImportFailure::Arithmetic)
                                    } else if data.len() < cfs * cfc {
                                        Err(
                                            ImportFailure::NotEnoughBytes {
                                                frame_count: cfc,
                                                frame_size: cfs,
                                                found: data.len() as int,
                                                array_prefix,
                                                macro_prefix,
                                            },
                                        )
                                    } else {
                                        let ffc: int = match fc_m {
                                            Some(c) => c as int,
                                            None => if cfc < 1 {
                                                1
                                            } else {
                                                cfc
                                            },
                                        };
                                        let ffs: int = match fs_m {
                                            Some(s) => s as int,
                                            None => if cfs < 1 {
                                                1
                                            } else {
                                                cfs
                                            },
                                        };
                                        if frames_fail(data.len() as int, starts, ffc, ffs, w, h, format) {
                                            Err(ImportFailure::Arithmetic)
                                        } else {
                                            Ok(
                                                HeaderPlan {
                                                    name: header_name(array_prefix, macro_prefix),
                                                    format,
                                                    reverse_bits,
                                                    width: w,
                                                    height: h,
                                                    frames: Seq::new(
                                                        ffc as nat,
                                                        |i: int| frame_data(data, starts, i, ffs),
                                                    ),
                                                },
                                            )
                                        }
                                    }
                                },
                            }
                        },
                    }
                },
            }
        },
    }
}


/// Collects the size macros into the prefix table, one row per prefix
/// (compared ignoring ASCII case).
fn collect_prefix_maps(
    mw: &Vec<PatternMatch>,
    mh: &Vec<PatternMatch>,
    ms: &Vec<PatternMatch>,
    mc: &Vec<PatternMatch>,
) -> (rows: Vec<PrefixRow>)
    ensures
        forall|j: int| 0 <= j < rows@.len() ==> (#[trigger] rows@[j]).vals@.len() == 4,
        rows_view(rows@) == prefix_table(
            macro_events(matches_view(mw@), 0) + macro_events(matches_view(mh@), 1) + macro_events(
                matches_view(ms@),
                2,
            ) + macro_events(matches_view(mc@), 3),
        ),
{
    let mut rows: Vec<PrefixRow> = Vec::new();
    assert(rows_view(rows@) =~= prefix_table(Seq::empty()));
    record_matches(&mut rows, mw, 0, Ghost(Seq::empty()));
    assert(Seq::<MacroEvent>::empty() + macro_events(matches_view(mw@), 0) == macro_events(
        matches_view(mw@),
        0,
    ));
    record_matches(&mut rows, mh, 1, Ghost(macro_events(matches_view(mw@), 0)));
    record_matches(
        &mut rows,
        ms,
        2,
        Ghost(macro_events(matches_view(mw@), 0) + macro_events(matches_view(mh@), 1)),
    );
    record_matches(
        &mut rows,
        mc,
        3,
        Ghost(
            macro_events(matches_view(mw@), 0) + macro_events(matches_view(mh@), 1) + macro_events(
                matches_view(ms@),
                2,
            ),
        ),
    );
    rows
}

fn row_score(vals: &Vec<Option<u64>>) -> (r: usize)
    requires
        vals@.len() == 4,
    ensures
        r == prefix_score(vals@),
{
    let mut n: usize = 0;
    if vals[0].is_some() {
        n = n + 1;
    }
    if vals[1].is_some() {
        n = n + 1;
    }
    if vals[2].is_some() {
        n = n + 1;
    }
    if vals[3].is_some() {
        n = n + 1;
    }
    if vals[0].is_some() && vals[1].is_some() {
        n = n + 4;
    }
    n
}

/// The best prefix: highest score, smallest key among equal scores.
fn best_row(rows: &Vec<PrefixRow>) -> (r: Option<usize>)
    requires
        forall|j: int| 0 <= j < rows@.len() ==> (#[trigger] rows@[j]).vals@.len() == 4,
    ensures
        match r {
            Some(b) => best_entry(rows_view(rows@), rows@.len() as int) == Some(b as int),
            None => best_entry(rows_view(rows@), rows@.len() as int) is None,
        },
{
    let ghost es = rows_view(rows@);
    let mut best: Option<usize> = None;
    let mut i: usize = 0;
    while i < rows.len()
        invariant
            i <= rows@.len(),
            es == rows_view(rows@),
            forall|j: int| 0 <= j < rows@.len() ==> (#[trigger] rows@[j]).vals@.len() == 4,
            match best {
                Some(b) => b < i && best_entry(es, i as int) == Some(b as int),
                None => best_entry(es, i as int) is None,
            },
        decreases rows@.len() - i,
    {
        assert(es[i as int] == row_view(rows@[i as int]));
        match best {
            None => {
                best = Some(i);
            },
            Some(b) => {
                assert(es[b as int] == row_view(rows@[b as int]));
                let sb = row_score(&rows[b].vals);
                let se = row_score(&rows[i].vals);
                if se > sb || (se == sb && chars_less(&rows[i].key, &rows[b].key)) {
                    best = Some(i);
                }
            },
        }
        i = i + 1;
    }
    best
}

/// One array declaration, as the importer keeps it.
struct ArrayRow {
    start: usize,
    prefix: Vec<char>,
    d1: Option<u64>,
    d2: Option<u64>,
}

spec fn array_view(a: ArrayRow) -> ArrayDecl {
    (a.start as nat, a.prefix@, a.d1, a.d2)
}

spec fn arrays_view(rs: Seq<ArrayRow>) -> Seq<ArrayDecl> {
    rs.map_values(|a: ArrayRow| array_view(a))
}

/// The name without a trailing `_data` (`str::strip_suffix`).
fn strip_data_suffix(s: &Vec<char>) -> (r: Vec<char>)
    ensures
        r@ == strip_data(s@),
{
    let suffix = chars_of("_data");
    proof {
        reveal_strlit("_data");
    }
    let n = s.len();
    let mut ends = n >= 5;
    if ends {
        let mut k: usize = 0;
        while k < 5
            invariant
                n == s@.len() >= 5,
                suffix@ == "_data"@,
                suffix@.len() == 5,
                k <= 5,
                ends == (forall|j: int| 0 <= j < k ==> s@[n - 5 + j] == suffix@[j]),
            decreases 5 - k,
        {
            if s[n - 5 + k] != suffix[k] {
                ends = false;
            }
            k = k + 1;
        }
        if ends {
            assert(s@.skip(n - 5) =~= "_data"@);
        } else {
            assert(s@.skip(n - 5) != "_data"@) by {
                let j = choose|j: int| 0 <= j < 5 && s@[n - 5 + j] != suffix@[j];
                assert(s@.skip(n - 5)[j] != suffix@[j]);
            }
        }
    }
    let mut r: Vec<char> = Vec::new();
    let keep = if ends {
        n - 5
    } else {
        n
    };
    let mut i: usize = 0;
    while i < keep
        invariant
            keep <= n == s@.len(),
            i <= keep,
            r@ == s@.take(i as int),
        decreases keep - i,
    {
        r.push(s[i]);
        i = i + 1;
        assert(r@ =~= s@.take(i as int));
    }
    assert(s@.take(n as int) == s@);
    r
}

/// The two-dimensional array declarations, in text order.
fn find_2d_arrays(ma: &Vec<PatternMatch>, Ghost(text_len): Ghost<nat>) -> (r: Vec<ArrayRow>)
    requires
        forall|i: int| 0 <= i < ma@.len() ==> ma@[i].start <= text_len,
    ensures
        arrays_view(r@) == array_decls(matches_view(ma@)),
        forall|i: int| 0 <= i < r@.len() ==> r@[i].start <= text_len,
{
    let ghost mv = matches_view(ma@);
    let mut r: Vec<ArrayRow> = Vec::new();
    let mut i: usize = 0;
    while i < ma.len()
        invariant
            i <= ma@.len(),
            mv == matches_view(ma@),
            forall|i: int| 0 <= i < ma@.len() ==> ma@[i].start <= text_len,
            arrays_view(r@) == array_decls(mv.take(i as int)),
            forall|i: int| 0 <= i < r@.len() ==> r@[i].start <= text_len,
        decreases ma@.len() - i,
    {
        let m = &ma[i];
        assert(mv[i as int] == match_view(*m));
        assert(mv.take(i + 1).drop_last() == mv.take(i as int));
        assert(mv.take(i + 1).last() == mv[i as int]);
        match group_text(m, 1) {
            Some(id) => {
                let idc = chars_of(id.as_str());
                let prefix = strip_data_suffix(&idc);
                let d1 = group_number_of(m, 2);
                let d2 = group_number_of(m, 3);
                let row = ArrayRow { start: m.start, prefix, d1, d2 };
                let ghost before = arrays_view(r@);
                r.push(row);
                assert(arrays_view(r@) =~= before.push(array_view(row)));
            },
            None => {},
        }
        i = i + 1;
    }
    assert(mv.take(ma@.len() as int) == mv);
    r
}

/// The scan format named in the header comment.
fn declared_format_of(mf: &Vec<PatternMatch>) -> (r: ScanFormat)
    ensures
        r == declared_format(matches_view(mf@)),
{
    if mf.len() == 0 {
        return ScanFormat::VerticalLsb;
    }
    let ghost mv = matches_view(mf@);
    assert(mv[0] == match_view(mf@[0]));
    match group_text(&mf[0], 1) {
        Some(n) => {
            let nc = chars_of(n.as_str());
            if chars_equal(&nc, &chars_of("vertical_lsb")) {
                ScanFormat::VerticalLsb
            } else if chars_equal(&nc, &chars_of("vertical_msb")) {
                ScanFormat::VerticalMsb
            } else if chars_equal(&nc, &chars_of("horizontal_lsb")) {
                ScanFormat::HorizontalLsb
            } else if chars_equal(&nc, &chars_of("horizontal_msb")) {
                ScanFormat::HorizontalMsb
            } else {
                ScanFormat::VerticalLsb
            }
        },
        None => ScanFormat::VerticalLsb,
    }
}

/// Whether `text` contains `needle` (`str::contains`).
fn contains_chars(text: &Vec<char>, needle: &str) -> (r: bool)
    ensures
        r == has_substring(text@, needle@),
{
    let p = chars_of(needle);
    let n = text.len();
    let m = p.len();
    if m > n {
        return false;
    }
    let mut i: usize = 0;
    while i <= n - m
        invariant
            m <= n == text@.len(),
            m == p@.len(),
            p@ == needle@,
            forall|k: int| 0 <= k < i ==> #[trigger] text@.subrange(k, k + m) != p@,
        decreases n - m + 1 - i,
    {
        let mut j: usize = 0;
        let mut same = true;
        while j < m
            invariant
                m <= n == text@.len(),
                m == p@.len(),
                i <= n - m,
                j <= m,
                same == (forall|t: int| 0 <= t < j ==> text@[i + t] == p@[t]),
            decreases m - j,
        {
            if text[i + j] != p[j] {
                same = false;
            }
            j = j + 1;
        }
        if same {
            assert(text@.subrange(i as int, i + m) =~= p@);
            return true;
        }
        assert(text@.subrange(i as int, i + m) != p@) by {
            let t = choose|t: int| 0 <= t < m && text@[i + t] != p@[t];
            assert(text@.subrange(i as int, i + m)[t] != p@[t]);
        }
        i = i + 1;
    }
    assert(!has_substring(text@, needle@)) by {
        if has_substring(text@, needle@) {
            let k = choose|k: int| 0 <= k && k + m <= n && #[trigger] text@.subrange(k, k + m) == p@;
            assert(text@.subrange(k, k + m) != p@);
        }
    }
    false
}

/// Frame size of a `w`×`h` frame in the given format, computing both
/// layouts' sizes; `None` when they overflow.
fn compute_frame_size(w: u32, h: u32, format: ScanFormat) -> (r: Option<usize>)
    ensures
        r == computed_frame_size(w, h, format),
        r matches Some(v) ==> v as int == scan_len(w as int, h as int, format),
        r is Some <==> sizes_fit(w, h),
{
    if h > u32::MAX - 7 || w > u32::MAX - 7 {
        return None;
    }
    let pages = ((h + 7) / 8) as usize;
    let cols = ((w + 7) / 8) as usize;
    let v_bytes = pages.checked_mul(w as usize);
    let h_bytes = cols.checked_mul(h as usize);
    match (v_bytes, h_bytes) {
        (Some(v), Some(hz)) => {
            proof {
                assert(ceil8(w as int) * h == h * ceil8(w as int)) by (nonlinear_arith);
                assert(ceil8(h as int) * w == w * ceil8(h as int)) by (nonlinear_arith);
            }
            proof {
                lemma_sizes_fit(w, h, format);
            }
            if format.is_vertical() {
                Some(v)
            } else {
                Some(hz)
            }
        },
        _ => None,
    }
}

/// The layout a frame size points to (see `guessed_format`).
fn guess_format(w: u32, h: u32, frame_size: usize) -> (r: Option<ScanFormat>)
    ensures
        r == guessed_format(w, h, frame_size),
{
    let v = compute_frame_size(w, h, ScanFormat::VerticalLsb);
    let hz = compute_frame_size(w, h, ScanFormat::HorizontalLsb);
    match (v, hz) {
        (Some(v), Some(hz)) => {
            assert(ceil8(w as int) * h == h * ceil8(w as int)) by (nonlinear_arith);
            assert(ceil8(h as int) * w == w * ceil8(h as int)) by (nonlinear_arith);
            assert(0 <= w * ceil8(h as int)) by (nonlinear_arith)
                requires
                    0 <= w,
                    0 <= ceil8(h as int),
            ;
            assert(0 <= h * ceil8(w as int)) by (nonlinear_arith)
                requires
                    0 <= h,
                    0 <= ceil8(w as int),
            ;
            assert(v as int == scan_len(w as int, h as int, ScanFormat::VerticalLsb));
            assert(hz as int == scan_len(w as int, h as int, ScanFormat::HorizontalLsb));
            if frame_size == v {
            Some(ScanFormat::VerticalLsb)
        } else if frame_size == hz {
            Some(ScanFormat::HorizontalLsb)
        } else {
            Some(ScanFormat::VerticalLsb)
        }
        },
        _ => None,
    }
}


/// What the size macros lead the importer to expect (see `expectations`).
fn expectations_of(
    w: u32,
    h: u32,
    fs_m: Option<usize>,
    fc_m: Option<usize>,
    format0: ScanFormat,
) -> (r: Option<(usize, usize, usize, ScanFormat)>)
    ensures
        match r {
            Some(t) => expectations(w, h, fs_m, fc_m, format0) == Some(
                (t.0 as int, t.1 as int, t.2 as int, t.3),
            ),
            None => expectations(w, h, fs_m, fc_m, format0) is None,
        },
{
    let mut efs: usize = match fs_m {
        Some(s) => s,
        None => 0,
    };
    if efs == 0 {
        match compute_frame_size(w, h, format0) {
            Some(v) => {
                efs = v;
            },
            None => {
                return None;
            },
        }
    }
    let total: usize = match (fs_m, fc_m) {
        (Some(s), Some(c)) => match s.checked_mul(c) {
            Some(t) => t,
            None => {
                return None;
            },
        },
        (Some(s), None) => s,
        (None, Some(c)) => match compute_frame_size(w, h, format0) {
            Some(v) => match v.checked_mul(c) {
                Some(t) => t,
                None => {
                    return None;
                },
            },
            None => {
                return None;
            },
        },
        (None, None) => match compute_frame_size(w, h, format0) {
            Some(v) => v,
            None => {
                return None;
            },
        },
    };
    let exp_frames: usize = match fc_m {
        Some(c) => c,
        None => 1,
    };
    let mut format = format0;
    if format0 == ScanFormat::VerticalLsb {
        if let Some(fs) = fs_m {
            match guess_format(w, h, fs) {
                Some(g) => {
                    format = g;
                },
                None => {
                    return None;
                },
            }
            efs = fs;
        }
    }
    Some((efs, total, exp_frames, format))
}

/// Whether `scan_len_fits(w, h, format)`.
fn scan_fits(w: u32, h: u32, format: ScanFormat) -> (r: bool)
    ensures
        r == scan_len_fits(w as int, h as int, format),
{
    if format.is_vertical() {
        if h > u32::MAX - 7 {
            return false;
        }
        let pages = ((h + 7) / 8) as usize;
        (w as usize).checked_mul(pages).is_some()
    } else {
        if w > u32::MAX - 7 {
            return false;
        }
        let cols = ((w + 7) / 8) as usize;
        (h as usize).checked_mul(cols).is_some()
    }
}

/// The array the importer reads the bytes from (see `chosen_array`).
fn choose_array(
    text: &[u8],
    arrs: &Vec<ArrayRow>,
    macro_prefix: &Vec<char>,
    efs: usize,
    total: usize,
    exp_frames: usize,
    fc_m: Option<usize>,
) -> (r: Result<(usize, Vec<char>, usize, usize), ImportError>)
    requires
        forall|i: int| 0 <= i < arrs@.len() ==> arrs@[i].start <= text@.len(),
    ensures
        match (
            r,
            chosen_array(
                text@,
                arrays_view(arrs@),
                macro_prefix@,
                efs as int,
                total as int,
                exp_frames as int,
                fc_m,
            ),
        ) {
            (Ok(c), Ok(s)) => c.0 as nat == s.0 && c.1@ == s.1 && c.2 as int == s.2 && c.3 as int
                == s.3 && c.0 <= text@.len(),
            (Err(e), Err(f)) => failure_of(e) == f,
            _ => false,
        },
{
    let ghost av = arrays_view(arrs@);
    let key = lower_chars(macro_prefix);
    let n = arrs.len();
    let mut a: usize = 0;
    while a < n
        invariant
            a <= n == arrs@.len(),
            av == arrays_view(arrs@),
            key@ == ascii_lower(macro_prefix@),
            forall|i: int| 0 <= i < arrs@.len() ==> arrs@[i].start <= text@.len(),
            !dims_overflow(av, a as int),
            first_named(av, key@, 0) == first_named(av, key@, a as int),
        decreases n - a,
    {
        let row = &arrs[a];
        assert(av[a as int] == array_view(*row));
        proof {
            lemma_first_named(av, key@, a as int);
        }
        let prod: Option<usize> = match (row.d1, row.d2) {
            (Some(x), Some(y)) => {
                let p = (x as usize).checked_mul(y as usize);
                if p.is_none() {
                    assert(product_overflows(av[a as int]));
                    return Err(ImportError::Arithmetic);
                }
                p
            },
            _ => None,
        };
        assert(!product_overflows(av[a as int]));
        assert(!dims_overflow(av, a + 1)) by {
            if dims_overflow(av, a + 1) {
                let b = choose|b: int| 0 <= b < a + 1 && #[trigger] product_overflows(av[b]);
                assert(b != a);
            }
        }
        let lp = lower_chars(&row.prefix);
        assert(row.start <= text@.len());
        if chars_equal(&lp, &key) {
            assert(first_named(av, key@, 0) == Some(a as int));
            let (fs, fc) = match (row.d1, row.d2) {
                (Some(x), Some(y)) => {
                    let x = x as usize;
                    let y = y as usize;
                    if y == efs {
                        (y, x)
                    } else if x == efs {
                        (x, y)
                    } else {
                        (y, x)
                    }
                },
                _ => (efs, exp_frames),
            };
            let prefix = row.prefix.clone();
            assert(prefix@ == row.prefix@);
            return Ok((row.start, prefix, fs, fc));
        }
        a = a + 1;
    }
    assert(first_named(av, key@, 0) is None);
    let mut a: usize = 0;
    while a < n
        invariant
            a <= n == arrs@.len(),
            av == arrays_view(arrs@),
            forall|i: int| 0 <= i < arrs@.len() ==> arrs@[i].start <= text@.len(),
            first_named(av, ascii_lower(macro_prefix@), 0) is None,
            !dims_overflow(av, n as int),
            first_fitting(av, efs as int, total as int, fc_m, 0) == first_fitting(
                av,
                efs as int,
                total as int,
                fc_m,
                a as int,
            ),
        decreases n - a,
    {
        let row = &arrs[a];
        assert(av[a as int] == array_view(*row));
        match (row.d1, row.d2) {
            (Some(x), Some(y)) => {
                let x = x as usize;
                let y = y as usize;
                assert(!product_overflows(av[a as int]));
                assert(dims_product(av[a as int]) == Some(x * y));
                let p = x * y;
                assert(row.start <= text@.len());
                if y == efs {
                    let prefix = row.prefix.clone();
                    assert(prefix@ == row.prefix@);
                    assert(size_match(av[a as int], efs as int, total as int, fc_m) == SizeMatch::Take(y as int, x as int));
                    assert(first_fitting(av, efs as int, total as int, fc_m, a as int) == Some(Ok::<(int, int, int), ()>((a as int, y as int, x as int))));
                    return Ok((row.start, prefix, y, x));
                } else if x == efs {
                    let prefix = row.prefix.clone();
                    assert(prefix@ == row.prefix@);
                    return Ok((row.start, prefix, x, y));
                } else if p == total {
                    let fc: Option<usize> = if fc_m == Some(x) {
                        Some(x)
                    } else if fc_m == Some(y) {
                        Some(y)
                    } else {
                        None
                    };
                    match fc {
                        Some(c) => {
                            if c == 0 {
                                assert(size_match(av[a as int], efs as int, total as int, fc_m) == SizeMatch::Fault);
                                return Err(ImportError::Arithmetic);
                            }
                            if p / c > 0 {
                                let prefix = row.prefix.clone();
                                assert(prefix@ == row.prefix@);
                                return Ok((row.start, prefix, p / c, c));
                            }
                        },
                        None => {},
                    }
                }
            },
            _ => {},
        }
        a = a + 1;
    }
    if n == 0 {
        return Err(ImportError::NoArray);
    }
    let first = &arrs[0];
    assert(av[0] == array_view(*first));
    let (bytes, _starts) = scan_bytes_from(text, first.start);
    let fs = efs;
    let fc: usize = if fs > 0 {
        if bytes.len() > usize::MAX - (fs - 1) {
            return Err(ImportError::Arithmetic);
        }
        (bytes.len() + (fs - 1)) / fs
    } else {
        1
    };
    let fc = if fc < 1 {
        1
    } else {
        fc
    };
    let prefix = first.prefix.clone();
    assert(prefix@ == first.prefix@);
    Ok((first.start, prefix, fs, fc))
}

/// Frame `i` holds the frame `data` describes in the given layout.
pub open spec fn frame_holds(
    f: BinaryFrame,
    w: u32,
    h: u32,
    format: ScanFormat,
    reverse_bits: bool,
    data: Seq<u8>,
) -> bool {
    &&& f.width == w
    &&& f.height == h
    &&& f.pixels@.len() == w * h
    &&& forall|x: int, y: int|
        0 <= x < w && 0 <= y < h ==> #[trigger] f.pixel(x, y) == decoded_pixel(
            data,
            w as int,
            h as int,
            format,
            reverse_bits,
            x,
            y,
        )
}

/// Cuts the scanned bytes into `frame_count` frames of `frame_size` bytes
/// and decodes each one.
fn cut_frames(
    bytes: &Vec<u8>,
    starts: &Vec<usize>,
    frame_count: usize,
    frame_size: usize,
    w: u32,
    h: u32,
    format: ScanFormat,
    reverse_bits: bool,
) -> (r: Result<Vec<BinaryFrame>, ImportError>)
    ensures
        ({
            let st = offsets_view(starts@);
            let fails = frames_fail(
                bytes@.len() as int,
                st,
                frame_count as int,
                frame_size as int,
                w,
                h,
                format,
            );
            match r {
                Ok(fs) => !fails && fs@.len() == frame_count && forall|k: int|
                    0 <= k < frame_count ==> #[trigger] frame_holds(
                        fs@[k],
                        w,
                        h,
                        format,
                        reverse_bits,
                        frame_data(bytes@, st, k, frame_size as int),
                    ),
                Err(e) => fails && e == ImportError::Arithmetic,
            }
        }),
{
    let ghost st = offsets_view(starts@);
    let n = bytes.len();
    assert((w as u64) * (h as u64) <= u64::MAX) by (nonlinear_arith)
        requires
            w <= u32::MAX,
            h <= u32::MAX,
    ;
    let fits = scan_fits(w, h, format) && (w as u64) * (h as u64) <= u32::MAX as u64;
    let mut frames: Vec<BinaryFrame> = Vec::new();
    let mut i: usize = 0;
    while i < frame_count
        invariant
            i <= frame_count,
            n == bytes@.len(),
            st == offsets_view(starts@),
            fits == (w * h <= u32::MAX && scan_len_fits(w as int, h as int, format)),
            i > 0 ==> fits,
            frames@.len() == i,
            forall|j: int|
                0 <= j < i ==> !#[trigger] frame_fault(n as int, st, j, frame_size as int),
            forall|k: int|
                0 <= k < i ==> #[trigger] frame_holds(
                    frames@[k],
                    w,
                    h,
                    format,
                    reverse_bits,
                    frame_data(bytes@, st, k, frame_size as int),
                ),
        decreases frame_count - i,
    {
        let off_default = i.checked_mul(frame_size);
        if off_default.is_none() {
            assert(frame_fault(n as int, st, i as int, frame_size as int));
            return Err(ImportError::Arithmetic);
        }
        let off = if i < starts.len() {
            starts[i]
        } else {
            off_default.unwrap()
        };
        assert(off as int == frame_offset(st, i as int, frame_size as int));
        let end0 = off.checked_add(frame_size);
        if end0.is_none() {
            assert(frame_fault(n as int, st, i as int, frame_size as int));
            return Err(ImportError::Arithmetic);
        }
        let end0 = end0.unwrap();
        let end = if end0 < n {
            end0
        } else {
            n
        };
        if end < off {
            assert(frame_fault(n as int, st, i as int, frame_size as int));
            return Err(ImportError::Arithmetic);
        }
        assert(!frame_fault(n as int, st, i as int, frame_size as int));
        let mut data: Vec<u8> = Vec::new();
        let mut k = off;
        while k < end
            invariant
                off <= k <= end <= n == bytes@.len(),
                data@ == bytes@.subrange(off as int, k as int),
            decreases end - k,
        {
            data.push(bytes[k]);
            k = k + 1;
            assert(data@ =~= bytes@.subrange(off as int, k as int));
        }
        let fill = frame_size - (end - off);
        let mut z: usize = 0;
        while z < fill
            invariant
                z <= fill,
                off <= end <= n == bytes@.len(),
                data@ == bytes@.subrange(off as int, end as int) + Seq::new(
                    z as nat,
                    |j: int| 0u8,
                ),
            decreases fill - z,
        {
            data.push(0u8);
            z = z + 1;
            assert(data@ =~= bytes@.subrange(off as int, end as int) + Seq::new(
                z as nat,
                |j: int| 0u8,
            ));
        }
        assert(data@ == frame_data(bytes@, st, i as int, frame_size as int));
        if !fits {
            return Err(ImportError::Arithmetic);
        }
        let ghost data_v = data@;
        let frame = match bytes_to_binary_frame(data, w, h, format, reverse_bits) {
            Ok(f) => f,
            Err(e) => {
                return Err(e);
            },
        };
        assert(frame_holds(frame, w, h, format, reverse_bits, data_v));
        frames.push(frame);
        i = i + 1;
    }
    Ok(frames)
}


/// A header read back: its name, format, bit order and frames.
pub struct ParsedHeader {
    pub name: String,
    pub format: ScanFormat,
    pub reverse_bits: bool,
    pub frames: Vec<BinaryFrame>,
}

/// The header read back is the one the plan describes: same name, format
/// and bit order, and frame `k` holds the pixels of the plan's frame bytes.
pub open spec fn holds_plan(p: ParsedHeader, plan: HeaderPlan) -> bool {
    &&& p.name@ == plan.name
    &&& p.format == plan.format
    &&& p.reverse_bits == plan.reverse_bits
    &&& p.frames@.len() == plan.frames.len()
    &&& forall|k: int|
        0 <= k < plan.frames.len() ==> #[trigger] frame_holds(
            p.frames@[k],
            plan.width,
            plan.height,
            plan.format,
            plan.reverse_bits,
            plan.frames[k],
        )
}

/// A parse result agrees with the planned one.
pub open spec fn parse_outcome(
    r: Result<ParsedHeader, ImportError>,
    plan: Result<HeaderPlan, ImportFailure>,
) -> bool {
    match (r, plan) {
        (Ok(p), Ok(pl)) => holds_plan(p, pl),
        (Err(e), Err(f)) => failure_of(e) == f,
        _ => false,
    }
}

/// The header's name (see `header_name`).
fn final_name(array_prefix: &Vec<char>, macro_prefix: &String) -> (r: String)
    ensures
        r@ == header_name(array_prefix@, macro_prefix@),
{
    let cp = strip_data_suffix(array_prefix);
    let mp = chars_of(macro_prefix.as_str());
    if chars_equal(&lower_chars(&cp), &lower_chars(&mp)) {
        macro_prefix.clone()
    } else {
        string_from_chars(&cp)
    }
}

/// Reads a header back from its text, given the matches of the header
/// grammar's patterns in it (`mw`, `mh`, `ms`, `mc`: the `*_WIDTH`,
/// `*_HEIGHT`, `*_FRAME_SIZE`, `*_FRAME_COUNT` macros; `ma`: the array
/// declarations; `mf`: the format comment). The result is the one
/// `header_plan` describes.
pub fn parse_header_matches(
    text: &str,
    mw: &Vec<PatternMatch>,
    mh: &Vec<PatternMatch>,
    ms: &Vec<PatternMatch>,
    mc: &Vec<PatternMatch>,
    ma: &Vec<PatternMatch>,
    mf: &Vec<PatternMatch>,
) -> (r: Result<ParsedHeader, ImportError>)
    requires
        forall|i: int| 0 <= i < ma@.len() ==> ma@[i].start <= encode_utf8(text@).len(),
    ensures
        parse_outcome(
            r,
            header_plan(
                text@,
                encode_utf8(text@),
                matches_view(mw@),
                matches_view(mh@),
                matches_view(ms@),
                matches_view(mc@),
                matches_view(ma@),
                matches_view(mf@),
            ),
        ),
{
    let bytes = text.as_bytes();
    assert(bytes@ == encode_utf8(text@));
    let chars = chars_of(text);
    let rows = collect_prefix_maps(mw, mh, ms, mc);
    let ghost table = rows_view(rows@);
    let b = match best_row(&rows) {
        None => {
            return Err(ImportError::NoSizeMacros);
        },
        Some(b) => b,
    };
    proof {
        lemma_best_entry_range(table, rows@.len() as int);
    }
    let row = &rows[b];
    assert(table[b as int] == row_view(*row));
    assert(row.vals@.len() == 4);
    let wv = match row.vals[0] {
        None => {
            return Err(ImportError::MissingWidth);
        },
        Some(v) => v,
    };
    let hv = match row.vals[1] {
        None => {
            return Err(ImportError::MissingHeight);
        },
        Some(v) => v,
    };
    let w = #[verifier::truncate] (wv as u32);
    let h = #[verifier::truncate] (hv as u32);
    let fs_m: Option<usize> = match row.vals[2] {
        Some(v) => Some(v as usize),
        None => None,
    };
    let fc_m: Option<usize> = match row.vals[3] {
        Some(v) => Some(v as usize),
        None => None,
    };
    let format0 = declared_format_of(mf);
    let (efs, total, exp_frames, format) = match expectations_of(w, h, fs_m, fc_m, format0) {
        None => {
            return Err(ImportError::Arithmetic);
        },
        Some(t) => t,
    };
    let reverse_bits = contains_chars(&chars, "字节内位序: 已反转") || contains_chars(
        &chars,
        "bit-reversed",
    ) || contains_chars(&chars, "字节内位序反转: 是") || contains_chars(&chars, "reverse_bits: 1");
    let arrs = find_2d_arrays(ma, Ghost(bytes@.len()));
    let macro_prefix = chars_of(row.name.as_str());
    let chosen = choose_array(bytes, &arrs, &macro_prefix, efs, total, exp_frames, fc_m);
    let (off, array_prefix, fs0, fc0) = match chosen {
        Err(e) => {
            return Err(e);
        },
        Ok(c) => c,
    };
    let cfc = if fc0 == 0 {
        if exp_frames < 1 {
            1
        } else {
            exp_frames
        }
    } else {
        fc0
    };
    let cfs = if fs0 == 0 {
        efs
    } else {
        fs0
    };
    let (data, starts) = scan_bytes_from(bytes, off);
    let need = match cfs.checked_mul(cfc) {
        None => {
            return Err(ImportError::Arithmetic);
        },
        Some(n) => n,
    };
    if data.len() < need {
        return Err(
            ImportError::NotEnoughBytes {
                frame_count: cfc,
                frame_size: cfs,
                found: data.len(),
                array_prefix: string_from_chars(&array_prefix),
                macro_prefix: row.name.clone(),
            },
        );
    }
    let ffc: usize = match fc_m {
        Some(c) => c,
        None => if cfc < 1 {
            1
        } else {
            cfc
        },
    };
    let ffs: usize = match fs_m {
        Some(s) => s,
        None => if cfs < 1 {
            1
        } else {
            cfs
        },
    };
    let frames = match cut_frames(&data, &starts, ffc, ffs, w, h, format, reverse_bits) {
        Err(e) => {
            return Err(e);
        },
        Ok(f) => f,
    };
    let name = final_name(&array_prefix, &row.name);
    let ghost st = offsets_view(starts@);
    let ghost plan_frames = Seq::new(ffc as nat, |i: int| frame_data(data@, st, i, ffs as int));
    assert forall|k: int| 0 <= k < ffc implies #[trigger] frame_holds(
        frames@[k],
        w,
        h,
        format,
        reverse_bits,
        plan_frames[k],
    ) by {
        assert(frame_holds(frames@[k], w, h, format, reverse_bits, frame_data(data@, st, k, ffs as int)));
    }
    Ok(ParsedHeader { name, format, reverse_bits, frames })
}


/// Pattern of the `*_WIDTH` macros.
pub open spec fn width_pattern() -> Seq<char> {
    r"#define\s+(\w+)_WIDTH\s+(\d+)"@
}

/// Pattern of the `*_HEIGHT` macros.
pub open spec fn height_pattern() -> Seq<char> {
    r"#define\s+(\w+)_HEIGHT\s+(\d+)"@
}

/// Pattern of the `*_FRAME_SIZE` macros.
pub open spec fn frame_size_pattern() -> Seq<char> {
    r"#define\s+(\w+)_FRAME_SIZE\s+(\d+)"@
}

/// Pattern of the `*_FRAME_COUNT` macros.
pub open spec fn frame_count_pattern() -> Seq<char> {
    r"#define\s+(\w+)_FRAME_COUNT\s+(\d+)"@
}

/// Pattern of the two-dimensional byte array declarations
/// (`uint8_t`, `unsigned char`, `char` or `u8`, any case; dimensions a
/// number, a macro name or empty).
pub open spec fn array_pattern() -> Seq<char> {
    r#"(?i)(?:uint8_t|unsigned\s+char|char|u8)\s+(?:\s*\*\s*)?([A-Za-z_]\w*)\s*\[\s*([A-Za-z_]\w*|\d*)\s*\]\s*\[\s*([A-Za-z_]\w*|\d*)\s*\]\s*="#@
}

/// Pattern of the format line of the header comment.
pub open spec fn format_pattern() -> Seq<char> {
    r"\*\s*格式:\s*([A-Za-z0-9_]+)"@
}

/// Reads a header back from its text: the header grammar's patterns are
/// matched (`regex_matches`), and the result is the one `header_plan`
/// describes for those matches; `ImportError::Pattern` when a pattern
/// cannot be compiled.
pub fn parse_header_text(text: &str) -> (r: Result<ParsedHeader, ImportError>)
    ensures
        match (
            regex_matches(width_pattern(), text@),
            regex_matches(height_pattern(), text@),
            regex_matches(frame_size_pattern(), text@),
            regex_matches(frame_count_pattern(), text@),
            regex_matches(array_pattern(), text@),
            regex_matches(format_pattern(), text@),
        ) {
            (Some(mw), Some(mh), Some(ms), Some(mc), Some(ma), Some(mf)) => parse_outcome(
                r,
                header_plan(text@, encode_utf8(text@), mw, mh, ms, mc, ma, mf),
            ),
            _ => r == Err::<ParsedHeader, ImportError>(ImportError::Pattern),
        },
{
    let mw = find_matches(r"#define\s+(\w+)_WIDTH\s+(\d+)", text);
    let mh = find_matches(r"#define\s+(\w+)_HEIGHT\s+(\d+)", text);
    let ms = find_matches(r"#define\s+(\w+)_FRAME_SIZE\s+(\d+)", text);
    let mc = find_matches(r"#define\s+(\w+)_FRAME_COUNT\s+(\d+)", text);
    let ma = find_matches(
        r#"(?i)(?:uint8_t|unsigned\s+char|char|u8)\s+(?:\s*\*\s*)?([A-Za-z_]\w*)\s*\[\s*([A-Za-z_]\w*|\d*)\s*\]\s*\[\s*([A-Za-z_]\w*|\d*)\s*\]\s*="#,
        text,
    );
    let mf = find_matches(r"\*\s*格式:\s*([A-Za-z0-9_]+)", text);
    match (mw, mh, ms, mc, ma, mf) {
        (Some(mw), Some(mh), Some(ms), Some(mc), Some(ma), Some(mf)) => parse_header_matches(
            text,
            &mw,
            &mh,
            &ms,
            &mc,
            &ma,
            &mf,
        ),
        _ => Err(ImportError::Pattern),
    }
}

/// Every size macro read from the matches of one pattern sets the
/// quantity of that pattern.
proof fn lemma_macro_events_which(ms: Seq<MatchV>, which: int)
    ensures
        forall|i: int|
            0 <= i < macro_events(ms, which).len() ==> (#[trigger] macro_events(ms, which)[i]).0 == which,
    decreases ms.len(),
{
    if ms.len() > 0 {
        let prev = macro_events(ms.drop_last(), which);
        lemma_macro_events_which(ms.drop_last(), which);
        let tail: Seq<MacroEvent> = match group(ms.last(), 1) {
            Some(p) => seq![(which, p, group_number(ms.last(), 2))],
            None => Seq::empty(),
        };
        assert(macro_events(ms, which) == prev + tail);
        assert forall|i: int| 0 <= i < (prev + tail).len() implies (#[trigger] (prev + tail)[i]).0 == which by {
            if i < prev.len() {
                assert((prev + tail)[i] == prev[i]);
            } else {
                assert((prev + tail)[i] == tail[i - prev.len()]);
            }
        }
    }
}

/// Width and height macros alone leave every prefix with four values, of
/// which the frame size and the frame count are absent.
proof fn lemma_table_without_counts(evs: Seq<MacroEvent>)
    requires
        forall|i: int| 0 <= i < evs.len() ==> (#[trigger] evs[i]).0 == 0 || evs[i].0 == 1,
    ensures
        forall|j: int|
            0 <= j < prefix_table(evs).len() ==> (#[trigger] prefix_table(evs)[j]).2.len() == 4
                && prefix_table(evs)[j].2[2] is None && prefix_table(evs)[j].2[3] is None,
    decreases evs.len(),
{
    if evs.len() > 0 {
        let rest = evs.drop_last();
        assert forall|i: int| 0 <= i < rest.len() implies (#[trigger] rest[i]).0 == 0 || rest[i].0 == 1 by {
            assert(rest[i] == evs[i]);
        }
        lemma_table_without_counts(rest);
        let prev = prefix_table(rest);
        let ev = evs.last();
        assert(ev.0 == 0 || ev.0 == 1) by {
            assert(ev == evs[evs.len() - 1]);
        }
        lemma_find_key(prev, ascii_lower(ev.1), 0);
    }
}

/// A header with no `*_FRAME_COUNT` and no `*_FRAME_SIZE` macro, whose one
/// array is declared `[c][s]` with `c >= 1` and `s` the frame size of its
/// image, is read back as exactly `c` frames: the frame count comes from
/// the array's dimensions.
pub proof fn law_frame_count_from_array_dims(
    text: Seq<char>,
    bytes: Seq<u8>,
    mw: Seq<MatchV>,
    mh: Seq<MatchV>,
    ms: Seq<MatchV>,
    mc: Seq<MatchV>,
    ma: Seq<MatchV>,
    mf: Seq<MatchV>,
    c: usize,
    s: usize,
    plan: HeaderPlan,
)
    requires
        ms.len() == 0,
        mc.len() == 0,
        array_decls(ma).len() == 1,
        array_decls(ma)[0].2 == Some(c as u64),
        array_decls(ma)[0].3 == Some(s as u64),
        c >= 1,
        s == scan_len(plan.width as int, plan.height as int, plan.format),
        header_plan(text, bytes, mw, mh, ms, mc, ma, mf) == Ok::<HeaderPlan, ImportFailure>(plan),
    ensures
        plan.frames.len() == c,
{
    let e0 = macro_events(mw, 0);
    let e1 = macro_events(mh, 1);
    let evs = e0 + e1 + macro_events(ms, 2) + macro_events(mc, 3);
    lemma_macro_events_which(mw, 0);
    lemma_macro_events_which(mh, 1);
    assert(macro_events(ms, 2) =~= Seq::<MacroEvent>::empty());
    assert(macro_events(mc, 3) =~= Seq::<MacroEvent>::empty());
    assert(evs =~= e0 + e1);
    assert forall|i: int| 0 <= i < evs.len() implies (#[trigger] evs[i]).0 == 0 || evs[i].0 == 1 by {
        if i < e0.len() {
            assert(evs[i] == e0[i]);
        } else {
            assert(evs[i] == e1[i - e0.len()]);
        }
    }
    lemma_table_without_counts(evs);
    let table = prefix_table(evs);
    lemma_best_entry_range(table, table.len() as int);
    assert((c as u64) as usize == c);
    assert((s as u64) as usize == s);
    let b = best_entry(table, table.len() as int)->0;
    let vals = table[b].2;
    assert(vals[2] is None && vals[3] is None);
    let w = vals[0]->0 as u32;
    let h = vals[1]->0 as u32;
    let f0 = declared_format(mf);
    let efs = scan_len(w as int, h as int, f0);
    assert(expectations(w, h, None, None, f0) == Some((efs, efs, 1int, f0)));
    assert(plan.width == w && plan.height == h && plan.format == f0);
    assert(s == efs);
    let arrs = array_decls(ma);
    let ch = chosen_array(bytes, arrs, table[b].1, efs, efs, 1, None);
    assert(named_array_sizes(arrs[0], efs, 1) == (s as int, c as int));
    assert(size_match(arrs[0], efs, efs, None) == SizeMatch::Take(s as int, c as int));
    let key = ascii_lower(table[b].1);
    lemma_first_named(arrs, key, 0);
    match first_named(arrs, key, 0) {
        Some(a) => {
            assert(a == 0);
        },
        None => {
            assert(first_fitting(arrs, efs, efs, None, 0) == Some(
                Ok::<(int, int, int), ()>((0int, s as int, c as int)),
            ));
        },
    }
    assert(ch is Ok);
    assert(ch->Ok_0.2 == s && ch->Ok_0.3 == c);
}

} // verus!
