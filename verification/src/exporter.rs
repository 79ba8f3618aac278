//! Writing frames as a C header: identifiers, the size macros, the array
//! declaration and the initialiser lines.

use vstd::prelude::*;
use crate::processor::{format_name, scan_len, scan_len_fits, BinaryFrame, ScanFormat};
use crate::text::{
    chars_of, decimal, hex_byte, push_chars, push_decimal, push_hex_byte, push_spaces, push_str,
    spaces, string_from_chars, to_lowercase, unicode_lowercase,
};

verus! {

/// Export settings.
pub struct ExportConfig {
    /// Array / macro name.
    pub name: String,
    /// Whether to wrap the data in `#if IMG2C_<NAME>`.
    pub use_conditional: bool,
    /// Bytes per line of the array initialiser.
    pub bytes_per_line: usize,
}

impl Default for ExportConfig {
    fn default() -> (r: Self)
        ensures
            r.name@ == "img"@,
            r.use_conditional,
            r.bytes_per_line == 16,
    {
        ExportConfig { name: String::from_str("img"), use_conditional: true, bytes_per_line: 16 }
    }
}

/// ASCII letter.
pub open spec fn is_ascii_alpha(c: char) -> bool {
    ('a' <= c && c <= 'z') || ('A' <= c && c <= 'Z')
}

/// ASCII decimal digit.
pub open spec fn is_ascii_digit(c: char) -> bool {
    '0' <= c && c <= '9'
}

/// ASCII upper case of `c` (other characters unchanged).
pub open spec fn ascii_upper(c: char) -> char {
    if 'a' <= c && c <= 'z' {
        ((c as u32) - 32) as char
    } else {
        c
    }
}

/// What the first character of a name becomes in a C identifier.
pub open spec fn ident_head(c: char) -> Seq<char> {
    if is_ascii_alpha(c) || c == '_' {
        seq![ascii_upper(c)]
    } else if is_ascii_digit(c) {
        seq!['_', c]
    } else {
        seq!['_']
    }
}

/// What a later character of a name becomes in a C identifier.
pub open spec fn ident_tail_char(c: char) -> char {
    if is_ascii_alpha(c) || is_ascii_digit(c) || c == '_' {
        ascii_upper(c)
    } else {
        '_'
    }
}

/// The upper-case C identifier made from a name: every character that may
/// not stand in an identifier becomes `_`, a leading digit is preceded by
/// `_`, and the empty name becomes `IMG_DATA`.
pub open spec fn c_ident(name: Seq<char>) -> Seq<char> {
    if name.len() == 0 {
        "IMG_DATA"@
    } else {
        ident_head(name[0]) + name.skip(1).map_values(|c: char| ident_tail_char(c))
    }
}

fn is_alpha(c: char) -> (r: bool)
    ensures
        r == is_ascii_alpha(c),
{
    ('a' <= c && c <= 'z') || ('A' <= c && c <= 'Z')
}

fn is_digit(c: char) -> (r: bool)
    ensures
        r == is_ascii_digit(c),
{
    '0' <= c && c <= '9'
}

fn upper(c: char) -> (r: char)
    ensures
        r == ascii_upper(c),
{
    if 'a' <= c && c <= 'z' {
        ((c as u8) - 32) as char
    } else {
        c
    }
}

/// The name as an upper-case C identifier (see `c_ident`).
pub fn to_c_ident(name: &str) -> (r: Vec<char>)
    ensures
        r@ == c_ident(name@),
{
    let cs = chars_of(name);
    let mut result: Vec<char> = Vec::new();
    if cs.len() == 0 {
        push_str(&mut result, "IMG_DATA");
        return result;
    }
    let c0 = cs[0];
    if is_alpha(c0) || c0 == '_' {
        result.push(upper(c0));
    } else if is_digit(c0) {
        result.push('_');
        result.push(c0);
    } else {
        result.push('_');
    }
    let mut i: usize = 1;
    while i < cs.len()
        invariant
            1 <= i <= cs@.len(),
            cs@ == name@,
            result@ == ident_head(cs@[0]) + cs@.subrange(1, i as int).map_values(
                |c: char| ident_tail_char(c),
            ),
        decreases cs@.len() - i,
    {
        let c = cs[i];
        let t = if is_alpha(c) || is_digit(c) || c == '_' {
            upper(c)
        } else {
            '_'
        };
        result.push(t);
        i = i + 1;
        assert(cs@.subrange(1, i as int).map_values(|c: char| ident_tail_char(c)) == cs@.subrange(
            1,
            i - 1,
        ).map_values(|c: char| ident_tail_char(c)).push(ident_tail_char(c)));
    }
    assert(cs@.subrange(1, cs@.len() as int) == cs@.skip(1));
    result
}

/// A C identifier: not empty, letters, digits and `_` only, not starting with a digit.
pub open spec fn is_c_identifier(s: Seq<char>) -> bool {
    &&& s.len() > 0
    &&& !is_ascii_digit(s[0])
    &&& forall|i: int| 0 <= i < s.len() ==> is_ascii_alpha(#[trigger] s[i]) || is_ascii_digit(s[i]) || s[i] == '_'
}

/// Every name becomes a valid, upper-case C identifier.
pub proof fn law_c_ident_is_identifier(name: Seq<char>)
    ensures
        is_c_identifier(c_ident(name)),
        forall|i: int| 0 <= i < c_ident(name).len() ==> !('a' <= #[trigger] c_ident(name)[i] && c_ident(name)[i] <= 'z'),
{
    if name.len() == 0 {
        reveal_strlit("IMG_DATA");
    } else {
        let s = c_ident(name);
        let h = ident_head(name[0]);
        assert forall|i: int| 0 <= i < s.len() implies (is_ascii_alpha(#[trigger] s[i]) || is_ascii_digit(s[i]) || s[i] == '_') && !('a' <= s[i] && s[i] <= 'z') by {
            if i >= h.len() {
                assert(s[i] == ident_tail_char(name.skip(1)[i - h.len()]));
            }
        }
    }
}

/// The include-guard macro: the identifier followed by `_H`.
pub open spec fn guard_for(name: Seq<char>) -> Seq<char> {
    c_ident(name) + "_H"@
}

/// The include-guard macro for a name.
pub fn guard_name(name: &str) -> (r: Vec<char>)
    ensures
        r@ == guard_for(name@),
{
    let mut r = to_c_ident(name);
    push_str(&mut r, "_H");
    r
}


/// `0xHH,` for every byte, in order.
pub open spec fn hex_entries(bytes: Seq<u8>) -> Seq<char>
    decreases bytes.len(),
{
    if bytes.len() == 0 {
        Seq::empty()
    } else {
        hex_entries(bytes.drop_last()) + hex_byte(bytes.last()) + seq![',']
    }
}

/// Where the line of the initialiser that starts at byte `start` ends: after
/// `bytes_per_line` bytes, or at the end (a zero `bytes_per_line` puts
/// everything on one line).
pub open spec fn line_end(len: int, bytes_per_line: int, start: int) -> int {
    if bytes_per_line <= 0 || start + bytes_per_line > len {
        len
    } else {
        start + bytes_per_line
    }
}

/// The initialiser lines from byte `start` on: each holds up to
/// `bytes_per_line` entries `0xHH,`, is indented by four spaces and
/// separated from the previous line by a newline.
pub open spec fn byte_lines_from(bytes: Seq<u8>, bytes_per_line: int, start: int) -> Seq<char>
    decreases bytes.len() - start,
{
    if start < 0 || start >= bytes.len() {
        Seq::empty()
    } else {
        let end = line_end(bytes.len() as int, bytes_per_line, start);
        (if start > 0 {
            "\n"@
        } else {
            Seq::empty()
        }) + "    "@ + hex_entries(bytes.subrange(start, end)) + byte_lines_from(
            bytes,
            bytes_per_line,
            end,
        )
    }
}

/// The bytes as lines of a C initialiser list (no newline after the last line).
pub open spec fn formatted_bytes(bytes: Seq<u8>, bytes_per_line: int) -> Seq<char> {
    byte_lines_from(bytes, bytes_per_line, 0)
}

fn push_hex_entries(out: &mut Vec<char>, bytes: &Vec<u8>, start: usize, end: usize)
    requires
        start <= end <= bytes@.len(),
    ensures
        final(out)@ == old(out)@ + hex_entries(bytes@.subrange(start as int, end as int)),
{
    let mut i = start;
    while i < end
        invariant
            start <= i <= end <= bytes@.len(),
            out@ == old(out)@ + hex_entries(bytes@.subrange(start as int, i as int)),
        decreases end - i,
    {
        push_hex_byte(out, bytes[i]);
        out.push(',');
        i = i + 1;
        assert(bytes@.subrange(start as int, i as int).drop_last() == bytes@.subrange(
            start as int,
            i - 1,
        ));
    }
}

/// Appends the bytes as lines of a C initialiser list.
fn push_formatted_bytes(out: &mut Vec<char>, bytes: &Vec<u8>, bytes_per_line: usize)
    requires
        bytes_per_line > 0 || bytes@.len() <= 1,
    ensures
        final(out)@ == old(out)@ + formatted_bytes(bytes@, bytes_per_line as int),
{
    let n = bytes.len();
    let mut start: usize = 0;
    while start < n
        invariant
            start <= n == bytes@.len(),
            bytes_per_line > 0 || n <= 1,
            out@ + byte_lines_from(bytes@, bytes_per_line as int, start as int) == old(out)@
                + formatted_bytes(bytes@, bytes_per_line as int),
        decreases n - start,
    {
        let end = if bytes_per_line == 0 || bytes_per_line > n - start {
            n
        } else {
            start + bytes_per_line
        };
        let ghost before = out@;
        if start > 0 {
            push_str(out, "\n");
        }
        push_str(out, "    ");
        push_hex_entries(out, bytes, start, end);
        proof {
            let piece = (if start > 0 {
                "\n"@
            } else {
                Seq::empty()
            }) + "    "@ + hex_entries(bytes@.subrange(start as int, end as int));
            assert(out@ == before + piece);
            assert(byte_lines_from(bytes@, bytes_per_line as int, start as int) == piece
                + byte_lines_from(bytes@, bytes_per_line as int, end as int));
            assert(before + (piece + byte_lines_from(bytes@, bytes_per_line as int, end as int))
                == out@ + byte_lines_from(bytes@, bytes_per_line as int, end as int));
        }
        start = end;
    }
}

/// The bytes as lines of a C initialiser list: up to `bytes_per_line`
/// entries `0xHH,` per line, each line indented by four spaces.
pub fn format_bytes(bytes: &Vec<u8>, bytes_per_line: usize) -> (r: String)
    requires
        bytes_per_line > 0 || bytes@.len() <= 1,
    ensures
        r@ == formatted_bytes(bytes@, bytes_per_line as int),
{
    let mut out: Vec<char> = Vec::new();
    push_formatted_bytes(&mut out, bytes, bytes_per_line);
    string_from_chars(&out)
}


/// A `#define` line: the name left-aligned in a column of `name_w`
/// characters, a tab, the value centred in a column of `val_w` characters
/// (the odd space goes to the right), a tab and the comment.
pub open spec fn define_line(
    name: Seq<char>,
    val: Seq<char>,
    comment: Seq<char>,
    name_w: int,
    val_w: int,
) -> Seq<char> {
    let npad = if name.len() < name_w {
        name_w - name.len()
    } else {
        0
    };
    let vpad = if val.len() < val_w {
        val_w - val.len()
    } else {
        0
    };
    "#define "@ + name + spaces(npad as nat) + "\t"@ + spaces((vpad / 2) as nat) + val + spaces(
        (vpad - vpad / 2) as nat,
    ) + "\t// "@ + comment + "\n"@
}

/// The size macros of a header, as (name, value, comment): the optional
/// compile switch `IMG2C_<IDENT>`, then width, height, frame size, frame
/// count and total size.
pub open spec fn header_macros(
    ident: Seq<char>,
    use_conditional: bool,
    w: nat,
    h: nat,
    frame_size: nat,
    frame_count: nat,
    total: nat,
) -> Seq<(Seq<char>, Seq<char>, Seq<char>)> {
    (if use_conditional {
        seq![("IMG2C_"@ + ident, "1"@, "是否编译"@)]
    } else {
        Seq::empty()
    }) + seq![
        (ident + "_WIDTH"@, decimal(w), "图像宽度(像素)"@),
        (ident + "_HEIGHT"@, decimal(h), "图像高度(像素)"@),
        (ident + "_FRAME_SIZE"@, decimal(frame_size), "单帧字节数"@),
        (ident + "_FRAME_COUNT"@, decimal(frame_count), "帧数"@),
        (ident + "_TOTAL_SIZE"@, decimal(total), "总字节数"@),
    ]
}

/// Longest macro name among the first `n` macros.
pub open spec fn max_name_len(ms: Seq<(Seq<char>, Seq<char>, Seq<char>)>, n: int) -> int
    decreases n,
{
    if n <= 0 {
        0
    } else {
        let prev = max_name_len(ms, n - 1);
        if ms[n - 1].0.len() > prev {
            ms[n - 1].0.len() as int
        } else {
            prev
        }
    }
}

/// Longest macro value among the first `n` macros.
pub open spec fn max_val_len(ms: Seq<(Seq<char>, Seq<char>, Seq<char>)>, n: int) -> int
    decreases n,
{
    if n <= 0 {
        0
    } else {
        let prev = max_val_len(ms, n - 1);
        if ms[n - 1].1.len() > prev {
            ms[n - 1].1.len() as int
        } else {
            prev
        }
    }
}

/// Text of macro `j`: the compile switch (the first macro when
/// `use_conditional`) is followed by `#if <switch>` and a blank line; every
/// size macro is written as it is, whatever its name.
pub open spec fn macro_text(
    m: (Seq<char>, Seq<char>, Seq<char>),
    j: int,
    use_conditional: bool,
    name_w: int,
    val_w: int,
) -> Seq<char> {
    if use_conditional && j == 0 {
        define_line(m.0, m.1, m.2, name_w, val_w) + "#if "@ + m.0 + "\n"@ + "\n"@
    } else {
        define_line(m.0, m.1, m.2, name_w, val_w)
    }
}

/// Text of the first `n` macros.
pub open spec fn macro_lines(
    ms: Seq<(Seq<char>, Seq<char>, Seq<char>)>,
    n: int,
    use_conditional: bool,
    name_w: int,
    val_w: int,
) -> Seq<char>
    decreases n,
{
    if n <= 0 {
        Seq::empty()
    } else {
        macro_lines(ms, n - 1, use_conditional, name_w, val_w) + macro_text(
            ms[n - 1],
            n - 1,
            use_conditional,
            name_w,
            val_w,
        )
    }
}

/// The macro block: all macros, aligned on the longest name and value.
#[verifier::opaque]
pub open spec fn macro_block(ms: Seq<(Seq<char>, Seq<char>, Seq<char>)>, use_conditional: bool) -> Seq<char> {
    macro_lines(
        ms,
        ms.len() as int,
        use_conditional,
        max_name_len(ms, ms.len() as int),
        max_val_len(ms, ms.len() as int),
    )
}

/// The array body: every frame as `  {`, its initialiser lines, `  },`.
#[verifier::opaque]
pub open spec fn frames_block(
    frames: Seq<BinaryFrame>,
    format: ScanFormat,
    reverse_bits: bool,
    pad: bool,
    bytes_per_line: int,
) -> Seq<char>
    decreases frames.len(),
{
    if frames.len() == 0 {
        Seq::empty()
    } else {
        frames_block(frames.drop_last(), format, reverse_bits, pad, bytes_per_line) + "  {\n"@
            + formatted_bytes(frames.last().scan_bytes(format, reverse_bits, pad), bytes_per_line)
            + "\n"@ + "  },\n"@
    }
}

/// The comment at the top of a header.
#[verifier::opaque]
pub open spec fn header_comment(
    w: nat,
    h: nat,
    format: ScanFormat,
    reverse_bits: bool,
    frame_size: nat,
    total: nat,
) -> Seq<char> {
    "/* 自动生成 by img2c\n"@ + " * 尺寸: "@ + decimal(w) + " x "@ + decimal(h) + "\n"@
        + " * 格式: "@ + format_name(format) + "\n"@ + (if reverse_bits {
        " * 字节内位序: 已反转\n"@
    } else {
        Seq::empty()
    }) + " * 单帧字节数: "@ + decimal(frame_size) + "\n"@ + " * 总字节数: "@ + decimal(total)
        + "\n"@ + " */\n"@
}

/// The include guard and `stdint.h` include.
#[verifier::opaque]
pub open spec fn header_prologue(guard: Seq<char>) -> Seq<char> {
    "#ifndef "@ + guard + "\n"@ + "#define "@ + guard + "\n"@ + "\n"@ + "#include <stdint.h>\n"@
        + "\n"@
}

/// The array declaration line.
#[verifier::opaque]
pub open spec fn array_declaration(name: Seq<char>, ident: Seq<char>) -> Seq<char> {
    "static const uint8_t "@ + unicode_lowercase(name) + "_data"@ + "["@ + ident
        + "_FRAME_COUNT]["@ + ident + "_FRAME_SIZE] = {\n"@
}

/// The closing lines: `#endif` of the compile switch (when used) and of the guard.
#[verifier::opaque]
pub open spec fn header_epilogue(ident: Seq<char>, guard: Seq<char>, use_conditional: bool) -> Seq<char> {
    (if use_conditional {
        "#endif /* "@ + ("IMG2C_"@ + ident) + " */\n"@ + "\n"@
    } else {
        Seq::empty()
    }) + "#endif /* "@ + guard + " */\n"@
}

/// The whole C header for the frames; the size macros describe the first frame.
pub open spec fn c_header(
    frames: Seq<BinaryFrame>,
    format: ScanFormat,
    reverse_bits: bool,
    pad: bool,
    name: Seq<char>,
    use_conditional: bool,
    bytes_per_line: int,
) -> Seq<char> {
    if frames.len() == 0 {
        "/* 错误：没有帧数据 */"@
    } else {
        let ident = c_ident(name);
        let guard = ident + "_H"@;
        let w = frames[0].width as nat;
        let h = frames[0].height as nat;
        let fs = scan_len(w as int, h as int, format) as nat;
        let fc = frames.len();
        let total = fs * fc;
        header_comment(w, h, format, reverse_bits, fs, total) + header_prologue(guard)
            + macro_block(header_macros(ident, use_conditional, w, h, fs, fc, total), use_conditional)
            + "\n"@ + array_declaration(name, ident) + frames_block(
            frames,
            format,
            reverse_bits,
            pad,
            bytes_per_line,
        ) + "};\n"@ + header_epilogue(ident, guard, use_conditional)
    }
}


fn push_header_comment(
    out: &mut Vec<char>,
    w: u32,
    h: u32,
    format: ScanFormat,
    reverse_bits: bool,
    frame_size: usize,
    total: usize,
)
    ensures
        final(out)@ == old(out)@ + header_comment(
            w as nat,
            h as nat,
            format,
            reverse_bits,
            frame_size as nat,
            total as nat,
        ),
{
    let ghost start = out@;
    push_str(out, "/* 自动生成 by img2c\n");
    push_str(out, " * 尺寸: ");
    push_decimal(out, w as u64);
    push_str(out, " x ");
    push_decimal(out, h as u64);
    push_str(out, "\n");
    push_str(out, " * 格式: ");
    push_str(out, format.name());
    push_str(out, "\n");
    let ghost mid = out@;
    if reverse_bits {
        push_str(out, " * 字节内位序: 已反转\n");
    }
    let ghost mid2 = out@;
    push_str(out, " * 单帧字节数: ");
    push_decimal(out, frame_size as u64);
    push_str(out, "\n");
    push_str(out, " * 总字节数: ");
    push_decimal(out, total as u64);
    push_str(out, "\n");
    push_str(out, " */\n");
    reveal(header_comment);
    assert(out@ =~= start + header_comment(
        w as nat,
        h as nat,
        format,
        reverse_bits,
        frame_size as nat,
        total as nat,
    ));
}

fn push_prologue(out: &mut Vec<char>, guard: &Vec<char>)
    ensures
        final(out)@ == old(out)@ + header_prologue(guard@),
{
    let ghost start = out@;
    push_str(out, "#ifndef ");
    push_chars(out, guard);
    push_str(out, "\n");
    push_str(out, "#define ");
    push_chars(out, guard);
    push_str(out, "\n");
    push_str(out, "\n");
    push_str(out, "#include <stdint.h>\n");
    push_str(out, "\n");
    reveal(header_prologue);
    assert(out@ =~= start + header_prologue(guard@));
}

fn push_define_line(
    out: &mut Vec<char>,
    name: &Vec<char>,
    val: &Vec<char>,
    comment: &str,
    name_w: usize,
    val_w: usize,
)
    ensures
        final(out)@ == old(out)@ + define_line(
            name@,
            val@,
            comment@,
            name_w as int,
            val_w as int,
        ),
{
    let ghost start = out@;
    let npad = if name.len() < name_w {
        name_w - name.len()
    } else {
        0
    };
    let vpad = if val.len() < val_w {
        val_w - val.len()
    } else {
        0
    };
    push_str(out, "#define ");
    push_chars(out, name);
    push_spaces(out, npad);
    push_str(out, "\t");
    let ghost a = "#define "@ + name@ + spaces(npad as nat) + "\t"@;
    assert(out@ =~= start + a);
    push_spaces(out, vpad / 2);
    push_chars(out, val);
    push_spaces(out, vpad - vpad / 2);
    let ghost b = a + spaces((vpad / 2) as nat) + val@ + spaces((vpad - vpad / 2) as nat);
    assert(out@ =~= start + b);
    push_str(out, "\t// ");
    push_str(out, comment);
    push_str(out, "\n");
    assert(out@ =~= start + (b + "\t// "@ + comment@ + "\n"@));
    assert(out@ =~= start + define_line(name@, val@, comment@, name_w as int, val_w as int));
}


/// One size macro of the header.
struct MacroDef {
    name: Vec<char>,
    value: Vec<char>,
    comment: &'static str,
}

spec fn macro_view(m: MacroDef) -> (Seq<char>, Seq<char>, Seq<char>) {
    (m.name@, m.value@, m.comment@)
}

fn named(ident: &Vec<char>, suffix: &str) -> (r: Vec<char>)
    ensures
        r@ == ident@ + suffix@,
{
    let mut r: Vec<char> = Vec::new();
    push_chars(&mut r, ident);
    push_str(&mut r, suffix);
    r
}

fn decimal_chars(n: u64) -> (r: Vec<char>)
    ensures
        r@ == decimal(n as nat),
{
    let mut r: Vec<char> = Vec::new();
    push_decimal(&mut r, n);
    r
}

fn build_macros(
    ident: &Vec<char>,
    use_conditional: bool,
    w: u32,
    h: u32,
    frame_size: usize,
    frame_count: usize,
    total: usize,
) -> (ms: Vec<MacroDef>)
    ensures
        ms@.map_values(|m: MacroDef| macro_view(m)) == header_macros(
            ident@,
            use_conditional,
            w as nat,
            h as nat,
            frame_size as nat,
            frame_count as nat,
            total as nat,
        ),
{
    let mut ms: Vec<MacroDef> = Vec::new();
    if use_conditional {
        let mut n: Vec<char> = Vec::new();
        push_str(&mut n, "IMG2C_");
        push_chars(&mut n, ident);
        let mut v: Vec<char> = Vec::new();
        push_str(&mut v, "1");
        ms.push(MacroDef { name: n, value: v, comment: "是否编译" });
    }
    ms.push(MacroDef { name: named(ident, "_WIDTH"), value: decimal_chars(w as u64), comment: "图像宽度(像素)" });
    ms.push(MacroDef { name: named(ident, "_HEIGHT"), value: decimal_chars(h as u64), comment: "图像高度(像素)" });
    ms.push(MacroDef { name: named(ident, "_FRAME_SIZE"), value: decimal_chars(frame_size as u64), comment: "单帧字节数" });
    ms.push(MacroDef { name: named(ident, "_FRAME_COUNT"), value: decimal_chars(frame_count as u64), comment: "帧数" });
    ms.push(MacroDef { name: named(ident, "_TOTAL_SIZE"), value: decimal_chars(total as u64), comment: "总字节数" });
    assert(ms@.map_values(|m: MacroDef| macro_view(m)) =~= header_macros(
            ident@,
            use_conditional,
            w as nat,
            h as nat,
            frame_size as nat,
            frame_count as nat,
            total as nat,
        ));
    ms
}

fn push_macro_block(out: &mut Vec<char>, ms: &Vec<MacroDef>, use_conditional: bool)
    ensures
        final(out)@ == old(out)@ + macro_block(ms@.map_values(|m: MacroDef| macro_view(m)), use_conditional),
{
    let ghost mv = ms@.map_values(|m: MacroDef| macro_view(m));
    let mut name_w: usize = 0;
    let mut val_w: usize = 0;
    let mut j: usize = 0;
    while j < ms.len()
        invariant
            j <= ms@.len(),
            mv == ms@.map_values(|m: MacroDef| macro_view(m)),
            name_w == max_name_len(mv, j as int),
            val_w == max_val_len(mv, j as int),
        decreases ms@.len() - j,
    {
        if ms[j].name.len() > name_w {
            name_w = ms[j].name.len();
        }
        if ms[j].value.len() > val_w {
            val_w = ms[j].value.len();
        }
        j = j + 1;
    }
    let ghost start = out@;
    reveal(macro_block);
    let mut j: usize = 0;
    while j < ms.len()
        invariant
            j <= ms@.len(),
            mv == ms@.map_values(|m: MacroDef| macro_view(m)),
            name_w == max_name_len(mv, ms@.len() as int),
            val_w == max_val_len(mv, ms@.len() as int),
            out@ == start + macro_lines(mv, j as int, use_conditional, name_w as int, val_w as int),
        decreases ms@.len() - j,
    {
        let m = &ms[j];
        assert(mv[j as int] == macro_view(*m));
        if use_conditional && j == 0 {
            push_define_line(out, &m.name, &m.value, m.comment, name_w, val_w);
            push_str(out, "#if ");
            push_chars(out, &m.name);
            push_str(out, "\n");
            push_str(out, "\n");
        } else {
            push_define_line(out, &m.name, &m.value, m.comment, name_w, val_w);
        }
        j = j + 1;
        assert(out@ =~= start + macro_lines(mv, j as int, use_conditional, name_w as int, val_w as int));
    }
}

/// One more frame adds its rows to the array body.
proof fn lemma_frames_block_step(
    frames: Seq<BinaryFrame>,
    k: int,
    format: ScanFormat,
    reverse_bits: bool,
    pad: bool,
    bytes_per_line: int,
)
    requires
        0 <= k < frames.len(),
    ensures
        frames_block(frames.take(k + 1), format, reverse_bits, pad, bytes_per_line) == frames_block(
            frames.take(k),
            format,
            reverse_bits,
            pad,
            bytes_per_line,
        ) + ("  {\n"@ + formatted_bytes(frames[k].scan_bytes(format, reverse_bits, pad), bytes_per_line)
            + "\n"@ + "  },\n"@),
{
    reveal(frames_block);
    assert(frames.take(k + 1).drop_last() == frames.take(k));
    assert(frames.take(k + 1).last() == frames[k]);
    let a = frames_block(frames.take(k), format, reverse_bits, pad, bytes_per_line);
    let f = formatted_bytes(frames[k].scan_bytes(format, reverse_bits, pad), bytes_per_line);
    assert(a + "  {\n"@ + f + "\n"@ + "  },\n"@ =~= a + ("  {\n"@ + f + "\n"@ + "  },\n"@));
}

fn push_frames_block(
    out: &mut Vec<char>,
    frames: &[BinaryFrame],
    format: ScanFormat,
    reverse_bits: bool,
    pad: bool,
    bytes_per_line: usize,
)
    requires
        forall|k: int|
            0 <= k < frames@.len() ==> #[trigger] frames@[k].covers() && scan_len_fits(
                frames@[k].width as int,
                frames@[k].height as int,
                format,
            ) && (bytes_per_line > 0 || scan_len(
                frames@[k].width as int,
                frames@[k].height as int,
                format,
            ) <= 1),
    ensures
        final(out)@ == old(out)@ + frames_block(
            frames@,
            format,
            reverse_bits,
            pad,
            bytes_per_line as int,
        ),
{
    let ghost start = out@;
    assert(frames_block(frames@.take(0), format, reverse_bits, pad, bytes_per_line as int)
        == Seq::<char>::empty()) by {
        reveal(frames_block);
    }
    let mut k: usize = 0;
    while k < frames.len()
        invariant
            k <= frames@.len(),
            forall|k: int|
                0 <= k < frames@.len() ==> #[trigger] frames@[k].covers() && scan_len_fits(
                    frames@[k].width as int,
                    frames@[k].height as int,
                    format,
                ) && (bytes_per_line > 0 || scan_len(
                    frames@[k].width as int,
                    frames@[k].height as int,
                    format,
                ) <= 1),
            out@ == start + frames_block(
                frames@.take(k as int),
                format,
                reverse_bits,
                pad,
                bytes_per_line as int,
            ),
        decreases frames@.len() - k,
    {
        let frame = &frames[k];
        assert(frames@[k as int].covers());
        let bytes = frame.to_bytes(format, reverse_bits, pad);
        let ghost prev = out@;
        push_str(out, "  {\n");
        push_formatted_bytes(out, &bytes, bytes_per_line);
        push_str(out, "\n");
        push_str(out, "  },\n");
        proof {
            lemma_frames_block_step(frames@, k as int, format, reverse_bits, pad, bytes_per_line as int);
            let piece = "  {\n"@ + formatted_bytes(bytes@, bytes_per_line as int) + "\n"@ + "  },\n"@;
            assert(out@ =~= prev + piece);
        }
        k = k + 1;
    }
    assert(frames@.take(frames@.len() as int) == frames@);
}

/// What `export_c_header` needs of its frames: each one's pixels are all
/// present and its byte count fits the machine integers, the total byte
/// count fits `usize`, and with zero bytes per line no frame has more than
/// one byte.
pub open spec fn exportable(frames: Seq<BinaryFrame>, format: ScanFormat, bytes_per_line: int) -> bool {
    &&& forall|k: int|
        0 <= k < frames.len() ==> #[trigger] frames[k].covers() && scan_len_fits(
            frames[k].width as int,
            frames[k].height as int,
            format,
        ) && (bytes_per_line > 0 || scan_len(frames[k].width as int, frames[k].height as int, format)
            <= 1)
    &&& frames.len() > 0 ==> scan_len(frames[0].width as int, frames[0].height as int, format)
        * frames.len() <= usize::MAX
}

/// The frames as a C header (see `c_header`): a comment, the include guard,
/// the size macros, and one array row per frame in the given format. The
/// array is named after the lower-cased export name, which for an ASCII
/// name is its ASCII lower case.
pub fn export_c_header(
    frames: &[BinaryFrame],
    format: ScanFormat,
    reverse_bits: bool,
    pad_unused_bits_1: bool,
    config: &ExportConfig,
) -> (r: String)
    requires
        exportable(frames@, format, config.bytes_per_line as int),
    ensures
        r@ == c_header(
            frames@,
            format,
            reverse_bits,
            pad_unused_bits_1,
            config.name@,
            config.use_conditional,
            config.bytes_per_line as int,
        ),
        frames@.len() > 0 && crate::text::is_ascii_text(config.name@) ==> unicode_lowercase(
            config.name@,
        ) == crate::importer::ascii_lower(config.name@),
{
    let mut out: Vec<char> = Vec::new();
    if frames.len() == 0 {
        push_str(&mut out, "/* 错误：没有帧数据 */");
        return string_from_chars(&out);
    }
    let name = config.name.as_str();
    let name_ident = to_c_ident(name);
    let guard = guard_name(name);
    let width = frames[0].width;
    let height = frames[0].height;
    assert(frames@[0].covers());
    let frame_size = frames[0].frame_size(format);
    let frame_count = frames.len();
    let total_size = frame_size * frame_count;
    push_header_comment(&mut out, width, height, format, reverse_bits, frame_size, total_size);
    push_prologue(&mut out, &guard);
    let macros = build_macros(
        &name_ident,
        config.use_conditional,
        width,
        height,
        frame_size,
        frame_count,
        total_size,
    );
    push_macro_block(&mut out, &macros, config.use_conditional);
    push_str(&mut out, "\n");
    let ghost before_array = out@;
    let lower = to_lowercase(name);
    push_str(&mut out, "static const uint8_t ");
    push_str(&mut out, lower.as_str());
    push_str(&mut out, "_data");
    push_str(&mut out, "[");
    push_chars(&mut out, &name_ident);
    push_str(&mut out, "_FRAME_COUNT][");
    push_chars(&mut out, &name_ident);
    push_str(&mut out, "_FRAME_SIZE] = {\n");
    assert(out@ =~= before_array + array_declaration(name@, name_ident@)) by {
        reveal(array_declaration);
    }
    push_frames_block(&mut out, frames, format, reverse_bits, pad_unused_bits_1, config.bytes_per_line);
    push_str(&mut out, "};\n");
    let ghost before_end = out@;
    if config.use_conditional {
        push_str(&mut out, "#endif /* ");
        push_str(&mut out, "IMG2C_");
        push_chars(&mut out, &name_ident);
        push_str(&mut out, " */\n");
        push_str(&mut out, "\n");
    }
    push_str(&mut out, "#endif /* ");
    push_chars(&mut out, &guard);
    push_str(&mut out, " */\n");
    assert(out@ =~= before_end + header_epilogue(name_ident@, guard@, config.use_conditional)) by {
        reveal(header_epilogue);
    }
    assert(out@ =~= c_header(
            frames@,
            format,
            reverse_bits,
            pad_unused_bits_1,
            config.name@,
            config.use_conditional,
            config.bytes_per_line as int,
        ));
    string_from_chars(&out)
}

} // verus!
