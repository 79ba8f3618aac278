//! Reading back an exported header: given what the header grammar's
//! patterns find in it, the import gives the exported format, bit order,
//! size and frames.

use vstd::prelude::*;
use vstd::utf8::{
    encode_scalar, encode_utf8, has_width_1_encoding, has_width_2_encoding, has_width_3_encoding,
    leading_byte_width_1,
};
use crate::readback::{
    ascii_codes, frames_bytes, frames_starts, law_cut_frames_are_exported_bytes,
    law_scanner_reads_back_exported_frames, lemma_hex_digit_code,
};
use crate::exporter::{
    array_declaration, byte_lines_from, c_header, c_ident, formatted_bytes, frames_block,
    header_comment, header_epilogue, header_macros, header_prologue, hex_entries, line_end,
    macro_block,
};
use crate::importer::{
    array_decls, ascii_lower, best_entry, chosen_array, declared_format, declares_reversed,
    dims_overflow, expectations, find_key, first_fitting, first_named, frame_data, frame_fault,
    frames_fail, group, group_number, guessed_format, has_substring, header_name, header_plan,
    holds_plan, index_of_from, macro_events, named_array_sizes, prefix_table, product_overflows,
    record_macro, scanned_initialiser, size_match, sizes_fit, strip_data, ArrayDecl, HeaderPlan,
    ImportFailure, MacroEvent, MatchV, ParsedHeader, PrefixEntry,
};
use crate::processor::{ceil8, scan_len, scan_len_fits, BinaryFrame, ScanFormat};
use crate::text::{
    code_points, decimal, digit_char, digit_value, digits_value, is_ascii_text, is_dec_digit,
    parsed_u64, unicode_lowercase,
};

verus! {

/// The UTF-8 encoding of two texts one after the other is their encodings
/// one after the other.
proof fn lemma_encode_concat(a: Seq<char>, b: Seq<char>)
    ensures
        encode_utf8(a + b) == encode_utf8(a) + encode_utf8(b),
    decreases a.len(),
{
    if a.len() == 0 {
        assert(a + b =~= b);
        assert(encode_utf8(a) + encode_utf8(b) =~= encode_utf8(b));
    } else {
        assert((a + b).drop_first() =~= a.drop_first() + b);
        assert((a + b)[0] == a[0]);
        lemma_encode_concat(a.drop_first(), b);
        assert(encode_utf8(a + b) =~= encode_utf8(a) + encode_utf8(b));
    }
}

/// ASCII text is encoded one byte per character, its code.
proof fn lemma_encode_ascii(s: Seq<char>)
    requires
        is_ascii_text(s),
    ensures
        encode_utf8(s) == ascii_codes(s),
    decreases s.len(),
{
    if s.len() > 0 {
        assert forall|i: int| 0 <= i < s.drop_first().len() implies (#[trigger] s.drop_first()[i]
            as u32) < 128 by {
            assert(s.drop_first()[i] == s[i + 1]);
        }
        lemma_encode_ascii(s.drop_first());
        let c = s[0] as u32;
        assert(c < 128);
        assert(leading_byte_width_1(c) == c as u8) by (bit_vector)
            requires
                c < 128,
        ;

        assert(encode_scalar(c) =~= seq![c as u8]);
        assert(encode_utf8(s) =~= ascii_codes(s));
    }
}

/// The bytes of a multi-byte UTF-8 encoding are `0x80` or above.
proof fn lemma_high_bytes(c: u32)
    ensures
        vstd::utf8::leading_byte_width_2(c) >= 0x80,
        vstd::utf8::leading_byte_width_3(c) >= 0x80,
        vstd::utf8::leading_byte_width_4(c) >= 0x80,
        vstd::utf8::last_continuation_byte(c) >= 0x80,
        vstd::utf8::second_last_continuation_byte(c) >= 0x80,
        vstd::utf8::third_last_continuation_byte(c) >= 0x80,
{
    assert(0xC0u8 | ((c >> 6u32) & 0x1Fu32) as u8 >= 0x80u8) by (bit_vector);
    assert(0xE0u8 | ((c >> 12u32) & 0x0Fu32) as u8 >= 0x80u8) by (bit_vector);
    assert(0xF0u8 | ((c >> 18u32) & 0x7u32) as u8 >= 0x80u8) by (bit_vector);
    assert(0x80u8 | (c & 0x3Fu32) as u8 >= 0x80u8) by (bit_vector);
    assert(0x80u8 | ((c >> 6u32) & 0x3Fu32) as u8 >= 0x80u8) by (bit_vector);
    assert(0x80u8 | ((c >> 12u32) & 0x3Fu32) as u8 >= 0x80u8) by (bit_vector);
}

/// Text without `{` encodes to bytes without `{` (multi-byte characters use
/// bytes of `0x80` and above only).
proof fn lemma_encode_no_brace(s: Seq<char>)
    requires
        forall|i: int| 0 <= i < s.len() ==> #[trigger] s[i] != '{',
    ensures
        forall|j: int| 0 <= j < encode_utf8(s).len() ==> #[trigger] encode_utf8(s)[j] != 123u8,
    decreases s.len(),
{
    if s.len() > 0 {
        assert forall|i: int| 0 <= i < s.drop_first().len() implies #[trigger] s.drop_first()[i] != '{' by {
            assert(s.drop_first()[i] == s[i + 1]);
        }
        lemma_encode_no_brace(s.drop_first());
        let c = s[0] as u32;
        assert(c != 123) by {
            if c == 123 {
                vstd::utf8::char_u32_cast(s[0], c);
                assert(s[0] == '{');
            }
        }
        let e = encode_scalar(c);
        assert forall|j: int| 0 <= j < e.len() implies #[trigger] e[j] != 123u8 by {
            if has_width_1_encoding(c) {
                assert((c & 0x7F) as u8 != 123u8) by (bit_vector)
                    requires
                        c < 128,
                        c != 123,
                ;
            } else {
                lemma_high_bytes(c);
                if has_width_2_encoding(c) {
                    assert(e[j] == vstd::utf8::leading_byte_width_2(c) || e[j]
                        == vstd::utf8::last_continuation_byte(c));
                } else if has_width_3_encoding(c) {
                    assert(e[j] == vstd::utf8::leading_byte_width_3(c) || e[j]
                        == vstd::utf8::second_last_continuation_byte(c) || e[j]
                        == vstd::utf8::last_continuation_byte(c));
                } else {
                    assert(e[j] == vstd::utf8::leading_byte_width_4(c) || e[j]
                        == vstd::utf8::third_last_continuation_byte(c) || e[j]
                        == vstd::utf8::second_last_continuation_byte(c) || e[j]
                        == vstd::utf8::last_continuation_byte(c));
                }
            }
        }
        assert forall|j: int| 0 <= j < encode_utf8(s).len() implies #[trigger] encode_utf8(s)[j]
            != 123u8 by {
            if j < e.len() {
                assert(encode_utf8(s)[j] == e[j]);
            } else {
                assert(encode_utf8(s)[j] == encode_utf8(s.drop_first())[j - e.len()]);
            }
        }
    }
}

/// The decimal digits of `n` are digits and read back as `n`.
proof fn lemma_decimal_digits(n: nat)
    ensures
        code_points(decimal(n)).len() > 0,
        forall|i: int| 0 <= i < code_points(decimal(n)).len() ==> is_dec_digit(#[trigger] code_points(decimal(n))[i]),
        digits_value(code_points(decimal(n)), 10) == n,
    decreases n,
{
    if n < 10 {
        assert(digit_char(n) as u32 == 48 + n);
        assert(code_points(decimal(n)) =~= seq![(48 + n) as u32]);
        reveal_with_fuel(digits_value, 2);
        assert(code_points(decimal(n)).drop_last() =~= Seq::<u32>::empty());
    } else {
        lemma_decimal_digits(n / 10);
        let d = (n % 10) as nat;
        assert(digit_char(d) as u32 == 48 + d);
        let prev = code_points(decimal(n / 10));
        assert(code_points(decimal(n)) =~= prev.push((48 + d) as u32));
        assert(code_points(decimal(n)).drop_last() =~= prev);
        assert(digit_value((48 + d) as u32) == d);
        assert((n / 10) * 10 + d == n);
    }
}

/// Reading the decimal digits of `n` as a `u64` gives `n`.
pub proof fn lemma_parse_decimal(n: nat)
    requires
        n <= u64::MAX,
    ensures
        parsed_u64(code_points(decimal(n)), 10) == Some(n as u64),
{
    lemma_decimal_digits(n);
    let s = code_points(decimal(n));
    assert(is_dec_digit(s[0]));
    assert(s[0] != 43);
}

/// The text holds no `{`.
pub open spec fn no_brace(s: Seq<char>) -> bool {
    forall|i: int| 0 <= i < s.len() ==> #[trigger] s[i] != '{'
}

proof fn lemma_ascii_join(a: Seq<char>, b: Seq<char>)
    requires
        is_ascii_text(a),
        is_ascii_text(b),
    ensures
        is_ascii_text(a + b),
{
    assert forall|i: int| 0 <= i < (a + b).len() implies (#[trigger] (a + b)[i] as u32) < 128 by {
        if i < a.len() {
            assert((a + b)[i] == a[i]);
        } else {
            assert((a + b)[i] == b[i - a.len()]);
        }
    }
}

proof fn lemma_no_brace_join(a: Seq<char>, b: Seq<char>)
    requires
        no_brace(a),
        no_brace(b),
    ensures
        no_brace(a + b),
{
    assert forall|i: int| 0 <= i < (a + b).len() implies #[trigger] (a + b)[i] != '{' by {
        if i < a.len() {
            assert((a + b)[i] == a[i]);
        } else {
            assert((a + b)[i] == b[i - a.len()]);
        }
    }
}

/// The entries `0xHH,` are ASCII.
proof fn lemma_entries_ascii(b: Seq<u8>)
    ensures
        is_ascii_text(hex_entries(b)),
    decreases b.len(),
{
    if b.len() > 0 {
        lemma_entries_ascii(b.drop_last());
        let x = b.last();
        lemma_hex_digit_code((x / 16) as nat);
        lemma_hex_digit_code((x % 16) as nat);
        let e = crate::text::hex_byte(x) + seq![','];
        assert(is_ascii_text(e)) by {
            assert forall|i: int| 0 <= i < e.len() implies (#[trigger] e[i] as u32) < 128 by {
                if i == 0 {
                    assert(e[i] == '0');
                } else if i == 1 {
                    assert(e[i] == 'x');
                } else if i == 4 {
                    assert(e[i] == ',');
                }
            }
        }
        lemma_ascii_join(hex_entries(b.drop_last()), e);
        assert(hex_entries(b) =~= hex_entries(b.drop_last()) + e);
    }
}

/// The initialiser lines from byte `start` on are ASCII.
proof fn lemma_lines_ascii(b: Seq<u8>, bytes_per_line: int, start: int)
    ensures
        is_ascii_text(byte_lines_from(b, bytes_per_line, start)),
    decreases b.len() - start,
{
    if 0 <= start < b.len() {
        let end = line_end(b.len() as int, bytes_per_line, start);
        reveal_strlit("\n");
        reveal_strlit("    ");
        let sep: Seq<char> = if start > 0 {
            "\n"@
        } else {
            Seq::empty()
        };
        lemma_entries_ascii(b.subrange(start, end));
        lemma_lines_ascii(b, bytes_per_line, end);
        lemma_ascii_join(sep, "    "@);
        lemma_ascii_join(sep + "    "@, hex_entries(b.subrange(start, end)));
        lemma_ascii_join(
            sep + "    "@ + hex_entries(b.subrange(start, end)),
            byte_lines_from(b, bytes_per_line, end),
        );
    }
}

/// The frame rows of an exported header are ASCII.
proof fn lemma_block_ascii(
    frames: Seq<BinaryFrame>,
    format: ScanFormat,
    reverse_bits: bool,
    pad: bool,
    bytes_per_line: int,
)
    ensures
        is_ascii_text(frames_block(frames, format, reverse_bits, pad, bytes_per_line)),
    decreases frames.len(),
{
    reveal(frames_block);
    if frames.len() > 0 {
        reveal_strlit("  {\n");
        reveal_strlit("\n");
        reveal_strlit("  },\n");
        let init = frames.drop_last();
        let b = frames.last().scan_bytes(format, reverse_bits, pad);
        lemma_block_ascii(init, format, reverse_bits, pad, bytes_per_line);
        lemma_lines_ascii(b, bytes_per_line, 0);
        let prev = frames_block(init, format, reverse_bits, pad, bytes_per_line);
        lemma_ascii_join(prev, "  {\n"@);
        lemma_ascii_join(prev + "  {\n"@, formatted_bytes(b, bytes_per_line));
        lemma_ascii_join(prev + "  {\n"@ + formatted_bytes(b, bytes_per_line), "\n"@);
        lemma_ascii_join(prev + "  {\n"@ + formatted_bytes(b, bytes_per_line) + "\n"@, "  },\n"@);
    }
}

/// The first `{` at or after `i` of `pre + rest` opens `rest` when `pre`
/// has none from `i` on and `rest` starts with one.
proof fn lemma_index_after(pre: Seq<u8>, rest: Seq<u8>, i: int)
    requires
        0 <= i <= pre.len(),
        forall|j: int| i <= j < pre.len() ==> #[trigger] pre[j] != 123u8,
        rest.len() > 0,
        rest[0] == 123u8,
    ensures
        index_of_from(pre + rest, 123u8, i) == Some(pre.len() as int),
    decreases pre.len() - i,
{
    if i < pre.len() {
        assert((pre + rest)[i] == pre[i]);
        lemma_index_after(pre, rest, i + 1);
    } else {
        assert((pre + rest)[i] == rest[0]);
    }
}

/// Scanning from `off` skips the rest of `pre` when it holds no `{` there
/// and `rest` starts with one.
proof fn lemma_scan_after(pre: Seq<u8>, rest: Seq<u8>, off: int)
    requires
        0 <= off <= pre.len(),
        forall|j: int| off <= j < pre.len() ==> #[trigger] pre[j] != 123u8,
        rest.len() > 0,
        rest[0] == 123u8,
    ensures
        scanned_initialiser(pre + rest, off) == scanned_initialiser(rest, 0),
{
    let p = pre.skip(off);
    assert((pre + rest).skip(off) =~= p + rest);
    assert forall|j: int| 0 <= j < p.len() implies #[trigger] p[j] != 123u8 by {
        assert(p[j] == pre[off + j]);
    }
    lemma_index_after(p, rest, 0);
    assert((p + rest).skip(p.len() as int) =~= rest);
    assert(rest.skip(0) =~= rest);
    assert(index_of_from(rest, 123u8, 0) == Some(0int));
    assert(rest.skip(0).skip(0) =~= rest);
}

/// The array declaration of a header up to its opening brace.
pub open spec fn declaration_head(name: Seq<char>, ident: Seq<char>) -> Seq<char> {
    "static const uint8_t "@ + unicode_lowercase(name) + "_data"@ + "["@ + ident + "_FRAME_COUNT]["@
        + ident + "_FRAME_SIZE] = "@
}

/// What an exported header holds before its array declaration: the
/// comment, the include guard and the size macros.
pub open spec fn header_head(
    frames: Seq<BinaryFrame>,
    format: ScanFormat,
    reverse_bits: bool,
    name: Seq<char>,
    use_conditional: bool,
) -> Seq<char> {
    let ident = c_ident(name);
    let guard = ident + "_H"@;
    let w = frames[0].width as nat;
    let h = frames[0].height as nat;
    let fs = scan_len(w as int, h as int, format) as nat;
    let fc = frames.len();
    let total = fs * fc;
    header_comment(w, h, format, reverse_bits, fs, total) + header_prologue(guard) + macro_block(
        header_macros(ident, use_conditional, w, h, fs, fc, total),
        use_conditional,
    ) + "\n"@
}

/// An exported header is its head, the declaration up to the brace, the
/// brace-enclosed frame rows with the closing `};`, and the closing lines.
proof fn lemma_header_parts(
    frames: Seq<BinaryFrame>,
    format: ScanFormat,
    reverse_bits: bool,
    pad: bool,
    name: Seq<char>,
    use_conditional: bool,
    bytes_per_line: int,
)
    requires
        frames.len() > 0,
    ensures
        c_header(frames, format, reverse_bits, pad, name, use_conditional, bytes_per_line) == header_head(
            frames,
            format,
            reverse_bits,
            name,
            use_conditional,
        ) + declaration_head(name, c_ident(name)) + ("{\n"@ + frames_block(
            frames,
            format,
            reverse_bits,
            pad,
            bytes_per_line,
        ) + "};\n"@) + header_epilogue(c_ident(name), c_ident(name) + "_H"@, use_conditional),
{
    reveal(array_declaration);
    reveal_strlit("_FRAME_SIZE] = {\n");
    reveal_strlit("_FRAME_SIZE] = ");
    reveal_strlit("{\n");
    let ident = c_ident(name);
    assert(array_declaration(name, ident) =~= declaration_head(name, ident) + "{\n"@);
    assert(c_header(frames, format, reverse_bits, pad, name, use_conditional, bytes_per_line) =~= header_head(
        frames,
        format,
        reverse_bits,
        name,
        use_conditional,
    ) + declaration_head(name, ident) + ("{\n"@ + frames_block(
        frames,
        format,
        reverse_bits,
        pad,
        bytes_per_line,
    ) + "};\n"@) + header_epilogue(ident, ident + "_H"@, use_conditional));
}

/// The declaration up to the brace holds no brace when the lower-case name
/// holds none.
proof fn lemma_declaration_no_brace(name: Seq<char>)
    requires
        no_brace(unicode_lowercase(name)),
    ensures
        no_brace(declaration_head(name, c_ident(name))),
{
    let ident = c_ident(name);
    crate::exporter::law_c_ident_is_identifier(name);
    assert(no_brace(ident));
    reveal_strlit("static const uint8_t ");
    reveal_strlit("_data");
    reveal_strlit("[");
    reveal_strlit("_FRAME_COUNT][");
    reveal_strlit("_FRAME_SIZE] = ");
    let a = "static const uint8_t "@;
    assert(no_brace(a));
    assert(no_brace("_data"@));
    assert(no_brace("["@));
    assert(no_brace("_FRAME_COUNT]["@));
    assert(no_brace("_FRAME_SIZE] = "@));
    lemma_no_brace_join(a, unicode_lowercase(name));
    lemma_no_brace_join(a + unicode_lowercase(name), "_data"@);
    lemma_no_brace_join(a + unicode_lowercase(name) + "_data"@, "["@);
    lemma_no_brace_join(a + unicode_lowercase(name) + "_data"@ + "["@, ident);
    lemma_no_brace_join(a + unicode_lowercase(name) + "_data"@ + "["@ + ident, "_FRAME_COUNT]["@);
    lemma_no_brace_join(a + unicode_lowercase(name) + "_data"@ + "["@ + ident + "_FRAME_COUNT]["@, ident);
    lemma_no_brace_join(
        a + unicode_lowercase(name) + "_data"@ + "["@ + ident + "_FRAME_COUNT]["@ + ident,
        "_FRAME_SIZE] = "@,
    );
}

/// A pattern that finds one size macro, of prefix `ident` and value `v`,
/// gives that one size event.
proof fn lemma_macro_event(ms: Seq<MatchV>, which: int, ident: Seq<char>, v: nat)
    requires
        ms.len() == 1,
        group(ms[0], 1) == Some(ident),
        group(ms[0], 2) == Some(decimal(v)),
        v <= u64::MAX,
    ensures
        macro_events(ms, which) == seq![(which, ident, Some(v as u64))],
{
    lemma_parse_decimal(v);
    reveal_with_fuel(macro_events, 2);
    assert(ms.drop_last() =~= Seq::<MatchV>::empty());
    assert(ms.last() == ms[0]);
    assert(macro_events(ms, which) =~= seq![(which, ident, Some(v as u64))]);
}

/// The four size macros of one prefix make one row with all four values.
proof fn lemma_prefix_row(ident: Seq<char>, w: u64, h: u64, fs: u64, fc: u64)
    ensures
        prefix_table(
            seq![(0int, ident, Some(w)), (1int, ident, Some(h)), (2int, ident, Some(fs)), (3int, ident, Some(fc))],
        ) == seq![(ascii_lower(ident), ident, seq![Some(w), Some(h), Some(fs), Some(fc)])],
{
    let key = ascii_lower(ident);
    let e0: MacroEvent = (0int, ident, Some(w));
    let e1: MacroEvent = (1int, ident, Some(h));
    let e2: MacroEvent = (2int, ident, Some(fs));
    let e3: MacroEvent = (3int, ident, Some(fc));
    let evs = seq![e0, e1, e2, e3];
    reveal_with_fuel(prefix_table, 5);
    assert(evs.drop_last() =~= seq![e0, e1, e2]);
    assert(evs.drop_last().drop_last() =~= seq![e0, e1]);
    assert(evs.drop_last().drop_last().drop_last() =~= seq![e0]);
    assert(evs.drop_last().drop_last().drop_last().drop_last() =~= Seq::<MacroEvent>::empty());
    let none4: Seq<Option<u64>> = seq![None, None, None, None];
    let t1: Seq<PrefixEntry> = seq![(key, ident, none4.update(0, Some(w)))];
    assert(prefix_table(seq![e0]) == t1) by {
        assert(seq![e0].drop_last() =~= Seq::<MacroEvent>::empty());
        assert(find_key(Seq::<PrefixEntry>::empty(), key, 0) is None);
        assert(Seq::<PrefixEntry>::empty().push((key, ident, none4.update(0, Some(w)))) =~= t1);
    }
    assert(find_key(t1, key, 0) == Some(0int));
    let v2 = none4.update(0, Some(w)).update(1, Some(h));
    let t2: Seq<PrefixEntry> = seq![(key, ident, v2)];
    assert(record_macro(t1, e1) =~= t2);
    assert(find_key(t2, key, 0) == Some(0int));
    let v3 = v2.update(2, Some(fs));
    let t3: Seq<PrefixEntry> = seq![(key, ident, v3)];
    assert(record_macro(t2, e2) =~= t3);
    assert(find_key(t3, key, 0) == Some(0int));
    let v4 = v3.update(3, Some(fc));
    assert(v4 =~= seq![Some(w), Some(h), Some(fs), Some(fc)]);
    assert(record_macro(t3, e3) =~= seq![(key, ident, v4)]);
}

/// The format line naming a format gives that format.
proof fn lemma_declared_format(mf: Seq<MatchV>, format: ScanFormat)
    requires
        mf.len() > 0,
        group(mf[0], 1) == Some(crate::processor::format_name(format)),
    ensures
        declared_format(mf) == format,
{
    reveal_strlit("vertical_lsb");
    reveal_strlit("vertical_msb");
    reveal_strlit("horizontal_lsb");
    reveal_strlit("horizontal_msb");
    let n = crate::processor::format_name(format);
    match format {
        ScanFormat::VerticalLsb => {},
        ScanFormat::VerticalMsb => {
            assert(n[9] != "vertical_lsb"@[9]);
        },
        ScanFormat::HorizontalLsb => {
            assert(n.len() != "vertical_lsb"@.len());
            assert(n.len() != "vertical_msb"@.len());
        },
        ScanFormat::HorizontalMsb => {
            assert(n.len() != "vertical_lsb"@.len());
            assert(n.len() != "vertical_msb"@.len());
            assert(n[11] != "horizontal_lsb"@[11]);
        },
    }
}

/// A dimension written as a macro name is no number.
proof fn lemma_macro_dimension(m: MatchV, g: int, ident: Seq<char>, suffix: Seq<char>)
    requires
        group(m, g) == Some(ident + suffix),
        suffix.len() > 0,
        suffix[0] == '_',
        forall|i: int| 0 <= i < ident.len() ==> #[trigger] ident[i] != '+',
    ensures
        group_number(m, g) is None,
{
    let s = code_points(ident + suffix);
    let k = ident.len() as int;
    assert(s[k] == ('_' as u32));
    if ident.len() > 0 {
        assert(s[0] == ident[0] as u32);
        assert(ident[0] != '+');
        assert(s[0] != 43) by {
            if s[0] == 43 {
                vstd::utf8::char_u32_cast(ident[0], s[0]);
            }
        }
    } else {
        assert(s[0] == ('_' as u32));
    }
    assert(!is_dec_digit(s[k]));
}

/// A header exported with reversed bits says so.
proof fn lemma_reversed_marker(
    frames: Seq<BinaryFrame>,
    format: ScanFormat,
    pad: bool,
    name: Seq<char>,
    use_conditional: bool,
    bytes_per_line: int,
)
    requires
        frames.len() > 0,
    ensures
        declares_reversed(c_header(frames, format, true, pad, name, use_conditional, bytes_per_line)),
{
    reveal(header_comment);
    reveal_strlit(" * 字节内位序: 已反转\n");
    reveal_strlit("字节内位序: 已反转");
    let text = c_header(frames, format, true, pad, name, use_conditional, bytes_per_line);
    let w = frames[0].width as nat;
    let h = frames[0].height as nat;
    let fs = scan_len(w as int, h as int, format) as nat;
    let total = fs * frames.len();
    let before = "/* 自动生成 by img2c\n"@ + " * 尺寸: "@ + decimal(w) + " x "@ + decimal(h) + "\n"@
        + " * 格式: "@ + crate::processor::format_name(format) + "\n"@;
    let line = " * 字节内位序: 已反转\n"@;
    let comment = header_comment(w, h, format, true, fs, total);
    assert(comment.take((before.len() + line.len()) as int) =~= before + line);
    lemma_header_parts(frames, format, true, pad, name, use_conditional, bytes_per_line);
    assert(text.take(comment.len() as int) =~= comment);
    let p = "字节内位序: 已反转"@;
    let i: int = before.len() as int + 3;
    assert(text.subrange(i, i + p.len() as int) =~= p) by {
        assert forall|k: int| 0 <= k < p.len() implies text.subrange(i, i + p.len() as int)[k] == p[k] by {
            assert(text[i + k] == comment[i + k]);
            assert(comment[i + k] == (before + line)[i + k]);
            assert((before + line)[i + k] == line[3 + k]);
        }
    }
    assert(has_substring(text, p));
}

/// What the size macros of an exported header lead the importer to
/// expect: its own frame size, total and frame count, and its format.
proof fn lemma_expectations(w: u32, h: u32, fc: usize, format: ScanFormat)
    requires
        w > 0,
        h > 0,
        fc >= 1,
        sizes_fit(w, h),
        scan_len(w as int, h as int, format) * fc <= usize::MAX,
    ensures
        1 <= scan_len(w as int, h as int, format) <= usize::MAX,
        expectations(w, h, Some(scan_len(w as int, h as int, format) as usize), Some(fc), format)
            == Some(
            (
                scan_len(w as int, h as int, format),
                scan_len(w as int, h as int, format) * fc,
                fc as int,
                format,
            ),
        ),
{
    crate::importer::lemma_sizes_fit(w, h, format);
    let fs = scan_len(w as int, h as int, format);
    assert(ceil8(w as int) >= 1 && ceil8(h as int) >= 1);
    assert(fs >= 1) by (nonlinear_arith)
        requires
            fs == scan_len(w as int, h as int, format),
            w >= 1,
            h >= 1,
            ceil8(w as int) >= 1,
            ceil8(h as int) >= 1,
    ;
    if format == ScanFormat::VerticalLsb {
        assert(guessed_format(w, h, fs as usize) == Some(ScanFormat::VerticalLsb));
    }
}

/// The declaration of an exported header, as its pattern finds it, is the
/// array the importer reads, with the exported frame size and count.
proof fn lemma_chosen_array(
    text: Seq<u8>,
    ma: Seq<MatchV>,
    lower: Seq<char>,
    ident: Seq<char>,
    fs: int,
    fc: int,
)
    requires
        ma.len() == 1,
        group(ma[0], 1) == Some(lower + "_data"@),
        group(ma[0], 2) == Some(ident + "_FRAME_COUNT"@),
        group(ma[0], 3) == Some(ident + "_FRAME_SIZE"@),
        forall|i: int| 0 <= i < ident.len() ==> #[trigger] ident[i] != '+',
        fs >= 1,
        fc >= 1,
        fs * fc + fs <= usize::MAX,
        scanned_initialiser(text, ma[0].0 as int).0.len() == fs * fc,
    ensures
        array_decls(ma) == seq![(ma[0].0, lower, None::<u64>, None::<u64>)],
        chosen_array(text, array_decls(ma), ident, fs, fs * fc, fc, Some(fc as usize)) == Ok::<
            (nat, Seq<char>, int, int),
            ImportFailure,
        >((ma[0].0, lower, fs, fc)),
{
    reveal_strlit("_data");
    reveal_strlit("_FRAME_COUNT");
    reveal_strlit("_FRAME_SIZE");
    lemma_macro_dimension(ma[0], 2, ident, "_FRAME_COUNT"@);
    lemma_macro_dimension(ma[0], 3, ident, "_FRAME_SIZE"@);
    let id = lower + "_data"@;
    assert(id.skip(id.len() - 5) =~= "_data"@);
    assert(id.take(id.len() - 5) =~= lower);
    assert(strip_data(id) == lower);
    let a: ArrayDecl = (ma[0].0, lower, None::<u64>, None::<u64>);
    assert(array_decls(ma) =~= seq![a]) by {
        reveal_with_fuel(array_decls, 2);
        assert(ma.drop_last() =~= Seq::<MatchV>::empty());
        assert(ma.last() == ma[0]);
    }
    let arrs = array_decls(ma);
    assert(!product_overflows(arrs[0]));
    let key = ascii_lower(ident);
    reveal_with_fuel(first_named, 2);
    reveal_with_fuel(first_fitting, 2);
    assert(!dims_overflow(arrs, 1));
    if ascii_lower(lower) == key {
        assert(first_named(arrs, key, 0) == Some(0int));
        assert(named_array_sizes(arrs[0], fs, fc) == (fs, fc));
    } else {
        assert(first_named(arrs, key, 0) is None);
        assert(size_match(arrs[0], fs, fs * fc, Some(fc as usize)) is Skip);
        assert(first_fitting(arrs, fs, fs * fc, Some(fc as usize), 0) is None);
        let n = fs * fc;
        assert(n + fs - 1 == fc * fs + (fs - 1)) by (nonlinear_arith)
            requires
                n == fs * fc,
        ;
        vstd::arithmetic::div_mod::lemma_fundamental_div_mod_converse(n + fs - 1, fs, fc, fs - 1);
    }
}

/// The exported frames, cut from the bytes read back, are whole: no frame's
/// range overflows, and the frame size fits the machine integers.
proof fn lemma_frames_whole(
    frames: Seq<BinaryFrame>,
    format: ScanFormat,
    reverse_bits: bool,
    pad: bool,
)
    requires
        frames.len() > 0,
        forall|j: int|
            0 <= j < frames.len() ==> (#[trigger] frames[j]).width == frames[0].width
                && frames[j].height == frames[0].height,
        frames[0].width * frames[0].height <= u32::MAX,
        sizes_fit(frames[0].width, frames[0].height),
        scan_len(frames[0].width as int, frames[0].height as int, format) * frames.len() <= usize::MAX,
    ensures
        !frames_fail(
            crate::readback::frames_bytes(frames, format, reverse_bits, pad).len() as int,
            crate::readback::frames_starts(frames, format, reverse_bits, pad),
            frames.len() as int,
            scan_len(frames[0].width as int, frames[0].height as int, format),
            frames[0].width,
            frames[0].height,
            format,
        ),
{
    let w = frames[0].width;
    let h = frames[0].height;
    let fs = scan_len(w as int, h as int, format);
    let n = frames.len() as int;
    crate::importer::lemma_sizes_fit(w, h, format);
    assert forall|j: int| 0 <= j < frames.len() implies (#[trigger] frames[j]).scan_bytes(
        format,
        reverse_bits,
        pad,
    ).len() == fs by {
        crate::laws::law_frame_size_is_encoded_length(frames[j], format, reverse_bits, pad);
    }
    crate::readback::lemma_frames_layout(frames, format, reverse_bits, pad, fs);
    let len = crate::readback::frames_bytes(frames, format, reverse_bits, pad).len() as int;
    let starts = crate::readback::frames_starts(frames, format, reverse_bits, pad);
    assert forall|i: int| 0 <= i < n implies !#[trigger] frame_fault(len, starts, i, fs) by {
        assert(starts[i] == i * fs);
        assert(i * fs + fs <= n * fs) by (nonlinear_arith)
            requires
                i < n,
                fs >= 0,
        ;
        assert(0 <= i * fs) by (nonlinear_arith)
            requires
                0 <= i,
                fs >= 0,
        ;
    }
    assert(scan_len_fits(w as int, h as int, format)) by {
        assert(ceil8(h as int) * w == w * ceil8(h as int)) by (nonlinear_arith);
        assert(ceil8(w as int) * h == h * ceil8(w as int)) by (nonlinear_arith);
    }
}

/// The bytes read back from the array of an exported header are its frames'
/// bytes, when the declaration pattern's match starts in the declaration
/// line.
proof fn lemma_scanned_export(
    frames: Seq<BinaryFrame>,
    format: ScanFormat,
    reverse_bits: bool,
    pad: bool,
    name: Seq<char>,
    use_conditional: bool,
    bytes_per_line: int,
    off: int,
)
    requires
        frames.len() > 0,
        no_brace(unicode_lowercase(name)),
        encode_utf8(header_head(frames, format, reverse_bits, name, use_conditional)).len() <= off
            <= encode_utf8(
            header_head(frames, format, reverse_bits, name, use_conditional) + declaration_head(
                name,
                c_ident(name),
            ),
        ).len(),
    ensures
        scanned_initialiser(
            encode_utf8(c_header(frames, format, reverse_bits, pad, name, use_conditional, bytes_per_line)),
            off,
        ) == (frames_bytes(frames, format, reverse_bits, pad), frames_starts(frames, format, reverse_bits, pad)),
{
    let head = header_head(frames, format, reverse_bits, name, use_conditional);
    let decl = declaration_head(name, c_ident(name));
    let block = frames_block(frames, format, reverse_bits, pad, bytes_per_line);
    let x = "{\n"@ + block + "};\n"@;
    let ident = c_ident(name);
    let epi = header_epilogue(ident, ident + "_H"@, use_conditional);
    lemma_header_parts(frames, format, reverse_bits, pad, name, use_conditional, bytes_per_line);
    let text = c_header(frames, format, reverse_bits, pad, name, use_conditional, bytes_per_line);
    assert(text == (head + decl) + (x + epi)) by {
        assert(text =~= (head + decl) + (x + epi));
    }
    lemma_encode_concat(head + decl, x + epi);
    lemma_encode_concat(x, epi);
    lemma_encode_concat(head, decl);
    reveal_strlit("{\n");
    reveal_strlit("};\n");
    assert(is_ascii_text("{\n"@));
    assert(is_ascii_text("};\n"@));
    lemma_block_ascii(frames, format, reverse_bits, pad, bytes_per_line);
    lemma_ascii_join("{\n"@, block);
    lemma_ascii_join("{\n"@ + block, "};\n"@);
    lemma_encode_ascii(x);
    lemma_declaration_no_brace(name);
    lemma_encode_no_brace(decl);
    let pre = encode_utf8(head + decl);
    let rest = ascii_codes(x) + encode_utf8(epi);
    assert(encode_utf8(text) == pre + rest);
    assert forall|j: int| off <= j < pre.len() implies #[trigger] pre[j] != 123u8 by {
        let k = j - encode_utf8(head).len();
        assert(pre[j] == encode_utf8(decl)[k]);
    }
    assert(rest[0] == 123u8) by {
        assert(x[0] == '{');
        assert(rest[0] == ascii_codes(x)[0]);
    }
    lemma_scan_after(pre, rest, off);
    law_scanner_reads_back_exported_frames(frames, format, reverse_bits, pad, bytes_per_line, encode_utf8(epi));
}

/// `header_plan` for pattern results whose every step is known: the table
/// of size macros, the format line, the expectations, the bit order, the
/// chosen array, the bytes read from it and their cutting.
#[verifier::spinoff_prover]
#[verifier::rlimit(50)]
proof fn lemma_plan_steps(
    text: Seq<char>,
    bytes: Seq<u8>,
    mw: Seq<MatchV>,
    mh: Seq<MatchV>,
    ms: Seq<MatchV>,
    mc: Seq<MatchV>,
    ma: Seq<MatchV>,
    mf: Seq<MatchV>,
    ident: Seq<char>,
    w: u32,
    h: u32,
    fs: int,
    fc: int,
    format: ScanFormat,
    reverse_bits: bool,
    off: nat,
    lower: Seq<char>,
    data: Seq<u8>,
    starts: Seq<int>,
)
    requires
        1 <= fs,
        1 <= fc,
        fs * fc <= usize::MAX,
        prefix_table(
            macro_events(mw, 0) + macro_events(mh, 1) + macro_events(ms, 2) + macro_events(mc, 3),
        ) == seq![
            (
                ascii_lower(ident),
                ident,
                seq![Some(w as u64), Some(h as u64), Some(fs as u64), Some(fc as u64)],
            ),
        ],
        expectations(w, h, Some(fs as usize), Some(fc as usize), declared_format(mf)) == Some(
            (fs, fs * fc, fc, format),
        ),
        declares_reversed(text) == reverse_bits,
        chosen_array(bytes, array_decls(ma), ident, fs, fs * fc, fc, Some(fc as usize)) == Ok::<
            (nat, Seq<char>, int, int),
            ImportFailure,
        >((off, lower, fs, fc)),
        scanned_initialiser(bytes, off as int) == (data, starts),
        data.len() == fs * fc,
        !frames_fail(data.len() as int, starts, fc, fs, w, h, format),
    ensures
        header_plan(text, bytes, mw, mh, ms, mc, ma, mf) == Ok::<HeaderPlan, ImportFailure>(
            HeaderPlan {
                name: header_name(lower, ident),
                format,
                reverse_bits,
                width: w,
                height: h,
                frames: Seq::new(fc as nat, |i: int| frame_data(data, starts, i, fs)),
            },
        ),
{
    let table = prefix_table(
        macro_events(mw, 0) + macro_events(mh, 1) + macro_events(ms, 2) + macro_events(mc, 3),
    );
    assert(best_entry(table, table.len() as int) == Some(0int)) by {
        reveal_with_fuel(best_entry, 2);
    }
    assert((fs as u64) as usize == fs);
    assert((fc as u64) as usize == fc);
}

/// Reading back an exported header ("生成的 .h 头文件再打开") gives what was
/// exported: when the patterns of the header grammar find in the header
/// exactly its own size macros (of its identifier, with its sizes), its
/// array declaration (the match starting within the declaration line) and
/// its format line, the header is read (`header_plan`, which is what
/// `parse_header_text` returns for those pattern results) with the
/// exported format, bit order and size and, frame by frame, the exported
/// bytes.
#[verifier::spinoff_prover]
#[verifier::rlimit(60)]
pub proof fn law_import_reads_back_export(
    frames: Seq<BinaryFrame>,
    format: ScanFormat,
    reverse_bits: bool,
    pad: bool,
    name: Seq<char>,
    use_conditional: bool,
    bytes_per_line: int,
    mw: Seq<MatchV>,
    mh: Seq<MatchV>,
    ms: Seq<MatchV>,
    mc: Seq<MatchV>,
    ma: Seq<MatchV>,
    mf: Seq<MatchV>,
)
    requires
        frames.len() > 0,
        forall|j: int|
            0 <= j < frames.len() ==> (#[trigger] frames[j]).width == frames[0].width
                && frames[j].height == frames[0].height,
        frames[0].width > 0,
        frames[0].height > 0,
        frames[0].width * frames[0].height <= u32::MAX,
        sizes_fit(frames[0].width, frames[0].height),
        scan_len(frames[0].width as int, frames[0].height as int, format) * frames.len() + scan_len(
            frames[0].width as int,
            frames[0].height as int,
            format,
        ) <= usize::MAX,
        no_brace(unicode_lowercase(name)),
        !reverse_bits ==> !declares_reversed(
            c_header(frames, format, reverse_bits, pad, name, use_conditional, bytes_per_line),
        ),
        mw.len() == 1,
        group(mw[0], 1) == Some(c_ident(name)),
        group(mw[0], 2) == Some(decimal(frames[0].width as nat)),
        mh.len() == 1,
        group(mh[0], 1) == Some(c_ident(name)),
        group(mh[0], 2) == Some(decimal(frames[0].height as nat)),
        ms.len() == 1,
        group(ms[0], 1) == Some(c_ident(name)),
        group(ms[0], 2) == Some(
            decimal(scan_len(frames[0].width as int, frames[0].height as int, format) as nat),
        ),
        mc.len() == 1,
        group(mc[0], 1) == Some(c_ident(name)),
        group(mc[0], 2) == Some(decimal(frames.len())),
        ma.len() == 1,
        group(ma[0], 1) == Some(unicode_lowercase(name) + "_data"@),
        group(ma[0], 2) == Some(c_ident(name) + "_FRAME_COUNT"@),
        group(ma[0], 3) == Some(c_ident(name) + "_FRAME_SIZE"@),
        encode_utf8(header_head(frames, format, reverse_bits, name, use_conditional)).len() <= ma[0].0
            <= encode_utf8(
            header_head(frames, format, reverse_bits, name, use_conditional) + declaration_head(
                name,
                c_ident(name),
            ),
        ).len(),
        mf.len() > 0,
        group(mf[0], 1) == Some(crate::processor::format_name(format)),
    ensures
        header_plan(
            c_header(frames, format, reverse_bits, pad, name, use_conditional, bytes_per_line),
            encode_utf8(c_header(frames, format, reverse_bits, pad, name, use_conditional, bytes_per_line)),
            mw,
            mh,
            ms,
            mc,
            ma,
            mf,
        ) == Ok::<HeaderPlan, ImportFailure>(
            HeaderPlan {
                name: header_name(unicode_lowercase(name), c_ident(name)),
                format,
                reverse_bits,
                width: frames[0].width,
                height: frames[0].height,
                frames: frames.map_values(|f: BinaryFrame| f.scan_bytes(format, reverse_bits, pad)),
            },
        ),
{
    let w = frames[0].width;
    let h = frames[0].height;
    let fs = scan_len(w as int, h as int, format);
    let fc = frames.len() as int;
    let ident = c_ident(name);
    let lower = unicode_lowercase(name);
    let text = c_header(frames, format, reverse_bits, pad, name, use_conditional, bytes_per_line);
    let bytes = encode_utf8(text);
    crate::importer::lemma_sizes_fit(w, h, format);
    assert(fs * fc <= usize::MAX);
    assert(ceil8(w as int) >= 1 && ceil8(h as int) >= 1);
    assert(fs >= 1) by (nonlinear_arith)
        requires
            fs == scan_len(w as int, h as int, format),
            w >= 1,
            h >= 1,
            ceil8(w as int) >= 1,
            ceil8(h as int) >= 1,
    ;
    assert(fc <= fs * fc) by (nonlinear_arith)
        requires
            fs >= 1,
            fc >= 0,
    ;
    assert(fc as usize == fc);
    lemma_expectations(w, h, fc as usize, format);
    // The size macros.
    lemma_macro_event(mw, 0, ident, w as nat);
    lemma_macro_event(mh, 1, ident, h as nat);
    lemma_macro_event(ms, 2, ident, fs as nat);
    lemma_macro_event(mc, 3, ident, fc as nat);
    let evs = macro_events(mw, 0) + macro_events(mh, 1) + macro_events(ms, 2) + macro_events(mc, 3);
    assert(evs =~= seq![
        (0int, ident, Some(w as u64)),
        (1int, ident, Some(h as u64)),
        (2int, ident, Some(fs as u64)),
        (3int, ident, Some(fc as u64)),
    ]);
    lemma_prefix_row(ident, w as u64, h as u64, fs as u64, fc as u64);
    let table = prefix_table(evs);
    // The format line and the bit order.
    lemma_declared_format(mf, format);
    if reverse_bits {
        lemma_reversed_marker(frames, format, pad, name, use_conditional, bytes_per_line);
    }
    assert(declares_reversed(text) == reverse_bits);
    // The array and its bytes.
    lemma_scanned_export(frames, format, reverse_bits, pad, name, use_conditional, bytes_per_line, ma[0].0 as int);
    assert forall|j: int| 0 <= j < frames.len() implies (#[trigger] frames[j]).scan_bytes(
        format,
        reverse_bits,
        pad,
    ).len() == fs by {
        crate::laws::law_frame_size_is_encoded_length(frames[j], format, reverse_bits, pad);
    }
    crate::readback::lemma_frames_layout(frames, format, reverse_bits, pad, fs);
    assert(fs * fc == fc * fs) by (nonlinear_arith);
    crate::exporter::law_c_ident_is_identifier(name);
    assert forall|i: int| 0 <= i < ident.len() implies #[trigger] ident[i] != '+' by {
        assert(crate::exporter::is_ascii_alpha(ident[i]) || crate::exporter::is_ascii_digit(ident[i]) || ident[i] == '_');
    }
    lemma_chosen_array(bytes, ma, lower, ident, fs, fc);
    lemma_frames_whole(frames, format, reverse_bits, pad);
    let data = frames_bytes(frames, format, reverse_bits, pad);
    let starts = frames_starts(frames, format, reverse_bits, pad);
    let cut = Seq::new(fc as nat, |i: int| frame_data(data, starts, i, fs));
    assert(cut =~= frames.map_values(|f: BinaryFrame| f.scan_bytes(format, reverse_bits, pad))) by {
        assert forall|i: int| 0 <= i < fc implies #[trigger] cut[i] == frames[i].scan_bytes(
            format,
            reverse_bits,
            pad,
        ) by {
            law_cut_frames_are_exported_bytes(frames, format, reverse_bits, pad, i);
        }
    }
    assert(data.len() == fs * fc);
    lemma_plan_steps(
        text,
        bytes,
        mw,
        mh,
        ms,
        mc,
        ma,
        mf,
        ident,
        w,
        h,
        fs,
        fc,
        format,
        reverse_bits,
        ma[0].0,
        lower,
        data,
        starts,
    );
}

/// A header read as planned from exported bytes has the exported frames:
/// when the frames read (`holds_plan`, the contract of `parse_header_text`)
/// follow a plan whose frames are the exported frames' bytes, every frame
/// read has the exported frame's size and pixels.
pub proof fn law_imported_frames_are_exported_frames(
    frames: Seq<BinaryFrame>,
    format: ScanFormat,
    reverse_bits: bool,
    pad: bool,
    parsed: ParsedHeader,
    plan: HeaderPlan,
)
    requires
        forall|j: int|
            0 <= j < frames.len() ==> (#[trigger] frames[j]).width == plan.width && frames[j].height
                == plan.height,
        plan.format == format,
        plan.reverse_bits == reverse_bits,
        plan.frames == frames.map_values(|f: BinaryFrame| f.scan_bytes(format, reverse_bits, pad)),
        holds_plan(parsed, plan),
    ensures
        parsed.format == format,
        parsed.reverse_bits == reverse_bits,
        parsed.frames@.len() == frames.len(),
        forall|k: int|
            0 <= k < frames.len() ==> (#[trigger] parsed.frames@[k]).width == frames[k].width
                && parsed.frames@[k].height == frames[k].height,
        forall|k: int, x: int, y: int|
            0 <= k < frames.len() ==> #[trigger] parsed.frames@[k].pixel(x, y) == frames[k].pixel(x, y),
{
    assert forall|k: int, x: int, y: int| 0 <= k < frames.len() implies #[trigger] parsed.frames@[k].pixel(
        x,
        y,
    ) == frames[k].pixel(x, y) by {
        let f = frames[k];
        let g = parsed.frames@[k];
        let data = f.scan_bytes(format, reverse_bits, pad);
        assert(plan.frames[k] == data);
        assert(crate::importer::frame_holds(g, plan.width, plan.height, format, reverse_bits, data));
        f.lemma_scan_bytes_encoded(format, reverse_bits, pad, data);
        crate::laws::law_decode_after_encode(f, format, reverse_bits, pad, data);
        if 0 <= x < f.width && 0 <= y < f.height {
            assert(g.pixel(x, y) == crate::processor::decoded_pixel(
                data,
                f.width as int,
                f.height as int,
                format,
                reverse_bits,
                x,
                y,
            ));
        }
    }
    assert forall|k: int| 0 <= k < frames.len() implies (#[trigger] parsed.frames@[k]).width
        == frames[k].width && parsed.frames@[k].height == frames[k].height by {
        assert(plan.frames[k] == frames[k].scan_bytes(format, reverse_bits, pad));
        assert(crate::importer::frame_holds(
            parsed.frames@[k],
            plan.width,
            plan.height,
            format,
            reverse_bits,
            plan.frames[k],
        ));
    }
}

/// The export name of an identifier-like name reads back as its C
/// identifier: when the name is a C identifier, it is lower-cased the ASCII
/// way (as `export_c_header` states of ASCII names), and its lower case does
/// not end in `_data`, the lower-cased array name holds no brace and the
/// name read back (`header_name`) is `c_ident(name)`.
pub proof fn law_identifier_name_reads_back(name: Seq<char>)
    requires
        crate::exporter::is_c_identifier(name),
        unicode_lowercase(name) == ascii_lower(name),
        strip_data(ascii_lower(name)) == ascii_lower(name),
    ensures
        no_brace(unicode_lowercase(name)),
        header_name(unicode_lowercase(name), c_ident(name)) == c_ident(name),
{
    let lower = ascii_lower(name);
    let ident = c_ident(name);
    assert forall|i: int| 0 <= i < lower.len() implies #[trigger] lower[i] != '{' by {
        assert(crate::exporter::is_ascii_alpha(name[i]) || crate::exporter::is_ascii_digit(name[i])
            || name[i] == '_');
    }
    assert(ident =~= name.map_values(|c: char| crate::exporter::ascii_upper(c))) by {
        assert(!crate::exporter::is_ascii_digit(name[0]));
        assert forall|i: int| 0 <= i < ident.len() implies ident[i] == crate::exporter::ascii_upper(
            name[i],
        ) by {
            if i > 0 {
                assert(ident[i] == crate::exporter::ident_tail_char(name.skip(1)[i - 1]));
                assert(name.skip(1)[i - 1] == name[i]);
            }
        }
    }
    assert(ascii_lower(lower) =~= ascii_lower(ident)) by {
        assert forall|i: int| 0 <= i < lower.len() implies ascii_lower(lower)[i] == ascii_lower(
            ident,
        )[i] by {
            let c = name[i];
            if 'a' <= c && c <= 'z' {
                assert((((c as u32) - 32) as char) as u32 == (c as u32) - 32);
            } else if 'A' <= c && c <= 'Z' {
                assert((((c as u32) + 32) as char) as u32 == (c as u32) + 32);
            }
        }
    }
}

} // verus!
