//! Reading back exported frame rows: the initialiser scanner reads the
//! bytes the exporter wrote, and the frames cut from them decode back.

use vstd::prelude::*;
use crate::importer::{
    frame_data, frame_holds, index_of_from, scan_run, scan_step, scanned_initialiser, token_byte,
    ScanState,
};
use crate::exporter::{byte_lines_from, formatted_bytes, frames_block, hex_entries, line_end};
use crate::processor::{scan_len, BinaryFrame, ScanFormat};
use crate::text::{byte_points, digit_value, digits_value, hex_byte, hex_digit_char, parsed_u64};

verus! {

/// The scanner state after the characters `data`, starting from `st`.
pub open spec fn scan_from(st: ScanState, data: Seq<u8>) -> ScanState
    decreases data.len(),
{
    if data.len() == 0 {
        st
    } else {
        scan_step(scan_from(st, data.drop_last()), data.last())
    }
}

/// The scanner state before any character.
pub open spec fn scan_start() -> ScanState {
    ScanState { depth: 0, token: Seq::empty(), bytes: Seq::empty(), starts: Seq::empty(), done: false }
}

/// ASCII codes of a text (its bytes, when every character is ASCII).
pub open spec fn ascii_codes(s: Seq<char>) -> Seq<u8> {
    s.map_values(|c: char| (c as u32) as u8)
}

proof fn lemma_scan_run_from(data: Seq<u8>)
    ensures
        scan_run(data) == scan_from(scan_start(), data),
    decreases data.len(),
{
    if data.len() > 0 {
        lemma_scan_run_from(data.drop_last());
    }
}

proof fn lemma_scan_from_concat(st: ScanState, a: Seq<u8>, b: Seq<u8>)
    ensures
        scan_from(st, a + b) == scan_from(scan_from(st, a), b),
    decreases b.len(),
{
    if b.len() == 0 {
        assert(a + b =~= a);
    } else {
        assert((a + b).drop_last() =~= a + b.drop_last());
        assert((a + b).last() == b.last());
        lemma_scan_from_concat(st, a, b.drop_last());
    }
}

/// The characters of a hexadecimal digit.
pub(crate) proof fn lemma_hex_digit_code(d: nat)
    requires
        d < 16,
    ensures
        ((hex_digit_char(d) as u32) as u8) as u32 == (if d < 10 {
            48 + d
        } else {
            55 + d
        }),
        crate::text::is_hex_digit(((hex_digit_char(d) as u32) as u8) as u32),
        digit_value(((hex_digit_char(d) as u32) as u8) as u32) == d,
{
}

/// One entry `0xHH,` adds the byte `HH` to the scan.
proof fn lemma_scan_entry(st: ScanState, x: u8)
    requires
        st.token.len() == 0,
        !st.done,
    ensures
        scan_from(st, ascii_codes(hex_byte(x) + seq![','])) == (ScanState {
            bytes: st.bytes.push(x),
            ..st
        }),
{
    let d1 = (x / 16) as nat;
    let d2 = (x % 16) as nat;
    lemma_hex_digit_code(d1);
    lemma_hex_digit_code(d2);
    let c1 = (hex_digit_char(d1) as u32) as u8;
    let c2 = (hex_digit_char(d2) as u32) as u8;
    let data = ascii_codes(hex_byte(x) + seq![',']);
    assert(data =~= seq![48u8, 120u8, c1, c2, 44u8]);
    let tok = seq![48u8, 120u8, c1, c2];
    assert(crate::importer::hex_only(tok) =~= seq![48u8, c1, c2]) by {
        reveal_with_fuel(crate::importer::hex_only, 5);
        assert(tok.drop_last() =~= seq![48u8, 120u8, c1]);
        assert(tok.drop_last().drop_last() =~= seq![48u8, 120u8]);
        assert(tok.drop_last().drop_last().drop_last() =~= seq![48u8]);
        assert(tok.drop_last().drop_last().drop_last().drop_last() =~= Seq::<u8>::empty());
    }
    let clean = byte_points(seq![48u8, c1, c2]);
    assert(clean =~= seq![48u32, c1 as u32, c2 as u32]);
    assert(digits_value(clean, 16) == d1 * 16 + d2) by {
        reveal_with_fuel(digits_value, 4);
        assert(clean.drop_last() =~= seq![48u32, c1 as u32]);
        assert(clean.drop_last().drop_last() =~= seq![48u32]);
        assert(clean.drop_last().drop_last().drop_last() =~= Seq::<u32>::empty());
    }
    assert(d1 * 16 + d2 == x);
    assert(parsed_u64(clean, 16) == Some(x as u64)) by {
        assert(clean[0] != 43);
        assert forall|i: int| 0 <= i < clean.len() implies crate::text::is_hex_digit(#[trigger] clean[i]) by {
            if i == 0 {
            } else if i == 1 {
            } else {
            }
        }
    }
    assert(token_byte(tok) == Some(x));
    reveal_with_fuel(scan_from, 6);
    assert(data.drop_last() =~= tok);
    assert(tok.drop_last() =~= seq![48u8, 120u8, c1]);
    assert(tok.drop_last().drop_last() =~= seq![48u8, 120u8]);
    assert(tok.drop_last().drop_last().drop_last() =~= seq![48u8]);
    assert(tok.drop_last().drop_last().drop_last().drop_last() =~= Seq::<u8>::empty());
    assert(st.token.push(48u8) =~= seq![48u8]);
    assert(seq![48u8].push(120u8) =~= seq![48u8, 120u8]);
    assert(seq![48u8, 120u8].push(c1) =~= seq![48u8, 120u8, c1]);
    assert(seq![48u8, 120u8, c1].push(c2) =~= tok);
    let s1 = scan_step(st, 48u8);
    assert(s1 == ScanState { token: seq![48u8], ..st });
    let s2 = scan_step(s1, 120u8);
    assert(s2 == ScanState { token: seq![48u8, 120u8], ..st });
    let s3 = scan_step(s2, c1);
    assert(s3 == ScanState { token: seq![48u8, 120u8, c1], ..st });
    let s4 = scan_step(s3, c2);
    assert(s4 == ScanState { token: tok, ..st });
    assert(st.token =~= Seq::<u8>::empty());
    let s5 = scan_step(s4, 44u8);
    assert(s5 == ScanState { bytes: st.bytes.push(x), ..st });
}

/// Spaces, line feeds and commas outside a token leave the scan as it is.
proof fn lemma_scan_blank(st: ScanState, data: Seq<u8>)
    requires
        st.token.len() == 0,
        forall|i: int| 0 <= i < data.len() ==> #[trigger] data[i] == 32u8 || data[i] == 10u8 || data[i] == 44u8,
    ensures
        scan_from(st, data) == st,
    decreases data.len(),
{
    if data.len() > 0 {
        lemma_scan_blank(st, data.drop_last());
        let c = data.last();
        assert(c == data[data.len() - 1]);
    }
}

/// Once the outermost brace has closed, the rest of the text is ignored.
proof fn lemma_scan_done(st: ScanState, data: Seq<u8>)
    requires
        st.done,
    ensures
        scan_from(st, data) == st,
    decreases data.len(),
{
    if data.len() > 0 {
        lemma_scan_done(st, data.drop_last());
    }
}

/// The entries `0xHH,` of some bytes add those bytes to the scan.
proof fn lemma_scan_entries(st: ScanState, b: Seq<u8>)
    requires
        st.token.len() == 0,
        !st.done,
    ensures
        scan_from(st, ascii_codes(hex_entries(b))) == (ScanState { bytes: st.bytes + b, ..st }),
    decreases b.len(),
{
    if b.len() == 0 {
        assert(ascii_codes(hex_entries(b)) =~= Seq::<u8>::empty());
        assert(st.bytes + b =~= st.bytes);
    } else {
        let init = b.drop_last();
        lemma_scan_entries(st, init);
        let mid = ScanState { bytes: st.bytes + init, ..st };
        assert(ascii_codes(hex_entries(b)) =~= ascii_codes(hex_entries(init)) + ascii_codes(
            hex_byte(b.last()) + seq![','],
        ));
        lemma_scan_from_concat(st, ascii_codes(hex_entries(init)), ascii_codes(hex_byte(b.last()) + seq![',']));
        lemma_scan_entry(mid, b.last());
        assert(mid.bytes.push(b.last()) =~= st.bytes + b);
    }
}

/// The initialiser lines from byte `start` on add the bytes from `start` on.
proof fn lemma_scan_lines(st: ScanState, b: Seq<u8>, bytes_per_line: int, start: int)
    requires
        st.token.len() == 0,
        !st.done,
        0 <= start <= b.len(),
    ensures
        scan_from(st, ascii_codes(byte_lines_from(b, bytes_per_line, start))) == (ScanState {
            bytes: st.bytes + b.subrange(start, b.len() as int),
            ..st
        }),
    decreases b.len() - start,
{
    if start >= b.len() {
        assert(ascii_codes(byte_lines_from(b, bytes_per_line, start)) =~= Seq::<u8>::empty());
        assert(st.bytes + b.subrange(start, b.len() as int) =~= st.bytes);
    } else {
        let end = line_end(b.len() as int, bytes_per_line, start);
        let sep: Seq<char> = if start > 0 {
            "\n"@
        } else {
            Seq::empty()
        };
        reveal_strlit("\n");
        reveal_strlit("    ");
        let lead = ascii_codes(sep + "    "@);
        let entries = ascii_codes(hex_entries(b.subrange(start, end)));
        let rest = ascii_codes(byte_lines_from(b, bytes_per_line, end));
        assert(ascii_codes(byte_lines_from(b, bytes_per_line, start)) =~= lead + entries + rest);
        lemma_scan_from_concat(st, lead + entries, rest);
        lemma_scan_from_concat(st, lead, entries);
        lemma_scan_blank(st, lead);
        lemma_scan_entries(st, b.subrange(start, end));
        let mid = ScanState { bytes: st.bytes + b.subrange(start, end), ..st };
        lemma_scan_lines(mid, b, bytes_per_line, end);
        assert(mid.bytes + b.subrange(end, b.len() as int) =~= st.bytes + b.subrange(
            start,
            b.len() as int,
        ));
    }
}

/// All the bytes of the frames, one frame after the other.
pub open spec fn frames_bytes(
    frames: Seq<BinaryFrame>,
    format: ScanFormat,
    reverse_bits: bool,
    pad: bool,
) -> Seq<u8>
    decreases frames.len(),
{
    if frames.len() == 0 {
        Seq::empty()
    } else {
        frames_bytes(frames.drop_last(), format, reverse_bits, pad) + frames.last().scan_bytes(
            format,
            reverse_bits,
            pad,
        )
    }
}

/// Where each frame starts in `frames_bytes`.
pub open spec fn frames_starts(
    frames: Seq<BinaryFrame>,
    format: ScanFormat,
    reverse_bits: bool,
    pad: bool,
) -> Seq<int>
    decreases frames.len(),
{
    if frames.len() == 0 {
        Seq::empty()
    } else {
        frames_starts(frames.drop_last(), format, reverse_bits, pad).push(
            frames_bytes(frames.drop_last(), format, reverse_bits, pad).len() as int,
        )
    }
}

/// `  {` and its line feed open a frame.
proof fn lemma_scan_open(st: ScanState)
    requires
        st.token.len() == 0,
        !st.done,
        st.depth == 1,
    ensures
        scan_from(st, ascii_codes("  {\n"@)) == (ScanState {
            depth: 2,
            starts: st.starts.push(st.bytes.len() as int),
            ..st
        }),
{
    reveal_strlit("  {\n");
    let open = ascii_codes("  {\n"@);
    assert(open =~= seq![32u8, 32u8, 123u8, 10u8]);
    reveal_with_fuel(scan_from, 5);
    assert(open.drop_last() =~= seq![32u8, 32u8, 123u8]);
    assert(open.drop_last().drop_last() =~= seq![32u8, 32u8]);
    assert(open.drop_last().drop_last().drop_last() =~= seq![32u8]);
    assert(open.drop_last().drop_last().drop_last().drop_last() =~= Seq::<u8>::empty());
}

/// A line feed, `  },` and a line feed close a frame.
proof fn lemma_scan_close(st: ScanState)
    requires
        st.token.len() == 0,
        !st.done,
        st.depth == 2,
    ensures
        scan_from(st, ascii_codes("\n"@ + "  },\n"@)) == (ScanState { depth: 1, ..st }),
{
    reveal_strlit("\n");
    reveal_strlit("  },\n");
    let close = ascii_codes("\n"@ + "  },\n"@);
    assert(close =~= seq![10u8, 32u8, 32u8, 125u8, 44u8, 10u8]);
    assert(st.token =~= Seq::<u8>::empty());
    reveal_with_fuel(scan_from, 7);
    assert(close.drop_last() =~= seq![10u8, 32u8, 32u8, 125u8, 44u8]);
    assert(close.drop_last().drop_last() =~= seq![10u8, 32u8, 32u8, 125u8]);
    assert(close.drop_last().drop_last().drop_last() =~= seq![10u8, 32u8, 32u8]);
    assert(close.drop_last().drop_last().drop_last().drop_last() =~= seq![10u8, 32u8]);
    assert(close.drop_last().drop_last().drop_last().drop_last().drop_last() =~= seq![10u8]);
    assert(close.drop_last().drop_last().drop_last().drop_last().drop_last().drop_last()
        =~= Seq::<u8>::empty());
}

/// The text of one frame adds its bytes and records where it starts.
proof fn lemma_scan_frame(st: ScanState, b: Seq<u8>, bytes_per_line: int)
    requires
        st.token.len() == 0,
        !st.done,
        st.depth == 1,
    ensures
        scan_from(
            st,
            ascii_codes("  {\n"@ + formatted_bytes(b, bytes_per_line) + "\n"@ + "  },\n"@),
        ) == (ScanState {
            bytes: st.bytes + b,
            starts: st.starts.push(st.bytes.len() as int),
            ..st
        }),
{
    let open = ascii_codes("  {\n"@);
    let body = ascii_codes(formatted_bytes(b, bytes_per_line));
    let close = ascii_codes("\n"@ + "  },\n"@);
    assert(ascii_codes("  {\n"@ + formatted_bytes(b, bytes_per_line) + "\n"@ + "  },\n"@) =~= open
        + body + close);
    lemma_scan_from_concat(st, open + body, close);
    lemma_scan_from_concat(st, open, body);
    lemma_scan_open(st);
    let opened = ScanState { depth: 2, starts: st.starts.push(st.bytes.len() as int), ..st };
    lemma_scan_lines(opened, b, bytes_per_line, 0);
    assert(b.subrange(0, b.len() as int) =~= b);
    let filled = ScanState { bytes: st.bytes + b, ..opened };
    lemma_scan_close(filled);
}

/// The array body of an exported header, scanned inside the outer brace,
/// adds every frame's bytes and records where each frame starts.
#[verifier::spinoff_prover]
#[verifier::rlimit(40)]
proof fn lemma_scan_frames(
    st: ScanState,
    frames: Seq<BinaryFrame>,
    format: ScanFormat,
    reverse_bits: bool,
    pad: bool,
    bytes_per_line: int,
)
    requires
        st.token.len() == 0,
        !st.done,
        st.depth == 1,
    ensures
        scan_from(st, ascii_codes(frames_block(frames, format, reverse_bits, pad, bytes_per_line)))
            == (ScanState {
            bytes: st.bytes + frames_bytes(frames, format, reverse_bits, pad),
            starts: st.starts + frames_starts(frames, format, reverse_bits, pad).map_values(
                |o: int| o + st.bytes.len(),
            ),
            ..st
        }),
    decreases frames.len(),
{
    reveal(frames_block);
    if frames.len() == 0 {
        assert(ascii_codes(frames_block(frames, format, reverse_bits, pad, bytes_per_line)) =~= Seq::<
            u8,
        >::empty());
        assert(st.bytes + frames_bytes(frames, format, reverse_bits, pad) =~= st.bytes);
        assert(st.starts + frames_starts(frames, format, reverse_bits, pad).map_values(
            |o: int| o + st.bytes.len(),
        ) =~= st.starts);
    } else {
        let init = frames.drop_last();
        let b = frames.last().scan_bytes(format, reverse_bits, pad);
        let prev = ascii_codes(frames_block(init, format, reverse_bits, pad, bytes_per_line));
        let piece = ascii_codes("  {\n"@ + formatted_bytes(b, bytes_per_line) + "\n"@ + "  },\n"@);
        assert(frames_block(frames, format, reverse_bits, pad, bytes_per_line) == frames_block(
            init,
            format,
            reverse_bits,
            pad,
            bytes_per_line,
        ) + "  {\n"@ + formatted_bytes(b, bytes_per_line) + "\n"@ + "  },\n"@);
        assert(ascii_codes(frames_block(frames, format, reverse_bits, pad, bytes_per_line)) =~= prev
            + piece);
        lemma_scan_from_concat(st, prev, piece);
        lemma_scan_frames(st, init, format, reverse_bits, pad, bytes_per_line);
        let mid = ScanState {
            bytes: st.bytes + frames_bytes(init, format, reverse_bits, pad),
            starts: st.starts + frames_starts(init, format, reverse_bits, pad).map_values(
                |o: int| o + st.bytes.len(),
            ),
            ..st
        };
        lemma_scan_frame(mid, b, bytes_per_line);
        assert(mid.bytes + b =~= st.bytes + frames_bytes(frames, format, reverse_bits, pad));
        assert(mid.starts.push(mid.bytes.len() as int) =~= st.starts + frames_starts(
            frames,
            format,
            reverse_bits,
            pad,
        ).map_values(|o: int| o + st.bytes.len()));
    }
}

/// One start is recorded per frame.
pub(crate) proof fn lemma_frames_starts_len(
    frames: Seq<BinaryFrame>,
    format: ScanFormat,
    reverse_bits: bool,
    pad: bool,
)
    ensures
        frames_starts(frames, format, reverse_bits, pad).len() == frames.len(),
    decreases frames.len(),
{
    if frames.len() > 0 {
        lemma_frames_starts_len(frames.drop_last(), format, reverse_bits, pad);
    }
}

/// Reading back what the exporter writes: scanning the array initialiser
/// of an exported header (its opening brace, the frame rows of
/// `frames_block` and the closing `};`) gives every frame's bytes, one
/// frame after the other, and the offset where each frame starts, whatever
/// bytes follow it.
pub proof fn law_scanner_reads_back_exported_frames(
    frames: Seq<BinaryFrame>,
    format: ScanFormat,
    reverse_bits: bool,
    pad: bool,
    bytes_per_line: int,
    more: Seq<u8>,
)
    ensures
        scanned_initialiser(
            ascii_codes(
                "{\n"@ + frames_block(frames, format, reverse_bits, pad, bytes_per_line) + "};\n"@,
            ) + more,
            0,
        ) == (
            frames_bytes(frames, format, reverse_bits, pad),
            frames_starts(frames, format, reverse_bits, pad),
        ),
{
    reveal_strlit("{\n");
    reveal_strlit("};\n");
    let block = ascii_codes(frames_block(frames, format, reverse_bits, pad, bytes_per_line));
    let head = ascii_codes("{\n"@);
    let tail = ascii_codes("};\n"@);
    let text = ascii_codes(
        "{\n"@ + frames_block(frames, format, reverse_bits, pad, bytes_per_line) + "};\n"@,
    ) + more;
    assert(head =~= seq![123u8, 10u8]);
    assert(tail =~= seq![125u8, 59u8, 10u8]);
    assert(text =~= head + block + tail + more);
    assert(text[0] == 123u8);
    assert(index_of_from(text.skip(0), 123u8, 0) == Some(0int));
    assert(text.skip(0).skip(0) =~= text);
    lemma_scan_run_from(text);
    lemma_scan_from_concat(scan_start(), head + block + tail, more);
    lemma_scan_from_concat(scan_start(), head + block, tail);
    lemma_scan_from_concat(scan_start(), head, block);
    let s1 = ScanState { depth: 1, ..scan_start() };
    assert(scan_from(scan_start(), head) == s1) by {
        reveal_with_fuel(scan_from, 3);
        assert(head.drop_last() =~= seq![123u8]);
        assert(head.drop_last().drop_last() =~= Seq::<u8>::empty());
    }
    lemma_scan_frames(s1, frames, format, reverse_bits, pad, bytes_per_line);
    let s2 = ScanState {
        bytes: s1.bytes + frames_bytes(frames, format, reverse_bits, pad),
        starts: s1.starts + frames_starts(frames, format, reverse_bits, pad).map_values(
            |o: int| o + s1.bytes.len(),
        ),
        ..s1
    };
    let s3 = ScanState { depth: 0, done: true, ..s2 };
    assert(scan_from(s2, tail) == s3) by {
        assert(s2.token =~= Seq::<u8>::empty());
        reveal_with_fuel(scan_from, 4);
        assert(tail.drop_last() =~= seq![125u8, 59u8]);
        assert(tail.drop_last().drop_last() =~= seq![125u8]);
        assert(tail.drop_last().drop_last().drop_last() =~= Seq::<u8>::empty());
    }
    lemma_scan_done(s3, more);
    assert(s3.bytes =~= frames_bytes(frames, format, reverse_bits, pad));
    assert(s3.starts =~= frames_starts(frames, format, reverse_bits, pad));
    lemma_frames_starts_len(frames, format, reverse_bits, pad);
    if frames.len() == 0 {
        assert(frames_bytes(frames, format, reverse_bits, pad) =~= Seq::<u8>::empty());
    }
}

/// Frames whose encodings all have `fs` bytes lie back to back: frame `k`
/// starts at `k * fs` and its bytes are the `fs` bytes found there.
pub(crate) proof fn lemma_frames_layout(
    frames: Seq<BinaryFrame>,
    format: ScanFormat,
    reverse_bits: bool,
    pad: bool,
    fs: int,
)
    requires
        fs >= 0,
        forall|j: int|
            0 <= j < frames.len() ==> (#[trigger] frames[j]).scan_bytes(format, reverse_bits, pad).len()
                == fs,
    ensures
        frames_bytes(frames, format, reverse_bits, pad).len() == frames.len() * fs,
        frames_starts(frames, format, reverse_bits, pad).len() == frames.len(),
        forall|k: int|
            0 <= k < frames.len() ==> #[trigger] frames_starts(frames, format, reverse_bits, pad)[k]
                == k * fs,
        forall|k: int|
            0 <= k < frames.len() ==> frames_bytes(frames, format, reverse_bits, pad).subrange(
                k * fs,
                k * fs + fs,
            ) == (#[trigger] frames[k]).scan_bytes(format, reverse_bits, pad),
    decreases frames.len(),
{
    if frames.len() > 0 {
        let init = frames.drop_last();
        let n = frames.len() as int;
        assert forall|j: int| 0 <= j < init.len() implies (#[trigger] init[j]).scan_bytes(
            format,
            reverse_bits,
            pad,
        ).len() == fs by {
            assert(init[j] == frames[j]);
        }
        lemma_frames_layout(init, format, reverse_bits, pad, fs);
        let a = frames_bytes(init, format, reverse_bits, pad);
        let b = frames.last().scan_bytes(format, reverse_bits, pad);
        assert(frames.last() == frames[n - 1]);
        assert((n - 1) * fs + fs == n * fs) by (nonlinear_arith);
        assert forall|k: int| 0 <= k < n implies #[trigger] frames_starts(
            frames,
            format,
            reverse_bits,
            pad,
        )[k] == k * fs && frames_bytes(frames, format, reverse_bits, pad).subrange(k * fs, k * fs + fs)
            == frames[k].scan_bytes(format, reverse_bits, pad) by {
            assert(frames_starts(frames, format, reverse_bits, pad) == frames_starts(
                init,
                format,
                reverse_bits,
                pad,
            ).push(a.len() as int));
            assert(frames_bytes(frames, format, reverse_bits, pad) == a + b);
            if k < n - 1 {
                assert(init[k] == frames[k]);
                assert(frames_starts(init, format, reverse_bits, pad)[k] == k * fs);
                assert(a.subrange(k * fs, k * fs + fs) == init[k].scan_bytes(format, reverse_bits, pad));
                assert(k * fs + fs <= (n - 1) * fs) by (nonlinear_arith)
                    requires
                        k < n - 1,
                        fs >= 0,
                ;
                assert(0 <= k * fs) by (nonlinear_arith)
                    requires
                        0 <= k,
                        fs >= 0,
                ;
                assert((a + b).subrange(k * fs, k * fs + fs) =~= a.subrange(k * fs, k * fs + fs));
            } else {
                assert((a + b).subrange(k * fs, k * fs + fs) =~= b);
            }
        }
        assert forall|k: int| 0 <= k < n implies frames_bytes(frames, format, reverse_bits, pad).subrange(
            k * fs,
            k * fs + fs,
        ) == (#[trigger] frames[k]).scan_bytes(format, reverse_bits, pad) by {
            assert(frames_starts(frames, format, reverse_bits, pad)[k] == k * fs);
        }
    }
}

/// Cutting the read-back bytes of exported frames of one size gives each
/// frame its own bytes: frame `k`'s data (`frame_data`, at its recorded
/// start, one frame size long) is its encoding.
pub proof fn law_cut_frames_are_exported_bytes(
    frames: Seq<BinaryFrame>,
    format: ScanFormat,
    reverse_bits: bool,
    pad: bool,
    k: int,
)
    requires
        0 <= k < frames.len(),
        forall|j: int|
            0 <= j < frames.len() ==> (#[trigger] frames[j]).width == frames[0].width
                && frames[j].height == frames[0].height,
    ensures
        frame_data(
            frames_bytes(frames, format, reverse_bits, pad),
            frames_starts(frames, format, reverse_bits, pad),
            k,
            scan_len(frames[0].width as int, frames[0].height as int, format),
        ) == frames[k].scan_bytes(format, reverse_bits, pad),
{
    let fs = scan_len(frames[0].width as int, frames[0].height as int, format);
    assert(fs >= 0) by (nonlinear_arith)
        requires
            fs == scan_len(frames[0].width as int, frames[0].height as int, format),
            frames[0].width >= 0,
            frames[0].height >= 0,
    ;
    assert forall|j: int| 0 <= j < frames.len() implies (#[trigger] frames[j]).scan_bytes(
        format,
        reverse_bits,
        pad,
    ).len() == fs by {
        crate::laws::law_frame_size_is_encoded_length(frames[j], format, reverse_bits, pad);
    }
    lemma_frames_layout(frames, format, reverse_bits, pad, fs);
    let bytes = frames_bytes(frames, format, reverse_bits, pad);
    let starts = frames_starts(frames, format, reverse_bits, pad);
    assert(starts[k] == k * fs);
    assert(k * fs + fs <= frames.len() * fs) by (nonlinear_arith)
        requires
            k < frames.len(),
            fs >= 0,
    ;
    assert(0 <= k * fs) by (nonlinear_arith)
        requires
            0 <= k,
            fs >= 0,
    ;
    assert(frame_data(bytes, starts, k, fs) =~= bytes.subrange(k * fs, k * fs + fs));
}

/// Decoding the cut bytes of an exported frame gives the frame back: a
/// frame read from frame `k`'s data (`frame_holds`, the contract of
/// `bytes_to_binary_frame`) has frame `k`'s pixels.
pub proof fn law_cut_frame_decodes_back(
    frames: Seq<BinaryFrame>,
    format: ScanFormat,
    reverse_bits: bool,
    pad: bool,
    k: int,
    g: BinaryFrame,
)
    requires
        0 <= k < frames.len(),
        forall|j: int|
            0 <= j < frames.len() ==> (#[trigger] frames[j]).width == frames[0].width
                && frames[j].height == frames[0].height,
        frame_holds(
            g,
            frames[0].width,
            frames[0].height,
            format,
            reverse_bits,
            frame_data(
                frames_bytes(frames, format, reverse_bits, pad),
                frames_starts(frames, format, reverse_bits, pad),
                k,
                scan_len(frames[0].width as int, frames[0].height as int, format),
            ),
        ),
    ensures
        g.width == frames[k].width,
        g.height == frames[k].height,
        forall|x: int, y: int| #[trigger] g.pixel(x, y) == frames[k].pixel(x, y),
{
    law_cut_frames_are_exported_bytes(frames, format, reverse_bits, pad, k);
    let f = frames[k];
    let data = f.scan_bytes(format, reverse_bits, pad);
    f.lemma_scan_bytes_encoded(format, reverse_bits, pad, data);
    crate::laws::law_decode_after_encode(f, format, reverse_bits, pad, data);
    assert forall|x: int, y: int| #[trigger] g.pixel(x, y) == f.pixel(x, y) by {
        if 0 <= x < f.width && 0 <= y < f.height {
            assert(decoded_at(data, f, format, reverse_bits, x, y) == f.pixel(x, y));
        }
    }
}

spec fn decoded_at(data: Seq<u8>, f: BinaryFrame, format: ScanFormat, reverse_bits: bool, x: int, y: int) -> bool {
    crate::processor::decoded_pixel(data, f.width as int, f.height as int, format, reverse_bits, x, y)
}

} // verus!
