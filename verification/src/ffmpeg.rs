//! What the library reads from and hands to ffmpeg / ffprobe: frame
//! counts from their output and the video filters of a frame range.

use vstd::prelude::*;
use crate::text::{code_points, decimal, parse_u64_points, parsed_u64, push_decimal, push_str, string_from_chars};

verus! {

/// Unicode `White_Space`, the characters `char::is_whitespace` accepts.
pub open spec fn is_white_space(c: char) -> bool {
    ('\t' <= c && c <= '\r') || c == ' ' || c == '\u{85}' || c == '\u{a0}' || c == '\u{1680}' || (
    '\u{2000}' <= c && c <= '\u{200a}') || c == '\u{2028}' || c == '\u{2029}' || c == '\u{202f}'
        || c == '\u{205f}' || c == '\u{3000}'
}

fn white_space(c: char) -> (r: bool)
    ensures
        r == is_white_space(c),
{
    ('\t' <= c && c <= '\r') || c == ' ' || c == '\u{85}' || c == '\u{a0}' || c == '\u{1680}' || (
    '\u{2000}' <= c && c <= '\u{200a}') || c == '\u{2028}' || c == '\u{2029}' || c == '\u{202f}'
        || c == '\u{205f}' || c == '\u{3000}'
}

/// First position at or after `i` that holds no white space (the length
/// when there is none).
pub open spec fn first_solid_from(s: Seq<char>, i: int) -> int
    decreases s.len() - i,
{
    if i < 0 || i >= s.len() {
        s.len() as int
    } else if !is_white_space(s[i]) {
        i
    } else {
        first_solid_from(s, i + 1)
    }
}

/// End of the text once trailing white space down to position `lo` is
/// dropped.
pub open spec fn solid_end(s: Seq<char>, j: int, lo: int) -> int
    decreases j - lo,
{
    if j <= lo {
        lo
    } else if !is_white_space(s[j - 1]) {
        j
    } else {
        solid_end(s, j - 1, lo)
    }
}

/// `s` without leading and trailing white space (`str::trim`).
pub open spec fn trimmed(s: Seq<char>) -> Seq<char> {
    let a = first_solid_from(s, 0);
    s.subrange(a, solid_end(s, s.len() as int, a))
}

/// First position at or after `i` that holds white space (the length when
/// there is none).
pub open spec fn first_space_from(s: Seq<char>, i: int) -> int
    decreases s.len() - i,
{
    if i < 0 || i >= s.len() {
        s.len() as int
    } else if is_white_space(s[i]) {
        i
    } else {
        first_space_from(s, i + 1)
    }
}

/// The first white-space separated word of `s` (`split_whitespace().next()`),
/// empty when there is none.
pub open spec fn first_word(s: Seq<char>) -> Seq<char> {
    let a = first_solid_from(s, 0);
    s.subrange(a, first_space_from(s, a))
}

/// What `s.parse::<u32>()` gives: an optional `+`, then one or more decimal
/// digits whose value fits `u32`.
pub open spec fn parsed_u32(s: Seq<char>) -> Option<u32> {
    match parsed_u64(code_points(s), 10) {
        Some(v) => if v <= u32::MAX {
            Some(v as u32)
        } else {
            None
        },
        None => None,
    }
}

/// The characters of `s` from `lo` to `hi`.
fn slice_chars(s: &Vec<char>, lo: usize, hi: usize) -> (r: Vec<char>)
    requires
        lo <= hi <= s@.len(),
    ensures
        r@ == s@.subrange(lo as int, hi as int),
{
    let mut r: Vec<char> = Vec::new();
    let mut i = lo;
    while i < hi
        invariant
            lo <= i <= hi <= s@.len(),
            r@ == s@.subrange(lo as int, i as int),
        decreases hi - i,
    {
        r.push(s[i]);
        i = i + 1;
    }
    r
}

/// Where the text without its leading white space starts.
fn skip_space(s: &Vec<char>) -> (r: usize)
    ensures
        r == first_solid_from(s@, 0),
        r <= s@.len(),
{
    let mut i: usize = 0;
    while i < s.len() && white_space(s[i])
        invariant
            i <= s@.len(),
            first_solid_from(s@, i as int) == first_solid_from(s@, 0),
        decreases s@.len() - i,
    {
        i = i + 1;
    }
    i
}

/// The text without leading and trailing white space (`str::trim`).
fn trim_chars(s: &Vec<char>) -> (r: Vec<char>)
    ensures
        r@ == trimmed(s@),
{
    let a = skip_space(s);
    let mut b = s.len();
    while b > a && white_space(s[b - 1])
        invariant
            a <= b <= s@.len(),
            a == first_solid_from(s@, 0),
            solid_end(s@, b as int, a as int) == solid_end(s@, s@.len() as int, a as int),
        decreases b,
    {
        b = b - 1;
    }
    slice_chars(s, a, b)
}

/// The first white-space separated word of the text.
fn word_chars(s: &Vec<char>) -> (r: Vec<char>)
    ensures
        r@ == first_word(s@),
{
    let a = skip_space(s);
    let mut b = a;
    while b < s.len() && !white_space(s[b])
        invariant
            a <= b <= s@.len(),
            a == first_solid_from(s@, 0),
            first_space_from(s@, b as int) == first_space_from(s@, a as int),
        decreases s@.len() - b,
    {
        b = b + 1;
    }
    slice_chars(s, a, b)
}

/// Parses the text as a `u32` (see `parsed_u32`).
fn parse_u32_chars(s: &Vec<char>) -> (r: Option<u32>)
    ensures
        r == parsed_u32(s@),
{
    let mut points: Vec<u32> = Vec::new();
    let mut i: usize = 0;
    while i < s.len()
        invariant
            i <= s@.len(),
            points@ == code_points(s@.take(i as int)),
        decreases s@.len() - i,
    {
        points.push(s[i] as u32);
        i = i + 1;
        assert(code_points(s@.take(i as int)) =~= code_points(s@.take(i - 1)).push(s@[i - 1] as u32));
    }
    assert(s@.take(s@.len() as int) == s@);
    match parse_u64_points(&points, 10) {
        Some(v) => if v <= 0xFFFF_FFFFu64 {
            Some(v as u32)
        } else {
            None
        },
        None => None,
    }
}

/// The frame count ffprobe prints (`-show_entries stream=nb_read_frames
/// -of csv=p=0`): its output without surrounding white space, read as a
/// `u32`.
pub fn frame_count_from_probe(stdout: &str) -> (r: Option<u32>)
    ensures
        r == parsed_u32(trimmed(stdout@)),
{
    let cs = crate::text::chars_of(stdout);
    let t = trim_chars(&cs);
    parse_u32_chars(&t)
}

/// Position of the last line feed before position `end` (`-1` when there
/// is none).
pub open spec fn last_newline_before(s: Seq<char>, end: int) -> int
    decreases end,
{
    if end <= 0 {
        -1
    } else if s[end - 1] == '\n' {
        end - 1
    } else {
        last_newline_before(s, end - 1)
    }
}

/// The last line feed before `end` lies before it.
pub proof fn lemma_last_newline_range(s: Seq<char>, end: int)
    ensures
        -1 <= last_newline_before(s, end) < if end > 0 {
            end
        } else {
            0
        },
    decreases end,
{
    if end > 0 && s[end - 1] != '\n' {
        lemma_last_newline_range(s, end - 1);
    }
}

/// The frame count a line of ffmpeg's log reports: for a line that starts
/// with `frame=`, the first word after it read as a `u32`.
pub open spec fn line_frame_count(line: Seq<char>) -> Option<u32> {
    if line.len() >= 6 && line.take(6) == seq!['f', 'r', 'a', 'm', 'e', '='] {
        parsed_u32(first_word(trimmed(line.skip(6))))
    } else {
        None
    }
}

/// The frame count of the log `s` up to position `end`: that of its last
/// line that reports one, searching the lines from the last to the first.
pub open spec fn log_frame_count(s: Seq<char>, end: int) -> Option<u32>
    decreases end,
{
    if end < 0 || end > s.len() {
        None
    } else {
        let nl = last_newline_before(s, end);
        match line_frame_count(s.subrange(nl + 1, end)) {
            Some(n) => Some(n),
            None => if nl < 0 {
                None
            } else {
                proof {
                    lemma_last_newline_range(s, end);
                }
                log_frame_count(s, nl)
            },
        }
    }
}

/// The frame count reported by a line.
fn line_count(line: &Vec<char>) -> (r: Option<u32>)
    ensures
        r == line_frame_count(line@),
{
    if line.len() < 6 {
        return None;
    }
    let prefix = line[0] == 'f' && line[1] == 'r' && line[2] == 'a' && line[3] == 'm' && line[4]
        == 'e' && line[5] == '=';
    assert(prefix <==> line@.take(6) == seq!['f', 'r', 'a', 'm', 'e', '=']) by {
        if line@.take(6) == seq!['f', 'r', 'a', 'm', 'e', '='] {
            assert(line@.take(6)[0] == 'f');
            assert(line@.take(6)[1] == 'r');
            assert(line@.take(6)[2] == 'a');
            assert(line@.take(6)[3] == 'm');
            assert(line@.take(6)[4] == 'e');
            assert(line@.take(6)[5] == '=');
        }
        if prefix {
            assert(line@.take(6) =~= seq!['f', 'r', 'a', 'm', 'e', '=']);
        }
    }
    if !prefix {
        return None;
    }
    let rest = slice_chars(line, 6, line.len());
    assert(rest@ == line@.skip(6));
    let t = trim_chars(&rest);
    let w = word_chars(&t);
    parse_u32_chars(&w)
}

/// The frame count in ffmpeg's log (its standard error when it copies a
/// stream to the null muxer): the first word after `frame=` on the last
/// line that starts with `frame=` and has a number there.
pub fn frame_count_from_log(stderr: &str) -> (r: Option<u32>)
    ensures
        r == log_frame_count(stderr@, stderr@.len() as int),
{
    let cs = crate::text::chars_of(stderr);
    let mut end: usize = cs.len();
    loop
        invariant
            end <= cs@.len(),
            cs@ == stderr@,
            log_frame_count(cs@, end as int) == log_frame_count(cs@, cs@.len() as int),
        decreases end,
    {
        let mut j = end;
        while j > 0 && cs[j - 1] != '\n'
            invariant
                j <= end <= cs@.len(),
                last_newline_before(cs@, j as int) == last_newline_before(cs@, end as int),
            decreases j,
        {
            j = j - 1;
        }
        proof {
            lemma_last_newline_range(cs@, end as int);
            assert(last_newline_before(cs@, end as int) == j - 1);
        }
        let line = slice_chars(&cs, j, end);
        let c = line_count(&line);
        if c.is_some() {
            return c;
        }
        if j == 0 {
            return None;
        }
        end = j - 1;
    }
}

/// The filter that renumbers the kept frames' timestamps.
pub open spec fn setpts_filter() -> Seq<char> {
    "setpts=N/FRAME_RATE/TB"@
}

/// The video filters that keep the frames from `start` to `end` (each
/// bound optional, both inclusive); none when both are given and `end` is
/// before `start`, or when neither is given.
pub open spec fn range_filters(start: Option<u32>, end: Option<u32>) -> Seq<Seq<char>> {
    match (start, end) {
        (Some(s), Some(e)) => if e >= s {
            seq![
                "select=between(n\\,"@ + decimal(s as nat) + "\\,"@ + decimal(e as nat) + ")+gte(n\\,"@
                    + decimal(s as nat) + ")*lte(n\\,"@ + decimal(e as nat) + ")"@,
                setpts_filter(),
            ]
        } else {
            Seq::empty()
        },
        (Some(s), None) => seq!["select=gte(n\\,"@ + decimal(s as nat) + ")"@, setpts_filter()],
        (None, Some(e)) => seq!["select=lte(n\\,"@ + decimal(e as nat) + ")"@],
        (None, None) => Seq::empty(),
    }
}

/// The video filters that keep one frame in every `n` (none for `n <= 1`).
pub open spec fn every_n_filters(n: u32) -> Seq<Seq<char>> {
    if n > 1 {
        seq!["select=not(mod(n\\,"@ + decimal(n as nat) + "))"@, setpts_filter()]
    } else {
        Seq::empty()
    }
}

/// The texts of some strings.
pub open spec fn texts(v: Seq<String>) -> Seq<Seq<char>> {
    v.map_values(|s: String| s@)
}

fn setpts() -> (r: String)
    ensures
        r@ == setpts_filter(),
{
    let mut v: Vec<char> = Vec::new();
    push_str(&mut v, "setpts=N/FRAME_RATE/TB");
    assert(v@ =~= setpts_filter());
    string_from_chars(&v)
}

/// The ffmpeg video filters (`-vf`) that cut the frame range from `start`
/// to `end` (see `range_filters`).
pub fn frame_range_filters(start: Option<u32>, end: Option<u32>) -> (r: Vec<String>)
    ensures
        texts(r@) == range_filters(start, end),
{
    let mut r: Vec<String> = Vec::new();
    let mut v: Vec<char> = Vec::new();
    match (start, end) {
        (Some(s), Some(e)) => {
            if e >= s {
                push_str(&mut v, "select=between(n\\,");
                push_decimal(&mut v, s as u64);
                push_str(&mut v, "\\,");
                push_decimal(&mut v, e as u64);
                push_str(&mut v, ")+gte(n\\,");
                push_decimal(&mut v, s as u64);
                push_str(&mut v, ")*lte(n\\,");
                push_decimal(&mut v, e as u64);
                push_str(&mut v, ")");
                r.push(string_from_chars(&v));
                r.push(setpts());
            }
        },
        (Some(s), None) => {
            push_str(&mut v, "select=gte(n\\,");
            push_decimal(&mut v, s as u64);
            push_str(&mut v, ")");
            r.push(string_from_chars(&v));
            r.push(setpts());
        },
        (None, Some(e)) => {
            push_str(&mut v, "select=lte(n\\,");
            push_decimal(&mut v, e as u64);
            push_str(&mut v, ")");
            r.push(string_from_chars(&v));
        },
        (None, None) => {},
    }
    assert(texts(r@) =~= range_filters(start, end));
    r
}

/// The ffmpeg video filters that keep one frame in every `n` (see
/// `every_n_filters`).
pub fn every_nth_filters(n: u32) -> (r: Vec<String>)
    ensures
        texts(r@) == every_n_filters(n),
{
    let mut r: Vec<String> = Vec::new();
    if n > 1 {
        let mut v: Vec<char> = Vec::new();
        push_str(&mut v, "select=not(mod(n\\,");
        push_decimal(&mut v, n as u64);
        push_str(&mut v, "))");
        r.push(string_from_chars(&v));
        r.push(setpts());
    }
    assert(texts(r@) =~= every_n_filters(n));
    r
}

/// Frame-range filters are produced exactly when some bound is given and
/// the bounds are in order (a single frame, `start == end`, included).
pub proof fn law_range_filters_present(start: Option<u32>, end: Option<u32>)
    ensures
        range_filters(start, end).len() > 0 <==> (start is Some || end is Some) && !(start is Some
            && end is Some && end->0 < start->0),
{
}

/// With both bounds in order the first filter selects the frames `n` with
/// `start <= n <= end` (its numbers read back as the bounds) and the second
/// renumbers the timestamps.
pub proof fn law_range_filters_select_between(start: u32, end: u32)
    requires
        start <= end,
    ensures
        range_filters(Some(start), Some(end)).len() == 2,
        range_filters(Some(start), Some(end))[0] == "select=between(n\\,"@ + decimal(start as nat)
            + "\\,"@ + decimal(end as nat) + ")+gte(n\\,"@ + decimal(start as nat) + ")*lte(n\\,"@
            + decimal(end as nat) + ")"@,
        parsed_u64(code_points(decimal(start as nat)), 10) == Some(start as u64),
        parsed_u64(code_points(decimal(end as nat)), 10) == Some(end as u64),
        range_filters(Some(start), Some(end))[1] == setpts_filter(),
{
    crate::roundtrip::lemma_parse_decimal(start as nat);
    crate::roundtrip::lemma_parse_decimal(end as nat);
}

/// With one bound only, the filters keep the frames from it on (with
/// renumbered timestamps) or up to it.
pub proof fn law_range_filters_one_bound(bound: u32)
    ensures
        range_filters(Some(bound), None) == seq![
            "select=gte(n\\,"@ + decimal(bound as nat) + ")"@,
            setpts_filter(),
        ],
        range_filters(None, Some(bound)) == seq!["select=lte(n\\,"@ + decimal(bound as nat) + ")"@],
        parsed_u64(code_points(decimal(bound as nat)), 10) == Some(bound as u64),
{
    crate::roundtrip::lemma_parse_decimal(bound as nat);
}

/// Every-`n`-th filters are produced exactly for `n >= 2`: the first one
/// keeps the frames whose index is a multiple of `n` (its number reading
/// back as `n`), the second renumbers the timestamps.
pub proof fn law_every_n_filters_keep_multiples(n: u32)
    ensures
        every_n_filters(n).len() > 0 <==> n >= 2,
        n >= 2 ==> {
            let f = every_n_filters(n);
            &&& f.len() == 2
            &&& f[0] == "select=not(mod(n\\,"@ + decimal(n as nat) + "))"@
            &&& parsed_u64(code_points(decimal(n as nat)), 10) == Some(n as u64)
            &&& f[1] == setpts_filter()
        },
{
    crate::roundtrip::lemma_parse_decimal(n as nat);
}

} // verus!
