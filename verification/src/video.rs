//! Video files and frame selection: which extensions are videos, the
//! frames kept of an animation, and even sampling of extracted frames.

use vstd::prelude::*;
use crate::importer::ascii_lower;
use crate::text::chars_of;

verus! {

/// The file extensions treated as video.
pub open spec fn video_extension_names() -> Seq<Seq<char>> {
    seq![
        "mp4"@,
        "avi"@,
        "mov"@,
        "mkv"@,
        "wmv"@,
        "flv"@,
        "webm"@,
        "m4v"@,
        "mpg"@,
        "mpeg"@,
        "ts"@,
        "3gp"@,
    ]
}

/// The file extensions treated as video.
pub fn video_extensions() -> (r: &'static [&'static str])
    ensures
        r@.map_values(|s: &str| s@) == video_extension_names(),
{
    let r: &'static [&'static str] = &[
        "mp4",
        "avi",
        "mov",
        "mkv",
        "wmv",
        "flv",
        "webm",
        "m4v",
        "mpg",
        "mpeg",
        "ts",
        "3gp",
    ];
    assert(r@.map_values(|s: &str| s@) =~= video_extension_names());
    r
}

/// Whether two strings are equal ignoring ASCII case (`str::eq_ignore_ascii_case`).
pub open spec fn eq_ignore_ascii_case(a: Seq<char>, b: Seq<char>) -> bool {
    ascii_lower(a) == ascii_lower(b)
}

/// Whether `ext` is one of the video extensions, ignoring ASCII case.
pub open spec fn is_video_ext(ext: Seq<char>) -> bool {
    exists|i: int|
        0 <= i < video_extension_names().len() && eq_ignore_ascii_case(
            #[trigger] video_extension_names()[i],
            ext,
        )
}

fn lower_of(s: &str) -> (r: Vec<char>)
    ensures
        r@ == ascii_lower(s@),
{
    let cs = chars_of(s);
    let mut r: Vec<char> = Vec::new();
    let mut i: usize = 0;
    while i < cs.len()
        invariant
            i <= cs@.len(),
            cs@ == s@,
            r@ == ascii_lower(cs@.take(i as int)),
        decreases cs@.len() - i,
    {
        let c = cs[i];
        r.push(
            if 'A' <= c && c <= 'Z' {
                ((c as u8) + 32) as char
            } else {
                c
            },
        );
        i = i + 1;
        assert(ascii_lower(cs@.take(i as int)) =~= r@);
    }
    assert(cs@.take(cs@.len() as int) == cs@);
    r
}

fn same_chars(a: &Vec<char>, b: &Vec<char>) -> (r: bool)
    ensures
        r == (a@ == b@),
{
    if a.len() != b.len() {
        return false;
    }
    let mut i: usize = 0;
    while i < a.len()
        invariant
            a@.len() == b@.len(),
            i <= a@.len(),
            forall|j: int| 0 <= j < i ==> a@[j] == b@[j],
        decreases a@.len() - i,
    {
        if a[i] != b[i] {
            return false;
        }
        i = i + 1;
    }
    assert(a@ =~= b@);
    true
}

/// Whether a file extension names a video format (ignoring ASCII case).
pub fn is_video_extension(ext: &str) -> (r: bool)
    ensures
        r == is_video_ext(ext@),
{
    let exts = video_extensions();
    let target = lower_of(ext);
    let mut i: usize = 0;
    while i < exts.len()
        invariant
            i <= exts@.len(),
            exts@.map_values(|s: &str| s@) == video_extension_names(),
            target@ == ascii_lower(ext@),
            forall|j: int| 0 <= j < i ==> !eq_ignore_ascii_case(#[trigger] video_extension_names()[j], ext@),
        decreases exts@.len() - i,
    {
        let v = lower_of(exts[i]);
        assert(video_extension_names()[i as int] == exts@[i as int]@);
        if same_chars(&v, &target) {
            return true;
        }
        i = i + 1;
    }
    false
}


/// `std::path::Path`, carried through as an opaque value.
#[verifier::external_type_specification]
#[verifier::external_body]
pub struct ExPath(std::path::Path);

/// The extension of a path as text: `Path::extension` (the part of the
/// file name after its last `.`), `None` when there is none or it is not
/// valid UTF-8 (`OsStr::to_str`).
pub uninterp spec fn path_extension_text(path: &std::path::Path) -> Option<Seq<char>>;

/// `Path::extension` of `path`, as text (`OsStr::to_str`, then an owned
/// `String`): the result is named `path_extension_text`; what the extension
/// of a given path is, is not stated (`Path` has no plain-value model here).
#[verifier::external_body]
fn path_extension(path: &std::path::Path) -> (r: Option<String>)
    ensures
        match r {
            Some(e) => path_extension_text(path) == Some(e@),
            None => path_extension_text(path) is None,
        },
{
    path.extension().and_then(|s| s.to_str()).map(|s| s.to_string())
}

/// Whether the path names a video file: its extension is one of
/// `video_extensions`, ignoring ASCII case (see `is_video_extension`); a
/// path without a (UTF-8) extension is no video.
pub fn is_video(path: &std::path::Path) -> (r: bool)
    ensures
        r == match path_extension_text(path) {
            Some(e) => is_video_ext(e),
            None => false,
        },
{
    match path_extension(path) {
        Some(ext) => is_video_extension(ext.as_str()),
        None => false,
    }
}


/// How the frames of a multi-frame source are sub-sampled once their range
/// is cut (the frame-rate mode keeps every frame of an animation).
#[derive(Debug, Clone, Copy, PartialEq, Eq, Structural)]
pub enum FrameSampling {
    /// Keep every frame.
    KeepAll,
    /// Keep one frame in every `n` (frames `0, n, 2n, ...`); `n <= 1` keeps all.
    EveryN(u32),
    /// Keep `t` frames spread evenly over the range.
    TotalFrames(u32),
}

/// Pick `i` of `take` picks spread evenly over `len` items counted as `n`:
/// item `i * n / take`, at most the last one.
pub open spec fn even_pick(i: int, n: int, take: int, len: int) -> int {
    let idx = (i * n) / take;
    if idx < len - 1 {
        idx
    } else {
        len - 1
    }
}

/// Picks `take` of `len` items (counted as `n`) spread evenly.
fn even_picks(len: usize, n: u32, take: u32, base: usize) -> (r: Vec<usize>)
    requires
        len > 0,
        take > 0,
        base + len <= usize::MAX,
    ensures
        r@.len() == take,
        forall|i: int| 0 <= i < take ==> #[trigger] r@[i] == base + even_pick(i, n as int, take as int, len as int),
{
    let mut r: Vec<usize> = Vec::new();
    let mut i: u32 = 0;
    while i < take
        invariant
            i <= take,
            len > 0,
            take > 0,
            base + len <= usize::MAX,
            r@.len() == i,
            forall|j: int| 0 <= j < i ==> #[trigger] r@[j] == base + even_pick(j, n as int, take as int, len as int),
        decreases take - i,
    {
        assert((i as u64) * (n as u64) <= u64::MAX) by (nonlinear_arith)
            requires
                i <= u32::MAX,
                n <= u32::MAX,
        ;
        let idx = ((i as u64) * (n as u64)) / (take as u64);
        let pick: usize = if idx < (len - 1) as u64 {
            idx as usize
        } else {
            len - 1
        };
        r.push(base + pick);
        i = i + 1;
    }
    r
}

/// The frames of an animation that stay, as indices into its `count`
/// frames: the range from `start_frame` to `end_frame` (inclusive, each
/// clamped to the last frame counted as `u32`, swapped when reversed), then
/// sub-sampled; a single frame (or none) stays as it is.
pub open spec fn selected_frames(
    count: int,
    start_frame: Option<u32>,
    end_frame: Option<u32>,
    sampling: FrameSampling,
) -> Seq<int> {
    if count <= 1 {
        Seq::new(count as nat, |i: int| i)
    } else {
        let total = count as u32;
        let last: int = if total > 0 {
            total - 1
        } else {
            0
        };
        let s0: int = match start_frame {
            Some(s) => if s < last {
                s as int
            } else {
                last
            },
            None => 0,
        };
        let e0: int = match end_frame {
            Some(e) => if e < last {
                e as int
            } else {
                last
            },
            None => last,
        };
        let s = if s0 <= e0 {
            s0
        } else {
            e0
        };
        let e = if s0 <= e0 {
            e0
        } else {
            s0
        };
        let m = e - s + 1;
        match sampling {
            FrameSampling::EveryN(n) => if n > 1 {
                Seq::new(((m + n - 1) / (n as int)) as nat, |j: int| s + j * n)
            } else {
                Seq::new(m as nat, |j: int| s + j)
            },
            FrameSampling::TotalFrames(t) => if m > t && t > 0 {
                Seq::new(t as nat, |j: int| s + even_pick(j, m, t as int, m))
            } else {
                Seq::new(m as nat, |j: int| s + j)
            },
            FrameSampling::KeepAll => Seq::new(m as nat, |j: int| s + j),
        }
    }
}

/// `j` picks of one in every `n` cover `m` items exactly when `j` is the
/// rounded-up quotient.
proof fn lemma_step_count(j: int, n: int, m: int)
    requires
        n > 1,
        m >= 1,
        j * n >= m,
        j * n < m + n,
    ensures
        j == (m + n - 1) / n,
{
    vstd::arithmetic::div_mod::lemma_fundamental_div_mod_converse(m + n - 1, n, j, m + n - 1 - j * n);
}

/// The frames of an animation that stay (see `selected_frames`), as indices.
pub fn select_frames(
    count: usize,
    start_frame: Option<u32>,
    end_frame: Option<u32>,
    sampling: FrameSampling,
) -> (r: Vec<usize>)
    ensures
        r@.len() == selected_frames(count as int, start_frame, end_frame, sampling).len(),
        forall|i: int|
            0 <= i < r@.len() ==> #[trigger] r@[i] as int == selected_frames(
                count as int,
                start_frame,
                end_frame,
                sampling,
            )[i],
{
    let mut r: Vec<usize> = Vec::new();
    if count <= 1 {
        let mut i: usize = 0;
        while i < count
            invariant
                i <= count,
                r@.len() == i,
                forall|q: int| 0 <= q < i ==> #[trigger] r@[q] as int == q,
            decreases count - i,
        {
            r.push(i);
            i = i + 1;
        }
        return r;
    }
    let total = #[verifier::truncate] (count as u32);
    let last: u32 = if total > 0 {
        total - 1
    } else {
        0
    };
    let s0: u32 = match start_frame {
        Some(s) => if s < last {
            s
        } else {
            last
        },
        None => 0,
    };
    let e0: u32 = match end_frame {
        Some(e) => if e < last {
            e
        } else {
            last
        },
        None => last,
    };
    let (s, e) = if s0 <= e0 {
        (s0, e0)
    } else {
        (e0, s0)
    };
    assert(e < count) by {
        assert((count as u32) as int <= count) by (bit_vector);
    }
    let s = s as usize;
    let e = e as usize;
    let m: usize = e - s + 1;
    match sampling {
        FrameSampling::EveryN(n) if n > 1 => {
            let step: u64 = n as u64;
            let mut off: u64 = 0;
            let ghost mut j: int = 0;
            while off < m as u64
                invariant
                    s <= e < count,
                    m == e - s + 1,
                    m <= u32::MAX,
                    step == n,
                    n > 1,
                    j >= 0,
                    off == j * n,
                    off < m + n,
                    r@.len() == j,
                    forall|q: int| 0 <= q < j ==> #[trigger] r@[q] as int == s + q * n,
                decreases m + n - off,
            {
                r.push(s + off as usize);
                proof {
                    assert((j + 1) * n == j * n + n) by (nonlinear_arith);
                    j = j + 1;
                }
                off = off + step;
            }
            proof {
                lemma_step_count(j, n as int, m as int);
            }
            r
        },
        FrameSampling::TotalFrames(t) if m > t as usize && t > 0 => {
            let mm: u32 = m as u32;
            even_picks(m, mm, t, s)
        },
        _ => {
            let mut k: usize = s;
            while k <= e
                invariant
                    s <= k <= e + 1,
                    e < count,
                    r@.len() == k - s,
                    forall|q: int| 0 <= q < k - s ==> #[trigger] r@[q] as int == s + q,
                decreases e + 1 - k,
            {
                r.push(k);
                k = k + 1;
            }
            r
        },
    }
}

/// The frames kept when at most `total` of `len` extracted frames are
/// wanted: all of them when there are no more than `total`; otherwise
/// `min(total, n)` picks spread evenly, `n` being `len` counted as `u32`.
pub open spec fn even_sample_spec(len: int, total: u32) -> Seq<int> {
    if len <= total {
        Seq::new(len as nat, |i: int| i)
    } else {
        let n = len as u32;
        let take: int = if total < n {
            total as int
        } else {
            n as int
        };
        Seq::new(take as nat, |i: int| even_pick(i, n as int, take, len))
    }
}

/// The extracted frames kept for a wanted total (see `even_sample_spec`),
/// as indices.
pub fn even_sample(len: usize, total: u32) -> (r: Vec<usize>)
    ensures
        r@.len() == even_sample_spec(len as int, total).len(),
        forall|i: int|
            0 <= i < r@.len() ==> #[trigger] r@[i] as int == even_sample_spec(len as int, total)[i],
{
    if len <= total as usize {
        let mut r: Vec<usize> = Vec::new();
        let mut i: usize = 0;
        while i < len
            invariant
                i <= len,
                r@.len() == i,
                forall|q: int| 0 <= q < i ==> #[trigger] r@[q] as int == q,
            decreases len - i,
        {
            r.push(i);
            i = i + 1;
        }
        return r;
    }
    let n = #[verifier::truncate] (len as u32);
    let take = if total < n {
        total
    } else {
        n
    };
    if take == 0 {
        return Vec::new();
    }
    even_picks(len, n, take, 0)
}

/// Even picks of `take <= n` items never repeat and stay in order: pick
/// `i` comes before pick `j` for `i < j`.
proof fn lemma_even_pick_increasing(i: int, j: int, n: int, take: int, len: int)
    requires
        0 <= i < j < take,
        take <= n,
        n <= len,
    ensures
        0 <= even_pick(i, n, take, len) < even_pick(j, n, take, len) < len,
{
    assert(i * n + take <= j * n) by (nonlinear_arith)
        requires
            0 <= i < j,
            1 <= take <= n,
    {
        assert((j - i) * n >= n) by (nonlinear_arith)
            requires
                j - i >= 1,
                n >= 0,
        ;
        assert((j - i) * n == j * n - i * n) by (nonlinear_arith);
    }
    assert((i * n) / take + 1 <= (j * n) / take) by {
        vstd::arithmetic::div_mod::lemma_div_is_ordered(i * n + take, j * n, take);
        vstd::arithmetic::div_mod::lemma_hoist_over_denominator(i * n, 1, take as nat);
    }
    assert(0 <= (i * n) / take) by {
        assert(0 <= i * n) by (nonlinear_arith)
            requires
                0 <= i,
                0 <= take <= n,
        ;
        vstd::arithmetic::div_mod::lemma_div_pos_is_pos(i * n, take);
    }
    assert((j * n) / take < n) by {
        assert(j * n < take * n) by (nonlinear_arith)
            requires
                j < take,
                0 < take <= n,
        ;
        vstd::arithmetic::div_mod::lemma_div_by_multiple_is_strongly_ordered(j * n, take * n, n, take);
        vstd::arithmetic::div_mod::lemma_div_by_multiple(n, take);
        assert(take * n == n * take) by (nonlinear_arith);
    }
}

/// Sampling a fixed total keeps frames in order, each at most
/// once, all of them among the extracted frames.
pub proof fn law_even_sample_in_order(len: int, total: u32)
    requires
        0 <= len <= usize::MAX,
    ensures
        forall|i: int|
            0 <= i < even_sample_spec(len, total).len() ==> 0 <= #[trigger] even_sample_spec(len, total)[i]
                < len,
        forall|i: int, j: int|
            0 <= i < j < even_sample_spec(len, total).len() ==> #[trigger] even_sample_spec(len, total)[i]
                < #[trigger] even_sample_spec(len, total)[j],
{
    let s = even_sample_spec(len, total);
    if len > total {
        let n = len as u32;
        let take: int = if total < n {
            total as int
        } else {
            n as int
        };
        let l = len as usize;
        assert(l == len);
        assert((l as u32) as usize <= l) by (bit_vector);
        assert(n == l as u32);
        assert forall|i: int, j: int| 0 <= i < j < s.len() implies #[trigger] s[i] < #[trigger] s[j] by {
            lemma_even_pick_increasing(i, j, n as int, take, len);
        }
        assert forall|i: int| 0 <= i < s.len() implies 0 <= #[trigger] s[i] < len by {
            if i + 1 < take {
                lemma_even_pick_increasing(i, i + 1, n as int, take, len);
            } else if i > 0 {
                lemma_even_pick_increasing(0, i, n as int, take, len);
            } else {
                assert(take >= 1);
                if take == 1 {
                    assert(even_pick(0, n as int, 1, len) == 0);
                }
            }
        }
    }
}

/// A pick of one in every `n` that lies before the rounded-up count of
/// picks lies inside the `m` items.
proof fn lemma_step_inside(j: int, n: int, m: int)
    requires
        n > 1,
        m >= 1,
        0 <= j < (m + n - 1) / n,
    ensures
        0 <= j * n < m,
{
    vstd::arithmetic::div_mod::lemma_fundamental_div_mod(m + n - 1, n);
    let q = (m + n - 1) / n;
    vstd::arithmetic::div_mod::lemma_mod_bound(m + n - 1, n);
    assert(j * n + n <= q * n) by (nonlinear_arith)
        requires
            j + 1 <= q,
            n > 1,
    ;
    assert(q * n == n * q) by (nonlinear_arith);
    assert(0 <= j * n) by (nonlinear_arith)
        requires
            0 <= j,
            n > 1,
    ;
}

/// Cutting an animation to a frame range and sub-sampling it keeps frames
/// in their order, each at most once, all of them frames of the animation.
pub proof fn law_selected_frames_in_order(
    count: int,
    start_frame: Option<u32>,
    end_frame: Option<u32>,
    sampling: FrameSampling,
)
    requires
        0 <= count <= usize::MAX,
    ensures
        forall|i: int|
            0 <= i < selected_frames(count, start_frame, end_frame, sampling).len() ==> 0
                <= #[trigger] selected_frames(count, start_frame, end_frame, sampling)[i] < count,
        forall|i: int, j: int|
            0 <= i < j < selected_frames(count, start_frame, end_frame, sampling).len()
                ==> #[trigger] selected_frames(count, start_frame, end_frame, sampling)[i]
                < #[trigger] selected_frames(count, start_frame, end_frame, sampling)[j],
{
    let sel = selected_frames(count, start_frame, end_frame, sampling);
    if count > 1 {
        let c = count as usize;
        assert(c == count);
        assert((c as u32) as usize <= c) by (bit_vector);
        assert(count as u32 == c as u32);
        let total = count as u32;
        let last: int = if total > 0 {
            total - 1
        } else {
            0
        };
        assert(last < count);
        let s0: int = match start_frame {
            Some(s) => if s < last {
                s as int
            } else {
                last
            },
            None => 0,
        };
        let e0: int = match end_frame {
            Some(e) => if e < last {
                e as int
            } else {
                last
            },
            None => last,
        };
        let s = if s0 <= e0 {
            s0
        } else {
            e0
        };
        let e = if s0 <= e0 {
            e0
        } else {
            s0
        };
        let m = e - s + 1;
        assert(0 <= s <= e < count);
        match sampling {
            FrameSampling::EveryN(n) => {
                if n > 1 {
                    assert forall|i: int| 0 <= i < sel.len() implies 0 <= #[trigger] sel[i] < count by {
                        lemma_step_inside(i, n as int, m);
                    }
                    assert forall|i: int, j: int| 0 <= i < j < sel.len() implies #[trigger] sel[i]
                        < #[trigger] sel[j] by {
                        assert(i * n < j * n) by (nonlinear_arith)
                            requires
                                i < j,
                                n > 1,
                        ;
                    }
                }
            },
            FrameSampling::TotalFrames(t) => {
                if m > t && t > 0 {
                    assert forall|i: int, j: int| 0 <= i < j < sel.len() implies #[trigger] sel[i]
                        < #[trigger] sel[j] by {
                        lemma_even_pick_increasing(i, j, m, t as int, m);
                    }
                    assert forall|i: int| 0 <= i < sel.len() implies 0 <= #[trigger] sel[i] < count by {
                        if i + 1 < t {
                            lemma_even_pick_increasing(i, i + 1, m, t as int, m);
                        } else if i > 0 {
                            lemma_even_pick_increasing(0, i, m, t as int, m);
                        } else {
                            assert(even_pick(0, m, t as int, m) == 0);
                        }
                    }
                }
            },
            FrameSampling::KeepAll => {},
        }
    }
}

/// The cut range of an animation of more than one frame: its first frame
/// `s` and its length `m`, and what each sampling keeps of it.
proof fn lemma_cut_range(count: int, start_frame: Option<u32>, end_frame: Option<u32>) -> (sm: (int, int))
    requires
        1 < count <= usize::MAX,
    ensures
        0 <= sm.0,
        1 <= sm.1,
        sm.0 + sm.1 <= count,
        selected_frames(count, start_frame, end_frame, FrameSampling::KeepAll) =~= Seq::new(
            sm.1 as nat,
            |j: int| sm.0 + j,
        ),
        forall|n: u32|
            n > 1 ==> #[trigger] selected_frames(count, start_frame, end_frame, FrameSampling::EveryN(n))
                =~= Seq::new(((sm.1 + n - 1) / (n as int)) as nat, |j: int| sm.0 + j * n),
        forall|t: u32|
            sm.1 > t && t > 0 ==> #[trigger] selected_frames(
                count,
                start_frame,
                end_frame,
                FrameSampling::TotalFrames(t),
            ) =~= Seq::new(t as nat, |j: int| sm.0 + even_pick(j, sm.1, t as int, sm.1)),
        forall|t: u32|
            !(sm.1 > t && t > 0) ==> #[trigger] selected_frames(
                count,
                start_frame,
                end_frame,
                FrameSampling::TotalFrames(t),
            ) =~= Seq::new(sm.1 as nat, |j: int| sm.0 + j),
{
    let c = count as usize;
    assert(c == count);
    assert((c as u32) as usize <= c) by (bit_vector);
    assert(count as u32 == c as u32);
    let total = count as u32;
    let last: int = if total > 0 {
        total - 1
    } else {
        0
    };
    let s0: int = match start_frame {
        Some(s) => if s < last {
            s as int
        } else {
            last
        },
        None => 0,
    };
    let e0: int = match end_frame {
        Some(e) => if e < last {
            e as int
        } else {
            last
        },
        None => last,
    };
    let s = if s0 <= e0 {
        s0
    } else {
        e0
    };
    let e = if s0 <= e0 {
        e0
    } else {
        s0
    };
    assert forall|n: u32| n > 1 implies #[trigger] selected_frames(
        count,
        start_frame,
        end_frame,
        FrameSampling::EveryN(n),
    ) =~= Seq::new(((e - s + 1 + n - 1) / (n as int)) as nat, |j: int| s + j * n) by {
        vstd::arithmetic::div_mod::lemma_div_pos_is_pos(e - s + 1 + n - 1, n as int);
    }
    (s, e - s + 1)
}

/// Cutting without sub-sampling keeps a contiguous run of frames: some
/// frame of a non-empty animation stays, and the kept frames follow each
/// other one by one.
pub proof fn law_kept_range_is_contiguous(count: int, start_frame: Option<u32>, end_frame: Option<u32>)
    requires
        0 <= count <= usize::MAX,
    ensures
        count >= 1 ==> selected_frames(count, start_frame, end_frame, FrameSampling::KeepAll).len() >= 1,
        forall|k: int|
            0 <= k < selected_frames(count, start_frame, end_frame, FrameSampling::KeepAll).len()
                ==> #[trigger] selected_frames(count, start_frame, end_frame, FrameSampling::KeepAll)[k]
                == selected_frames(count, start_frame, end_frame, FrameSampling::KeepAll)[0] + k,
{
    if count > 1 {
        lemma_cut_range(count, start_frame, end_frame);
    }
}

/// Keeping one frame in every `n >= 2` keeps the frames of the cut range at
/// positions `0, n, 2n, ...`: of a range of `m` frames it keeps
/// `ceil(m / n)`, the `k`-th being the range's frame `k * n` (so `n == 2`
/// halves the frames).
pub proof fn law_every_n_thins_the_range(
    count: int,
    start_frame: Option<u32>,
    end_frame: Option<u32>,
    n: u32,
)
    requires
        0 <= count <= usize::MAX,
        n >= 2,
    ensures
        selected_frames(count, start_frame, end_frame, FrameSampling::EveryN(n)).len() == (
        selected_frames(count, start_frame, end_frame, FrameSampling::KeepAll).len() + n - 1) / (n as int),
        forall|k: int|
            0 <= k < selected_frames(count, start_frame, end_frame, FrameSampling::EveryN(n)).len()
                ==> #[trigger] selected_frames(count, start_frame, end_frame, FrameSampling::EveryN(n))[k]
                == selected_frames(count, start_frame, end_frame, FrameSampling::KeepAll)[k * n],
        selected_frames(count, start_frame, end_frame, FrameSampling::EveryN(n)).len() > 0 ==> (selected_frames(
            count,
            start_frame,
            end_frame,
            FrameSampling::EveryN(n),
        ).len() - 1) * n < selected_frames(count, start_frame, end_frame, FrameSampling::KeepAll).len(),
{
    let range = selected_frames(count, start_frame, end_frame, FrameSampling::KeepAll);
    let kept = selected_frames(count, start_frame, end_frame, FrameSampling::EveryN(n));
    if count <= 1 {
        assert(range.len() == count);
        if count == 0 {
            vstd::arithmetic::div_mod::lemma_basic_div(n - 1, n as int);
        } else {
            vstd::arithmetic::div_mod::lemma_div_basics(n as int);
        }
        assert((range.len() + n - 1) / (n as int) == range.len());
    } else {
        let (s, m) = lemma_cut_range(count, start_frame, end_frame);
        assert(range.len() == m);
        assert(kept.len() == (m + n - 1) / (n as int));
    }
    assert forall|k: int| 0 <= k < kept.len() implies k * n < range.len() && #[trigger] kept[k]
        == range[k * n] by {
        if count <= 1 {
            assert(kept.len() == count);
            assert(k == 0);
            assert(k * n == 0);
            assert(kept[0] == 0 && range[0] == 0);
        } else {
            let (s, m) = lemma_cut_range(count, start_frame, end_frame);
            lemma_step_inside(k, n as int, m);
            assert(kept[k] == s + k * n);
            assert(range[k * n] == s + k * n);
        }
    }
    if kept.len() > 0 {
        assert(kept[kept.len() - 1] == range[(kept.len() - 1) * n]);
    }
}

/// Keeping a fixed total `t` of a longer cut range keeps exactly `t` of its
/// frames, each a frame of the range; a range no longer than `t` (or
/// `t == 0`) is kept whole.
pub proof fn law_total_frames_takes_the_total(
    count: int,
    start_frame: Option<u32>,
    end_frame: Option<u32>,
    t: u32,
)
    requires
        0 <= count <= usize::MAX,
    ensures
        0 < t < selected_frames(count, start_frame, end_frame, FrameSampling::KeepAll).len() ==> {
            &&& selected_frames(count, start_frame, end_frame, FrameSampling::TotalFrames(t)).len() == t
            &&& forall|k: int|
                0 <= k < t ==> selected_frames(count, start_frame, end_frame, FrameSampling::KeepAll).contains(
                    #[trigger] selected_frames(count, start_frame, end_frame, FrameSampling::TotalFrames(t))[k],
                )
        },
        !(0 < t < selected_frames(count, start_frame, end_frame, FrameSampling::KeepAll).len()) ==> selected_frames(
            count,
            start_frame,
            end_frame,
            FrameSampling::TotalFrames(t),
        ) == selected_frames(count, start_frame, end_frame, FrameSampling::KeepAll),
{
    let range = selected_frames(count, start_frame, end_frame, FrameSampling::KeepAll);
    let kept = selected_frames(count, start_frame, end_frame, FrameSampling::TotalFrames(t));
    if count <= 1 {
        assert(kept =~= range);
    } else {
        let (s, m) = lemma_cut_range(count, start_frame, end_frame);
        if 0 < t < m {
            assert forall|k: int| 0 <= k < t implies range.contains(#[trigger] kept[k]) by {
                let j = even_pick(k, m, t as int, m);
                if k + 1 < t {
                    lemma_even_pick_increasing(k, k + 1, m, t as int, m);
                } else if k > 0 {
                    lemma_even_pick_increasing(0, k, m, t as int, m);
                } else {
                    assert(even_pick(0, m, t as int, m) == 0);
                }
                assert(0 <= j < m);
                assert(range[j] == kept[k]);
            }
        } else {
            assert(kept =~= range);
        }
    }
}

} // verus!
