use img2c::video::{is_video, is_video_extension, select_frames, video_extensions, FrameSampling};
use std::path::Path;

#[test]
fn extension_list() {
    assert_eq!(
        video_extensions(),
        &["mp4", "avi", "mov", "mkv", "wmv", "flv", "webm", "m4v", "mpg", "mpeg", "ts", "3gp"]
    );
}

#[test]
fn video_extensions_ignore_ascii_case() {
    assert!(is_video_extension("mp4"));
    assert!(is_video_extension("MP4"));
    assert!(is_video_extension("Mkv"));
    assert!(is_video_extension("3GP"));
    assert!(!is_video_extension("gif"));
    assert!(!is_video_extension("png"));
    assert!(!is_video_extension(""));
    assert!(!is_video_extension("mp"));
    assert!(!is_video_extension("mp44"));
}

#[test]
fn video_paths() {
    assert!(is_video(Path::new("clip.MP4")));
    assert!(is_video(Path::new("/tmp/a/b.webm")));
    assert!(!is_video(Path::new("anim.gif")));
    assert!(!is_video(Path::new("noext")));
    assert!(!is_video(Path::new(".mp4")));
}

#[test]
fn single_frames_stay() {
    assert_eq!(select_frames(0, Some(3), None, FrameSampling::EveryN(2)), Vec::<usize>::new());
    assert_eq!(select_frames(1, Some(3), Some(9), FrameSampling::TotalFrames(5)), vec![0]);
}

#[test]
fn range_is_clamped_and_swapped() {
    assert_eq!(select_frames(10, Some(2), Some(5), FrameSampling::KeepAll), vec![2, 3, 4, 5]);
    assert_eq!(select_frames(10, Some(5), Some(2), FrameSampling::KeepAll), vec![2, 3, 4, 5]);
    assert_eq!(select_frames(10, Some(7), Some(100), FrameSampling::KeepAll), vec![7, 8, 9]);
    assert_eq!(select_frames(4, None, None, FrameSampling::KeepAll), vec![0, 1, 2, 3]);
    assert_eq!(select_frames(4, Some(50), None, FrameSampling::KeepAll), vec![3]);
}

#[test]
fn every_n_keeps_one_in_n() {
    assert_eq!(select_frames(10, None, None, FrameSampling::EveryN(3)), vec![0, 3, 6, 9]);
    assert_eq!(select_frames(10, Some(1), Some(8), FrameSampling::EveryN(4)), vec![1, 5]);
    assert_eq!(select_frames(5, None, None, FrameSampling::EveryN(1)), vec![0, 1, 2, 3, 4]);
    assert_eq!(select_frames(5, None, None, FrameSampling::EveryN(0)), vec![0, 1, 2, 3, 4]);
    assert_eq!(select_frames(5, None, None, FrameSampling::EveryN(9)), vec![0]);
}

#[test]
fn total_frames_spreads_evenly() {
    assert_eq!(select_frames(10, None, None, FrameSampling::TotalFrames(3)), vec![0, 3, 6]);
    assert_eq!(select_frames(10, Some(2), Some(9), FrameSampling::TotalFrames(4)), vec![2, 4, 6, 8]);
    assert_eq!(select_frames(10, None, None, FrameSampling::TotalFrames(10)), (0..10).collect::<Vec<_>>());
    assert_eq!(select_frames(3, None, None, FrameSampling::TotalFrames(0)), vec![0, 1, 2]);
}
