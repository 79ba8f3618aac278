use img2c::ffmpeg::{every_nth_filters, frame_count_from_log, frame_count_from_probe, frame_range_filters};
use img2c::video::even_sample;

#[test]
fn probe_output_is_trimmed_and_parsed() {
    assert_eq!(frame_count_from_probe("120\n"), Some(120));
    assert_eq!(frame_count_from_probe("  \t 42 \r\n"), Some(42));
    assert_eq!(frame_count_from_probe("+7"), Some(7));
    assert_eq!(frame_count_from_probe("4294967295"), Some(4294967295));
    assert_eq!(frame_count_from_probe("4294967296"), None);
    assert_eq!(frame_count_from_probe("N/A\n"), None);
    assert_eq!(frame_count_from_probe("12 13"), None);
    assert_eq!(frame_count_from_probe(""), None);
    assert_eq!(frame_count_from_probe("\u{3000}9\u{a0}"), Some(9));
}

#[test]
fn log_frame_count_from_last_frame_line() {
    let log = "Input #0, mov,mp4\n  Duration: 00:00:10.00\nframe=  250 fps=0.0 q=-1.0 Lsize=N/A time=00:00:10.00\nvideo:0kB audio:0kB\n";
    assert_eq!(frame_count_from_log(log), Some(250));
    let two = "frame=  10 fps=1\nframe= 20 fps=2\nend\n";
    assert_eq!(frame_count_from_log(two), Some(20));
}

#[test]
fn log_frame_count_skips_unreadable_lines() {
    assert_eq!(frame_count_from_log("frame= 5\nframe=xyz\n"), Some(5));
    assert_eq!(frame_count_from_log("frame=abc\nframe=   12\r\n"), Some(12));
    assert_eq!(frame_count_from_log("frame=   50 fps=1\rframe=  123 fps=2\n"), Some(50));
    assert_eq!(frame_count_from_log("no frames here\n"), None);
    assert_eq!(frame_count_from_log(""), None);
    assert_eq!(frame_count_from_log(" frame= 3\n"), None);
}

#[test]
fn range_filters_for_each_bound() {
    assert_eq!(
        frame_range_filters(Some(5), Some(9)),
        vec!["select=between(n\\,5\\,9)+gte(n\\,5)*lte(n\\,9)", "setpts=N/FRAME_RATE/TB"]
    );
    assert_eq!(frame_range_filters(Some(9), Some(5)), Vec::<String>::new());
    assert_eq!(frame_range_filters(Some(3), None), vec!["select=gte(n\\,3)", "setpts=N/FRAME_RATE/TB"]);
    assert_eq!(frame_range_filters(None, Some(70)), vec!["select=lte(n\\,70)"]);
    assert_eq!(frame_range_filters(None, None), Vec::<String>::new());
}

#[test]
fn every_n_filter() {
    assert_eq!(every_nth_filters(5), vec!["select=not(mod(n\\,5))", "setpts=N/FRAME_RATE/TB"]);
    assert_eq!(every_nth_filters(1), Vec::<String>::new());
    assert_eq!(every_nth_filters(0), Vec::<String>::new());
}

#[test]
fn even_sampling_of_extracted_frames() {
    assert_eq!(even_sample(10, 3), vec![0, 3, 6]);
    assert_eq!(even_sample(7, 2), vec![0, 3]);
    assert_eq!(even_sample(3, 5), vec![0, 1, 2]);
    assert_eq!(even_sample(3, 3), vec![0, 1, 2]);
    assert_eq!(even_sample(5, 0), Vec::<usize>::new());
    assert_eq!(even_sample(0, 0), Vec::<usize>::new());
}
