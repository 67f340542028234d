use blink::staging::{pending_frame_names, text_less};
use blink::encoder::{codec_name_for, encoder_fps, needs_rotation, segment_cap_secs, segment_filename, segment_filename_at, EncoderError};
use blink::staging::staged_file_name;
use blink::viewer::fmt_duration;

#[test]
fn staged_names_are_padded() {
    assert_eq!(staged_file_name(1_700_000_000_123, false), "1700000000123.jpg");
    assert_eq!(staged_file_name(42, false), "0000000000042.jpg");
    assert_eq!(staged_file_name(42, true), "0000000000042.jpg.tmp");
    assert_eq!(staged_file_name(12_345_678_901_234, false), "12345678901234.jpg");
    for ms in [0u128, 7, 1_000, 1_700_000_000_123] {
        assert_eq!(staged_file_name(ms, false), format!("{:013}.jpg", ms));
    }
}

#[test]
fn staged_names_sort_by_time() {
    let times = [5u128, 40, 999, 1_000, 1_699_999_999_999, 1_700_000_000_000];
    let mut names: Vec<String> = times.iter().rev().map(|&t| staged_file_name(t, false)).collect();
    names.sort();
    let expected: Vec<String> = times.iter().map(|&t| staged_file_name(t, false)).collect();
    assert_eq!(names, expected);
}

#[test]
fn codec_names() {
    assert_eq!(codec_name_for("h264").ok(), Some("libx264"));
    assert_eq!(codec_name_for("h265").ok(), Some("libx265"));
    assert_eq!(codec_name_for("hevc").ok(), Some("libx265"));
    assert_eq!(codec_name_for("av1").ok(), Some("libsvtav1"));
}

#[test]
fn unsupported_codec_is_an_error() {
    match codec_name_for("vp9") {
        Err(EncoderError::UnsupportedCodec(c)) => assert_eq!(c, "vp9"),
        Ok(_) => panic!("vp9 is not supported"),
    }
    assert!(codec_name_for("H264").is_err());
}

#[test]
fn segment_cap() {
    assert_eq!(segment_cap_secs(0), 60);
    assert_eq!(segment_cap_secs(1), 60);
    assert_eq!(segment_cap_secs(30), 1800);
    assert_eq!(segment_cap_secs(u64::MAX), u64::MAX);
}

#[test]
fn fps_at_least_one() {
    assert_eq!(encoder_fps(0), 1);
    assert_eq!(encoder_fps(30), 30);
    assert_eq!(encoder_fps(u32::MAX), u32::MAX as i32);
    assert_eq!(encoder_fps(u32::MAX), -1);
}

#[test]
fn rotation_rules() {
    assert!(needs_rotation(None, 10, 10, 0, 60));
    assert!(needs_rotation(Some((10, 10)), 11, 10, 0, 60));
    assert!(needs_rotation(Some((10, 10)), 10, 10, 60, 60));
    assert!(!needs_rotation(Some((10, 10)), 10, 10, 59, 60));
}

#[test]
fn segment_file_names() {
    assert_eq!(segment_filename_at("blink", (2024, 3, 9, 7, 5, 0), 1920, 1080), "blink_20240309-070500_1920x1080.mkv");
    let n = segment_filename("seg", 2, 3).unwrap();
    assert!(n.starts_with("seg_") && n.ends_with("_2x3.mkv"));
    assert_eq!(n.len(), "seg_YYYYmmdd-HHMMSS_2x3.mkv".len());
}

#[test]
fn durations() {
    assert_eq!(fmt_duration(0), "0 m");
    assert_eq!(fmt_duration(59), "0 m");
    assert_eq!(fmt_duration(60), "1 m");
    assert_eq!(fmt_duration(3599), "59 m");
    assert_eq!(fmt_duration(3600), "1 h 00 m");
    assert_eq!(fmt_duration(3600 * 25 + 60 * 7 + 3), "25 h 07 m");
    for s in [0u64, 61, 3661, 86399, 123456789] {
        let h = s / 3600;
        let m = (s % 3600) / 60;
        let want = if h > 0 { format!("{h} h {m:02} m") } else { format!("{m} m") };
        assert_eq!(fmt_duration(s), want);
    }
}

#[test]
fn pending_frames_are_jpgs_in_name_order() {
    let names = vec![
        "0000000000200.jpg".to_string(),
        "notes.txt".to_string(),
        "0000000000100.jpg".to_string(),
        ".jpg".to_string(),
        "0000000000150.jpg.tmp".to_string(),
        "b.JPG".to_string(),
        "a.jpg".to_string(),
    ];
    assert_eq!(
        pending_frame_names(names),
        vec!["0000000000100.jpg".to_string(), "0000000000200.jpg".to_string(), "a.jpg".to_string()]
    );
}

#[test]
fn frame_names_sort_like_paths() {
    let names: Vec<String> = ["zz.jpg", "a.jpg", "é.jpg", "ab.jpg", "a.b.jpg"].iter().map(|s| s.to_string()).collect();
    let mut want: Vec<std::path::PathBuf> = names.iter().map(|n| std::path::Path::new("/d").join(n)).collect();
    want.sort();
    let got: Vec<std::path::PathBuf> = pending_frame_names(names).into_iter().map(|n| std::path::Path::new("/d").join(n)).collect();
    assert_eq!(got, want);
    assert!(text_less("a", "ab") && !text_less("ab", "a") && !text_less("a", "a"));
}
