use blink::capture::{tick_start, TickStart};
use blink::capture::{
    capture_interval_secs, composite, encode_png, hash_canvas, nap_ms, parse_wm_class, select_monitors,
    shot_paths, split_nul_fields, Canvas, CaptureState, MonitorImage, TickAction,
};
use blink::config::CaptureConfig;
use chrono::{TimeZone, Utc};

#[test]
fn wm_class_takes_second_field() {
    assert_eq!(parse_wm_class(b"navigator\0Firefox\0"), Some("Firefox".to_string()));
    assert_eq!(parse_wm_class(b"\0\0term\0\0XTerm\0"), Some("XTerm".to_string()));
}

#[test]
fn wm_class_needs_two_fields() {
    assert_eq!(parse_wm_class(b"only\0"), None);
    assert_eq!(parse_wm_class(b""), None);
    assert_eq!(parse_wm_class(b"\0\0"), None);
}

#[test]
fn wm_class_invalid_utf8_is_replaced() {
    assert_eq!(parse_wm_class(b"a\0b\xffc\0"), Some("b\u{fffd}c".to_string()));
}

#[test]
fn nul_fields_skip_empty() {
    let f = split_nul_fields(b"\0ab\0\0c");
    assert_eq!(f, vec![b"ab".to_vec(), b"c".to_vec()]);
}

#[test]
fn interval_is_at_least_one() {
    let c = CaptureConfig { interval_seconds: 0, monitors: "all".to_string() };
    assert_eq!(capture_interval_secs(&c), 1);
    let c = CaptureConfig { interval_seconds: 60, monitors: "all".to_string() };
    assert_eq!(capture_interval_secs(&c), 60);
}

#[test]
fn naps_are_at_most_200_ms() {
    assert_eq!(nap_ms(1000, 0), 200);
    assert_eq!(nap_ms(1000, 900), 100);
    assert_eq!(nap_ms(1000, 999), 1);
}

#[test]
fn select_all_monitors() {
    assert_eq!(select_monitors("all", &vec![false, true, false]), vec![0, 1, 2]);
    assert_eq!(select_monitors("anything", &vec![true]), vec![0]);
    assert_eq!(select_monitors("all", &vec![]), Vec::<usize>::new());
}

#[test]
fn select_primary_monitor() {
    assert_eq!(select_monitors("primary", &vec![false, true, true]), vec![1]);
    assert_eq!(select_monitors("primary", &vec![false, false]), Vec::<usize>::new());
}

fn solid(w: u32, h: u32, px: [u8; 4]) -> MonitorImage {
    let mut rgba = Vec::new();
    for _ in 0..(w * h) {
        rgba.extend_from_slice(&px);
    }
    MonitorImage { width: w, height: h, rgba }
}

#[test]
fn composite_side_by_side() {
    let imgs = vec![solid(2, 1, [10, 20, 30, 255]), solid(1, 2, [1, 2, 3, 255])];
    let c = composite(&imgs).unwrap();
    assert_eq!((c.width, c.height), (3, 2));
    assert_eq!(
        c.rgb,
        vec![10, 20, 30, 10, 20, 30, 1, 2, 3, 0, 0, 0, 0, 0, 0, 1, 2, 3]
    );
}

#[test]
fn composite_of_nothing_is_none() {
    assert!(composite(&vec![]).is_none());
    assert!(composite(&vec![solid(0, 3, [0, 0, 0, 0])]).is_none());
}

#[test]
fn composite_matches_image_overlay() {
    let imgs = vec![solid(3, 2, [200, 100, 50, 255]), solid(2, 3, [5, 6, 7, 128])];
    let c = composite(&imgs).unwrap();
    let mut canvas = image::RgbImage::new(5, 3);
    let mut x = 0i64;
    for m in &imgs {
        let rgba = image::RgbaImage::from_raw(m.width, m.height, m.rgba.clone()).unwrap();
        let rgb = image::DynamicImage::ImageRgba8(rgba).to_rgb8();
        image::imageops::overlay(&mut canvas, &rgb, x, 0);
        x += m.width as i64;
    }
    assert_eq!(c.rgb, canvas.into_raw());
}

#[test]
fn png_round_trips() {
    let c = Canvas { width: 2, height: 2, rgb: vec![1, 2, 3, 4, 5, 6, 7, 8, 9, 10, 11, 12] };
    let png = encode_png(&c).unwrap();
    assert_eq!(&png[..8], b"\x89PNG\r\n\x1a\n");
    let back = image::load_from_memory(&png).unwrap().to_rgb8();
    assert_eq!(back.dimensions(), (2, 2));
    assert_eq!(back.into_raw(), c.rgb);
}

#[test]
fn equal_canvases_hash_equal() {
    let a = Canvas { width: 1, height: 1, rgb: vec![1, 2, 3] };
    let b = Canvas { width: 1, height: 1, rgb: vec![1, 2, 3] };
    let c = Canvas { width: 1, height: 1, rgb: vec![1, 2, 4] };
    assert_eq!(hash_canvas(&a), hash_canvas(&b));
    assert_ne!(hash_canvas(&a), hash_canvas(&c));
}

#[test]
fn first_tick_saves() {
    let st = CaptureState::new();
    let c = Canvas { width: 1, height: 1, rgb: vec![9, 9, 9] };
    let (h, action) = st.on_canvas(&c, 60);
    assert_eq!(h, hash_canvas(&c));
    match action {
        TickAction::Save { png, hash } => {
            assert_eq!(hash, h);
            assert_eq!(png, encode_png(&c).unwrap());
        }
        _ => panic!("first tick must save"),
    }
}

#[test]
fn unchanged_screen_extends_previous_sidecar() {
    let mut st = CaptureState::new();
    let c = Canvas { width: 1, height: 1, rgb: vec![9, 9, 9] };
    let (h, _) = st.on_canvas(&c, 60);
    st.saved(h, "/out/a.toml".to_string());
    match st.on_canvas(&c, 60).1 {
        TickAction::ExtendPrevious { sidecar, add_seconds } => {
            assert_eq!(sidecar, "/out/a.toml");
            assert_eq!(add_seconds, 60);
        }
        _ => panic!("unchanged screen must extend"),
    }
    let d = Canvas { width: 1, height: 1, rgb: vec![1, 9, 9] };
    assert!(matches!(st.on_canvas(&d, 60).1, TickAction::Save { .. }));
}

#[test]
fn unchanged_without_sidecar_does_nothing() {
    let st = CaptureState { prev_hash: Some(5), prev_sidecar: None };
    let c = Canvas { width: 1, height: 1, rgb: vec![0, 0, 0] };
    assert!(matches!(st.decide(5, &c, 10), TickAction::Unchanged));
}

#[test]
fn shot_paths_layout() {
    let p = shot_paths("/home/u/Pictures/blink", (2024, 5, 1, 22, 5, 9));
    assert_eq!(p.dir, "/home/u/Pictures/blink/2024/05");
    assert_eq!(p.png, "/home/u/Pictures/blink/2024/05/2024_05_01_22_05_09.png");
    assert_eq!(p.png_tmp, "/home/u/Pictures/blink/2024/05/2024_05_01_22_05_09.png.tmp");
    assert_eq!(p.sidecar, "/home/u/Pictures/blink/2024/05/2024_05_01_22_05_09.toml");
    assert_eq!(p.sidecar_tmp, "/home/u/Pictures/blink/2024/05/2024_05_01_22_05_09.toml.tmp");
}

#[test]
fn shot_paths_follow_chrono_format() {
    for &(y, mo, d, h, mi, s) in &[(2024, 1, 2, 3, 4, 5), (999, 12, 31, 23, 59, 59), (-5, 6, 7, 0, 0, 0), (10000, 2, 29, 1, 1, 1)] {
        let t = Utc.with_ymd_and_hms(y, mo, d, h, mi, s).unwrap();
        let p = shot_paths("out/", (y, mo, d, h, mi, s));
        let dir = format!("out/{}/{}", t.format("%Y"), t.format("%m"));
        assert_eq!(p.dir, dir);
        assert_eq!(p.png, format!("{}/{}.png", dir, t.format("%Y_%m_%d_%H_%M_%S")));
    }
}

#[test]
fn written_stems_are_what_the_index_reads() {
    let p = shot_paths("o", (2024, 5, 1, 9, 8, 7));
    let stem = p.png.rsplit('/').next().unwrap().trim_end_matches(".png").to_string();
    let t = blink::viewer::index::parse_shot_time(&stem).unwrap();
    assert_eq!((t.year, t.month, t.day, t.hour, t.minute, t.second), (2024, 5, 1, 9, 8, 7));
}

#[test]
fn distinct_times_get_distinct_names() {
    let a = shot_paths("o", (2024, 1, 1, 10, 0, 0));
    let b = shot_paths("o", (2024, 1, 1, 10, 0, 1));
    assert_ne!(a.png, b.png);
}

#[test]
fn composite_places_each_monitor_at_its_offset() {
    let imgs = vec![solid(2, 2, [1, 2, 3, 9]), solid(3, 1, [4, 5, 6, 9]), solid(1, 3, [7, 8, 9, 9])];
    let c = composite(&imgs).unwrap();
    assert_eq!((c.width, c.height), (6, 3));
    let px = |x: usize, y: usize| &c.rgb[(y * 6 + x) * 3..(y * 6 + x) * 3 + 3];
    assert_eq!(px(0, 0), &[1, 2, 3]);
    assert_eq!(px(1, 1), &[1, 2, 3]);
    assert_eq!(px(0, 2), &[0, 0, 0]);
    assert_eq!(px(2, 0), &[4, 5, 6]);
    assert_eq!(px(4, 0), &[4, 5, 6]);
    assert_eq!(px(3, 1), &[0, 0, 0]);
    assert_eq!(px(5, 2), &[7, 8, 9]);
}

#[test]
fn tick_start_rules() {
    assert_eq!(tick_start(true, true), TickStart::Stop);
    assert_eq!(tick_start(true, false), TickStart::Stop);
    assert_eq!(tick_start(false, true), TickStart::Skip);
    assert_eq!(tick_start(false, false), TickStart::Capture);
}

#[test]
fn capture_time_matches_chrono() {
    let t = blink::clock::capture_time().unwrap();
    assert!(!t.rfc3339.contains('\n'));
    let parsed = chrono::DateTime::parse_from_rfc3339(&t.rfc3339).unwrap();
    let now = chrono::Local::now();
    assert!((now.timestamp() - parsed.timestamp()).abs() < 5);
    assert!((1..=12).contains(&t.local.1) && t.local.3 < 24);
}
