use blink::viewer::app::{day_of, last_day, ViewerApp};
use blink::viewer::calendar::{day_cell, days_in_month, month_grid, shift_month};
use blink::viewer::index::{month_max_duration, parse_shot_time, time_before, time_in_span, DayIndex, Index, Shot, ShotFile, ShotTime};
use chrono::{Datelike, NaiveDate};

fn file(stem: &str, interval: Option<u64>) -> ShotFile {
    ShotFile { stem: stem.to_string(), png: format!("/o/{stem}.png"), sidecar_interval: interval }
}

fn t(y: i32, mo: u32, d: u32, h: u32, mi: u32, s: u32) -> ShotTime {
    ShotTime { year: y, month: mo, day: d, hour: h, minute: mi, second: s, nanosecond: 0 }
}

#[test]
fn days_in_month_like_chrono() {
    for y in [1900, 1999, 2000, 2023, 2024, 2100, -4, 0] {
        for m in 1..=12u32 {
            let first = NaiveDate::from_ymd_opt(y, m, 1).unwrap();
            let next = if m == 12 { NaiveDate::from_ymd_opt(y + 1, 1, 1) } else { NaiveDate::from_ymd_opt(y, m + 1, 1) }.unwrap();
            assert_eq!(days_in_month(y, m) as i64, (next - first).num_days());
        }
    }
    assert_eq!(days_in_month(2024, 2), 29);
    assert_eq!(days_in_month(2023, 2), 28);
    assert_eq!(days_in_month(1900, 2), 28);
    assert_eq!(days_in_month(2000, 2), 29);
}

#[test]
fn shifting_months() {
    let (mut y, mut m) = (2024, 1);
    shift_month(&mut y, &mut m, -1);
    assert_eq!((y, m), (2023, 12));
    shift_month(&mut y, &mut m, 1);
    assert_eq!((y, m), (2024, 1));
    shift_month(&mut y, &mut m, 25);
    assert_eq!((y, m), (2026, 2));
    shift_month(&mut y, &mut m, -26);
    assert_eq!((y, m), (2023, 12));
    let (mut y, mut m) = (0, 1);
    shift_month(&mut y, &mut m, -1);
    assert_eq!((y, m), (-1, 12));
}

#[test]
fn month_grid_like_chrono() {
    for (y, m) in [(2024, 1), (2024, 2), (2023, 10), (2000, 5)] {
        let g = month_grid(y, m);
        let first = NaiveDate::from_ymd_opt(y, m, 1).unwrap();
        assert_eq!(g.pad, first.weekday().num_days_from_monday());
        assert_eq!(g.days, days_in_month(y, m));
        assert_eq!(g.rows, (g.pad + g.days + 6) / 7);
    }
    let g = month_grid(2024, 9);
    assert_eq!((g.pad, g.days, g.rows), (6, 30, 6));
}

#[test]
fn day_cells() {
    assert_eq!(day_cell(0, 1), (0, 0));
    assert_eq!(day_cell(6, 1), (0, 6));
    assert_eq!(day_cell(6, 2), (1, 0));
    assert_eq!(day_cell(3, 31), (4, 5));
}

#[test]
fn stems_parse_as_chrono_does() {
    assert_eq!(parse_shot_time("2024_05_01_10_20_30"), Some(t(2024, 5, 1, 10, 20, 30)));
    assert_eq!(parse_shot_time("2024_02_30_10_20_30"), None);
    assert_eq!(parse_shot_time("2024_04_30T220509Z"), None);
    assert_eq!(parse_shot_time("notes"), None);
}

#[test]
fn time_order_and_spans() {
    assert!(time_before(&t(2024, 1, 1, 0, 0, 0), &t(2024, 1, 1, 0, 0, 1)));
    assert!(!time_before(&t(2024, 1, 1, 0, 0, 1), &t(2024, 1, 1, 0, 0, 1)));
    assert!(time_before(&t(2023, 12, 31, 23, 59, 59), &t(2024, 1, 1, 0, 0, 0)));
    assert!(time_in_span(&t(2024, 1, 1, 1, 0, 0), 3600, 3600));
    assert!(!time_in_span(&t(2024, 1, 1, 1, 0, 1), 0, 3600));
    let mut late = t(2024, 1, 1, 1, 0, 0);
    late.nanosecond = 5;
    assert!(!time_in_span(&late, 0, 3600));
}

fn sample_index() -> Index {
    let files = vec![
        file("2024_05_01_10_00_00", Some(120)),
        file("2024_05_01_09_00_00", None),
        file("garbage", Some(5)),
        file("2024_05_03_08_00_00", Some(60)),
        file("2024_04_30_23_59_59", Some(30)),
    ];
    Index::from_files(&files, 60)
}

#[test]
fn index_groups_by_day_in_time_order() {
    let idx = sample_index();
    assert_eq!(idx.days.len(), 3);
    let d = &idx.days[&(2024, 5, 1)];
    let times: Vec<u32> = d.shots.iter().map(|s| s.time.hour).collect();
    assert_eq!(times, vec![9, 10]);
    assert_eq!(d.shots[0].duration_s, 60);
    assert_eq!(d.shots[1].duration_s, 120);
    assert_eq!(d.shots[1].png, "/o/2024_05_01_10_00_00.png");
    assert_eq!(d.total_duration_s(), 180);
    assert_eq!(idx.total_duration_s(), 270);
}

#[test]
fn equal_times_keep_found_order() {
    let files = vec![
        ShotFile { stem: "2024_05_01_10_00_00".to_string(), png: "a".to_string(), sidecar_interval: Some(1) },
        ShotFile { stem: "2024_05_01_10_00_00".to_string(), png: "b".to_string(), sidecar_interval: Some(2) },
    ];
    let idx = Index::from_files(&files, 60);
    let pngs: Vec<&str> = idx.days[&(2024, 5, 1)].shots.iter().map(|s| s.png.as_str()).collect();
    assert_eq!(pngs, vec!["a", "b"]);
}

#[test]
fn shots_in_span_counts() {
    let d = DayIndex {
        shots: vec![
            Shot { time: t(2024, 1, 1, 0, 0, 10), png: String::new(), duration_s: 1 },
            Shot { time: t(2024, 1, 1, 1, 0, 0), png: String::new(), duration_s: 1 },
            Shot { time: t(2024, 1, 1, 2, 0, 0), png: String::new(), duration_s: 1 },
        ],
    };
    assert_eq!(d.shots_in_span(0, 3600), 2);
    assert_eq!(d.shots_in_span(3601, 7200), 1);
    assert_eq!(d.shots_in_span(7201, 86399), 0);
}

#[test]
fn month_maximum() {
    let idx = sample_index();
    assert_eq!(month_max_duration(&idx, 2024, 5), 180);
    assert_eq!(month_max_duration(&idx, 2024, 4), 30);
    assert_eq!(month_max_duration(&idx, 2023, 5), 0);
}

#[test]
fn latest_day_and_lookup() {
    let idx = sample_index();
    assert_eq!(last_day(&idx), Some((2024, 5, 3)));
    assert!(day_of(&idx, (2024, 5, 2)).is_none());
    assert_eq!(day_of(&idx, (2024, 4, 30)).unwrap().shots.len(), 1);
    assert_eq!(last_day(&Index::from_files(&vec![], 60)), None);
}

#[test]
fn viewer_opens_on_latest_day() {
    let app = ViewerApp::new_on(sample_index(), (2030, 1, 1));
    assert_eq!(app.selected_day, Some((2024, 5, 3)));
    assert_eq!(app.selected_shot, Some(0));
    assert_eq!((app.view_year, app.view_month), (2024, 5));
    assert!(app.selected_range.is_none());
    let empty = ViewerApp::new_on(Index::from_files(&vec![], 60), (2030, 7, 9));
    assert_eq!(empty.selected_day, None);
    assert_eq!(empty.selected_shot, None);
    assert_eq!((empty.view_year, empty.view_month), (2030, 7));
}

#[test]
fn viewer_new_reads_today_when_empty() {
    let app = ViewerApp::new(Index::from_files(&vec![], 60));
    let today = chrono::Local::now().date_naive();
    assert!(app.view_year == today.year() || app.view_year == today.year() + 1);
}

#[test]
fn selecting_and_stepping() {
    let mut app = ViewerApp::new_on(sample_index(), (2030, 1, 1));
    app.select_day((2024, 5, 1));
    assert_eq!(app.selected_shot, Some(0));
    app.step_shot(false, true);
    assert_eq!(app.selected_shot, Some(1));
    app.step_shot(false, true);
    assert_eq!(app.selected_shot, Some(1));
    app.step_shot(true, false);
    assert_eq!(app.selected_shot, Some(0));
    app.step_shot(true, false);
    assert_eq!(app.selected_shot, Some(0));
    app.step_shot(true, true);
    assert_eq!(app.selected_shot, Some(1));
    app.step_shot(false, false);
    assert_eq!(app.selected_shot, Some(1));
    app.select_day((2024, 5, 2));
    assert_eq!(app.selected_shot, None);
    app.step_shot(false, true);
    assert_eq!(app.selected_shot, None);
}

#[test]
fn today_button() {
    let mut app = ViewerApp::new_on(sample_index(), (2030, 1, 1));
    app.go_to_day((2024, 4, 30));
    assert_eq!((app.view_year, app.view_month), (2024, 4));
    assert_eq!(app.selected_day, Some((2024, 4, 30)));
    assert_eq!(app.selected_shot, Some(0));
}

#[test]
fn checked_totals() {
    let idx = sample_index();
    assert_eq!(idx.checked_total_duration_s(), Some(270));
    assert_eq!(idx.days[&(2024, 5, 1)].checked_total_duration_s(), Some(180));
    let big = vec![file("2024_05_01_10_00_00", Some(u64::MAX)), file("2024_05_02_10_00_00", Some(1))];
    let idx = Index::from_files(&big, 60);
    assert_eq!(idx.checked_total_duration_s(), None);
    assert_eq!(idx.days[&(2024, 5, 1)].checked_total_duration_s(), Some(u64::MAX));
    let day = DayIndex {
        shots: vec![
            Shot { time: t(2024, 1, 1, 0, 0, 0), png: String::new(), duration_s: u64::MAX },
            Shot { time: t(2024, 1, 1, 0, 0, 1), png: String::new(), duration_s: 1 },
        ],
    };
    assert_eq!(day.checked_total_duration_s(), None);
}

#[test]
fn today_on_a_clock_after_the_epoch() {
    let today = blink::viewer::app::local_today().unwrap();
    let now = chrono::Local::now().date_naive();
    assert!(today == (now.year(), now.month(), now.day()) || today.0 >= 1970);
}
