use blink::capture::push_year;
use blink::sidecar::{line_interval_of, split_lines, BumpError};
use blink::text::{
    chars_of, digit, from_utf8_lossy, is_whitespace, parse_u64_in, push_char, push_chars, push_dec, push_dec_pad,
    push_dec_u128, push_range, push_str, skip_ws, skip_ws_back, str_eq,
};
use blink::viewer::index::{insert_by_time, Shot, ShotTime};

#[test]
fn decimal_rendering() {
    let mut s = String::from("x=");
    push_dec(&mut s, 0);
    push_char(&mut s, ',');
    push_dec(&mut s, 18446744073709551615);
    assert_eq!(s, "x=0,18446744073709551615");
    let mut t = String::new();
    push_dec_u128(&mut t, u128::MAX);
    assert_eq!(t, u128::MAX.to_string());
    assert_eq!(digit(7), '7');
}

#[test]
fn zero_padding() {
    for (n, w) in [(5u64, 2usize), (123, 2), (0, 4), (42, 13), (7, 0)] {
        let mut s = String::new();
        push_dec_pad(&mut s, n, w);
        assert_eq!(s, format!("{:0w$}", n, w = w));
    }
}

#[test]
fn years_as_chrono_writes_them() {
    for y in [0, 7, 2024, 9999, 10000, -1, -2024, 262142, -262143] {
        let mut s = String::new();
        push_year(&mut s, y);
        let d = chrono::NaiveDate::from_ymd_opt(y, 1, 1).unwrap();
        assert_eq!(s, d.format("%Y").to_string(), "year {y}");
    }
}

#[test]
fn whitespace_like_char() {
    for c in ['\t', '\n', ' ', '\u{85}', '\u{a0}', '\u{2003}', '\u{3000}', 'a', '\u{200b}', '\u{feff}'] {
        assert_eq!(is_whitespace(c), c.is_whitespace(), "{c:?}");
    }
}

#[test]
fn skipping_whitespace() {
    let v = chars_of("  ab \t");
    assert_eq!(skip_ws(&v, 0, v.len()), 2);
    assert_eq!(skip_ws_back(&v, 0, v.len()), 4);
    assert_eq!(skip_ws(&v, 4, v.len()), 6);
}

#[test]
fn parsing_u64_like_str_parse() {
    for s in ["0", "42", "+42", "18446744073709551615", "18446744073709551616", "", "+", "-1", "4x", "007"] {
        let v = chars_of(s);
        assert_eq!(parse_u64_in(&v, 0, v.len()), s.parse::<u64>().ok(), "{s:?}");
    }
    let v = chars_of("ab123cd");
    assert_eq!(parse_u64_in(&v, 2, 5), Some(123));
}

#[test]
fn appending_text() {
    let mut s = String::new();
    push_str(&mut s, "héllo");
    push_chars(&mut s, &vec!['!', '?']);
    push_range(&mut s, &chars_of("abcdef"), 1, 3);
    assert_eq!(s, "héllo!?bc");
    assert_eq!(chars_of("héllo"), vec!['h', 'é', 'l', 'l', 'o']);
}

#[test]
fn text_equality() {
    assert!(str_eq("primary", "primary"));
    assert!(!str_eq("primary", "Primary"));
    assert!(!str_eq("prim", "primary"));
}

#[test]
fn lossy_decoding() {
    assert_eq!(from_utf8_lossy(b"caf\xc3\xa9"), "café");
    assert_eq!(from_utf8_lossy(b"a\xffb"), "a\u{fffd}b");
}

#[test]
fn lines_like_str_lines() {
    for s in ["a\nb", "a\r\nb\r\n", "", "\n", "x\n\ny", "r\r", "\r\n\r\n"] {
        let got: Vec<String> = split_lines(&chars_of(s)).into_iter().map(|l| l.into_iter().collect()).collect();
        let want: Vec<String> = s.lines().map(|l| l.to_string()).collect();
        assert_eq!(got, want, "{s:?}");
    }
}

#[test]
fn interval_lines() {
    assert_eq!(line_interval_of(&chars_of("interval_seconds = 60")), Some(Ok(60)));
    assert_eq!(line_interval_of(&chars_of("interval_seconds=5")), Some(Ok(5)));
    assert_eq!(line_interval_of(&chars_of("interval_secondsX = 5")), Some(Err(BumpError::Malformed)));
    assert_eq!(line_interval_of(&chars_of("interval_seconds = ")), Some(Err(BumpError::BadNumber)));
    assert_eq!(line_interval_of(&chars_of("hostname = \"h\"")), None);
    assert_eq!(line_interval_of(&chars_of(" interval_seconds = 5")), None);
}

#[test]
fn inserting_by_time_keeps_order() {
    let t = |h: u32| ShotTime { year: 2024, month: 1, day: 1, hour: h, minute: 0, second: 0, nanosecond: 0 };
    let mut v: Vec<Shot> = Vec::new();
    for (h, p) in [(5, "a"), (3, "b"), (5, "c"), (1, "d"), (4, "e")] {
        insert_by_time(&mut v, Shot { time: t(h), png: p.to_string(), duration_s: 0 });
    }
    let order: Vec<&str> = v.iter().map(|s| s.png.as_str()).collect();
    assert_eq!(order, vec!["d", "b", "e", "a", "c"]);
}
