use blink::sidecar::{bump_sidecar_text, sidecar_text, toml_escape, BumpError};

#[test]
fn toml_escape_leaves_plain_text() {
    assert_eq!(toml_escape("Firefox — Mozilla"), "Firefox — Mozilla");
    assert_eq!(toml_escape(""), "");
}

#[test]
fn toml_escape_quotes_and_backslashes() {
    assert_eq!(toml_escape("say \"hi\""), "say \\\"hi\\\"");
    assert_eq!(toml_escape("C:\\dir"), "C:\\\\dir");
}

#[test]
fn toml_escape_control_characters() {
    assert_eq!(toml_escape("a\nb\rc\td"), "a\\nb\\rc\\td");
    assert_eq!(toml_escape("\u{1}"), "\\u0001");
    assert_eq!(toml_escape("\u{1f}x"), "\\u001Fx");
    assert_eq!(toml_escape("\u{7f}"), "\\u007F");
}

#[test]
fn sidecar_text_with_window() {
    let body = sidecar_text(
        "2024-05-01T10:00:00+02:00",
        60,
        "host",
        Some("a \"b\""),
        Some("Firefox"),
    );
    assert_eq!(
        body,
        "captured_at = \"2024-05-01T10:00:00+02:00\"\n\
         interval_seconds = 60\n\
         hostname = \"host\"\n\
         window_title = \"a \\\"b\\\"\"\n\
         window_class = \"Firefox\"\n"
    );
}

#[test]
fn sidecar_text_without_window() {
    let body = sidecar_text("t", 5, "h\\x", None, None);
    assert_eq!(body, "captured_at = \"t\"\ninterval_seconds = 5\nhostname = \"h\\\\x\"\n");
}

#[test]
fn sidecar_text_is_valid_toml() {
    let body = sidecar_text("2024-05-01T10:00:00+02:00", 60, "h", Some("q\"\n\t\u{2}"), None);
    let v: toml::Value = toml::from_str(&body).unwrap();
    assert_eq!(v["interval_seconds"].as_integer(), Some(60));
    assert_eq!(v["window_title"].as_str(), Some("q\"\n\t\u{2}"));
}

#[test]
fn bump_extends_the_interval() {
    let body = sidecar_text("t", 60, "h", Some("w"), None);
    let (text, total) = bump_sidecar_text(&body, 60).unwrap().unwrap();
    assert_eq!(total, 120);
    assert_eq!(text, sidecar_text("t", 120, "h", Some("w"), None));
}

#[test]
fn bump_twice_equals_bump_of_sum() {
    let body = sidecar_text("t", 30, "h", None, Some("k"));
    let (once, _) = bump_sidecar_text(&body, 30).unwrap().unwrap();
    let (twice, total) = bump_sidecar_text(&once, 45).unwrap().unwrap();
    assert_eq!(total, 105);
    let (direct, _) = bump_sidecar_text(&body, 75).unwrap().unwrap();
    assert_eq!(twice, direct);
}

#[test]
fn bump_reads_spaced_values() {
    let raw = "a = 1\ninterval_seconds   =  7  \r\nb = 2";
    let (text, total) = bump_sidecar_text(raw, 3).unwrap().unwrap();
    assert_eq!(total, 10);
    assert_eq!(text, "a = 1\ninterval_seconds = 10\nb = 2\n");
}

#[test]
fn bump_without_interval_line() {
    assert_eq!(bump_sidecar_text("a = 1\n", 3).unwrap(), Err(BumpError::NotFound));
    assert_eq!(bump_sidecar_text("", 3).unwrap(), Err(BumpError::NotFound));
}

#[test]
fn bump_malformed_line() {
    assert_eq!(bump_sidecar_text("interval_seconds 5\n", 3).unwrap(), Err(BumpError::Malformed));
}

#[test]
fn bump_bad_number() {
    assert_eq!(bump_sidecar_text("interval_seconds = x\n", 3).unwrap(), Err(BumpError::BadNumber));
    assert_eq!(bump_sidecar_text("interval_seconds = -1\n", 3).unwrap(), Err(BumpError::BadNumber));
}

#[test]
fn bump_overflow_is_none() {
    let raw = format!("interval_seconds = {}\n", u64::MAX);
    assert!(bump_sidecar_text(&raw, 1).is_none());
    let (_, total) = bump_sidecar_text(&raw, 0).unwrap().unwrap();
    assert_eq!(total, u64::MAX);
}

#[test]
fn bump_every_interval_line_last_total_wins() {
    let raw = "interval_seconds = 1\ninterval_seconds = 10\n";
    let (text, total) = bump_sidecar_text(raw, 2).unwrap().unwrap();
    assert_eq!(total, 12);
    assert_eq!(text, "interval_seconds = 3\ninterval_seconds = 12\n");
}

#[test]
fn bump_accepts_plus_sign() {
    let (text, total) = bump_sidecar_text("interval_seconds = +4", 1).unwrap().unwrap();
    assert_eq!(total, 5);
    assert_eq!(text, "interval_seconds = 5\n");
}

#[test]
fn escaped_text_reads_back_in_toml() {
    let samples = ["plain", "q\"uote", "back\\slash", "\u{0}\u{8}\u{c}\u{1b}\u{1f}", "tab\there", "line\r\nbreak", "ünïcødé ✓", "del\u{7f}"];
    for s in samples {
        let doc = format!("v = \"{}\"\n", toml_escape(s));
        let v: toml::Value = toml::from_str(&doc).unwrap();
        assert_eq!(v["v"].as_str(), Some(s));
    }
}

#[test]
fn escaped_text_has_no_control_characters() {
    let all: String = (0u32..0x100).filter_map(char::from_u32).collect();
    let e = toml_escape(&all);
    assert!(e.chars().all(|c| (c as u32) >= 0x20 && c as u32 != 0x7f));
    let doc = format!("v = \"{}\"\n", e);
    let v: toml::Value = toml::from_str(&doc).unwrap();
    assert_eq!(v["v"].as_str(), Some(all.as_str()));
}
