use blink::config::{
    config_path, config_path_in, expand, expand_with_home, join, CaptureConfig, Config, ConfigError, DaemonConfig, OutputConfig,
};
use blink::state::{parse_pid, pid_file_text, proc_dir_of, AppState};
use std::sync::atomic::Ordering;

fn cfg(dir: &str, pid: &str, log: &str) -> Config {
    Config {
        capture: CaptureConfig { interval_seconds: 60, monitors: "all".to_string() },
        output: OutputConfig { dir: dir.to_string() },
        daemon: DaemonConfig { pid_file: pid.to_string(), log_file: log.to_string() },
    }
}

#[test]
fn join_like_pathbuf() {
    assert_eq!(join("/a", "b"), "/a/b");
    assert_eq!(join("/a/", "b"), "/a/b");
    assert_eq!(join("", "b"), "b");
    assert_eq!(join("/a", "/etc"), "/etc");
    for (base, rest) in [("/x/y", "z.toml"), ("rel", "a/b"), ("/", "c"), ("/q", "")] {
        let p = std::path::Path::new(base).join(rest);
        assert_eq!(join(base, rest), p.to_string_lossy());
    }
}

#[test]
fn tilde_expands_under_home() {
    assert_eq!(expand_with_home("~/Pictures/blink", Some("/home/u")), "/home/u/Pictures/blink");
    assert_eq!(expand_with_home("~/x", None), "~/x");
    assert_eq!(expand_with_home("/abs", Some("/home/u")), "/abs");
    assert_eq!(expand_with_home("~user/x", Some("/home/u")), "~user/x");
    assert_eq!(expand_with_home("~", Some("/home/u")), "~");
}

#[test]
fn expand_keeps_absolute_paths() {
    assert_eq!(expand("/var/tmp/blink"), "/var/tmp/blink");
}

#[test]
fn finalize_fills_empty_paths() {
    let mut c = cfg("", "", "");
    assert_eq!(c.finalize_with(Some("/home/u/Pictures"), Some("/home/u/.cache/blink")), Ok(()));
    assert_eq!(c.output.dir, "/home/u/Pictures/blink");
    assert_eq!(c.daemon.pid_file, "/home/u/.cache/blink/blink.pid");
    assert_eq!(c.daemon.log_file, "/home/u/.cache/blink/blink.log");
    assert_eq!(c.capture.interval_seconds, 60);
}

#[test]
fn finalize_without_pictures_uses_cache() {
    let mut c = cfg("", "/run/b.pid", "/l");
    assert_eq!(c.finalize_with(None, Some("/c")), Ok(()));
    assert_eq!(c.output.dir, "/c/output");
    assert_eq!(c.daemon.pid_file, "/run/b.pid");
}

#[test]
fn finalize_keeps_set_paths() {
    let mut c = cfg("/o", "/p", "/l");
    assert_eq!(c.finalize_with(None, None), Ok(()));
    assert_eq!((c.output.dir.as_str(), c.daemon.pid_file.as_str(), c.daemon.log_file.as_str()), ("/o", "/p", "/l"));
}

#[test]
fn finalize_without_cache_fails_when_needed() {
    let mut c = cfg("/o", "", "/l");
    assert_eq!(c.finalize_with(Some("/pics"), None), Err(ConfigError::NoProjectDirs));
    let mut c = cfg("", "/p", "/l");
    assert_eq!(c.finalize_with(None, None), Err(ConfigError::NoProjectDirs));
}

#[test]
fn finalize_twice_changes_nothing() {
    let mut c = cfg("", "", "");
    c.finalize_with(Some("/p"), Some("/c")).unwrap();
    let (o, p, l) = (c.output.dir.clone(), c.daemon.pid_file.clone(), c.daemon.log_file.clone());
    c.finalize_with(None, None).unwrap();
    assert_eq!((c.output.dir, c.daemon.pid_file, c.daemon.log_file), (o, p, l));
}

#[test]
fn finalize_from_environment_sets_every_path() {
    let mut c = cfg("", "", "");
    if c.finalize().is_ok() {
        assert!(!c.output.dir.is_empty());
        assert!(c.daemon.pid_file.ends_with("blink.pid"));
        assert!(c.daemon.log_file.ends_with("blink.log"));
    }
}

#[test]
fn config_accessors_expand() {
    let c = cfg("/data/shots", "/run/blink.pid", "");
    assert_eq!(c.output_dir(), "/data/shots");
    assert_eq!(c.pid_file(), "/run/blink.pid");
}

#[test]
fn config_path_ends_in_config_toml() {
    if let Ok(p) = config_path() {
        assert!(p.ends_with("/blink/config.toml"));
    }
}

#[test]
fn pid_text_round_trips() {
    for pid in [1u32, 42, 4_194_304, i32::MAX as u32] {
        let t = pid_file_text(pid);
        assert_eq!(t, format!("{pid}\n"));
        assert_eq!(parse_pid(&t), Some(pid as i32));
    }
}

#[test]
fn parse_pid_like_str_parse() {
    for s in ["12", " 12 \n", "-7", "+3", "", "abc", "2147483647", "2147483648", "-2147483648", "-2147483649", "1 2", "-", "+"] {
        assert_eq!(parse_pid(s), s.trim().parse::<i32>().ok(), "input {s:?}");
    }
}

#[test]
fn proc_dir_paths() {
    assert_eq!(proc_dir_of(1234), "/proc/1234");
    assert_eq!(proc_dir_of(-5), "/proc/-5");
    assert_eq!(proc_dir_of(i32::MIN), format!("/proc/{}", i32::MIN));
}

#[test]
fn app_state_starts_idle() {
    let s = AppState::new();
    assert!(!s.paused.load(Ordering::SeqCst));
    assert!(!s.shutting_down.load(Ordering::SeqCst));
}

#[test]
fn failed_finalize_leaves_daemon_paths() {
    let mut c = cfg("", "", "/l");
    assert_eq!(c.finalize_with(Some("/pics"), None), Err(ConfigError::NoProjectDirs));
    assert_eq!(c.output.dir, "/pics/blink");
    assert_eq!(c.daemon.pid_file, "");
    assert_eq!(c.daemon.log_file, "/l");
    let mut c = cfg("", "", "");
    assert_eq!(c.finalize_with(None, None), Err(ConfigError::NoProjectDirs));
    assert_eq!((c.output.dir.as_str(), c.daemon.pid_file.as_str()), ("", ""));
}

#[test]
fn finalize_puts_daemon_files_in_the_blink_cache() {
    let mut c = cfg("/o", "", "");
    if c.finalize().is_ok() {
        assert!(c.daemon.pid_file.ends_with("/blink/blink.pid"));
        assert!(c.daemon.log_file.ends_with("/blink/blink.log"));
    }
}

#[test]
fn config_file_in_the_config_dir() {
    assert_eq!(config_path_in(Some("/home/u/.config/blink")), Ok("/home/u/.config/blink/config.toml".to_string()));
    assert_eq!(config_path_in(None), Err(ConfigError::NoProjectDirs));
}
