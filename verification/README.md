# blink

A small Linux daemon that takes a screenshot of all (or the primary) monitors
every N seconds and archives it as a PNG with a TOML metadata sidecar, with a
tray icon to pause, resume and quit.

The decisions and text formats of the daemon are a library verified with
Verus; the program around it does the I/O.

## Layout

- `src/` — the verified library (`blink`):
  - `capture.rs`: compositing the monitors, choosing them, the "skip when
    unchanged" state of the capture loop, PNG encoding, archive file names
    (`<out>/YYYY/MM/YYYY_MM_DD_HH_MM_SS.png`, local time);
  - `sidecar.rs`: the sidecar text, TOML string escaping, and extending the
    `interval_seconds` of an existing sidecar;
  - `config.rs`: the configuration, its default paths and `~/` expansion;
  - `state.rs`: shared flags and the PID file's text;
  - `tray.rs`, `icon.rs`: the tray icons' pixels and byte orders, the menu's
    decisions;
  - `staging.rs`, `encoder.rs`: names and decisions of the frame staging and
    the video segments;
  - `viewer/`: calendar arithmetic, the day-by-day index of the archive, and
    the viewer's selection state;
  - `text.rs`, `clock.rs`: character helpers and the local clock.
- `tests/` — tests of the library on concrete values.
- `app/` — the daemon: command line, threads, X11 and screen capture, the
  tray service, file writes. `app/viewer_ui.rs` holds the viewer window
  (eframe); `main.rs` does not mount it, so the daemon's binary carries no
  viewer.

## Run

```
blink              # start the daemon (same as `blink run`)
blink config-path  # print path to config.toml
blink help
```
