//! Decisions of the video encoder thread: which libav codec a configured
//! name stands for, when a segment file ends, and how segments are named.

use vstd::prelude::*;
use crate::capture::year_text;
use crate::clock::local_now;
use crate::text::{dec, dec_pad, push_char, push_dec, push_dec_pad, push_str, str_eq};
use crate::capture::push_year;

verus! {

/// Why the encoder cannot start.
#[derive(Debug)]
pub enum EncoderError {
    /// A codec name that the configuration does not know.
    UnsupportedCodec(String),
}

pub open spec fn h264() -> Seq<char> {
    seq!['h', '2', '6', '4']
}

pub open spec fn h265() -> Seq<char> {
    seq!['h', '2', '6', '5']
}

pub open spec fn hevc() -> Seq<char> {
    seq!['h', 'e', 'v', 'c']
}

pub open spec fn av1() -> Seq<char> {
    seq!['a', 'v', '1']
}

/// The libav encoder of a configured codec name.
pub open spec fn codec_library(codec: Seq<char>) -> Option<Seq<char>> {
    if codec == h264() {
        Some(seq!['l', 'i', 'b', 'x', '2', '6', '4'])
    } else if codec == h265() || codec == hevc() {
        Some(seq!['l', 'i', 'b', 'x', '2', '6', '5'])
    } else if codec == av1() {
        Some(seq!['l', 'i', 'b', 's', 'v', 't', 'a', 'v', '1'])
    } else {
        None
    }
}

/// The libav encoder for `codec` (`h264`, `h265`/`hevc`, `av1`).
pub fn codec_name_for(codec: &str) -> (r: Result<&'static str, EncoderError>)
    ensures
        match r {
            Ok(name) => codec_library(codec@) == Some(name@),
            Err(EncoderError::UnsupportedCodec(c)) => codec_library(codec@) is None && c@
                == codec@,
        },
{
    proof {
        reveal_strlit("h264");
        reveal_strlit("h265");
        reveal_strlit("hevc");
        reveal_strlit("av1");
        reveal_strlit("libx264");
        reveal_strlit("libx265");
        reveal_strlit("libsvtav1");
    }
    assert("h264"@ =~= h264());
    assert("h265"@ =~= h265());
    assert("hevc"@ =~= hevc());
    assert("av1"@ =~= av1());
    assert("libx264"@ =~= seq!['l', 'i', 'b', 'x', '2', '6', '4']);
    assert("libx265"@ =~= seq!['l', 'i', 'b', 'x', '2', '6', '5']);
    assert("libsvtav1"@ =~= seq!['l', 'i', 'b', 's', 'v', 't', 'a', 'v', '1']);
    if str_eq(codec, "h264") {
        Ok("libx264")
    } else if str_eq(codec, "h265") || str_eq(codec, "hevc") {
        Ok("libx265")
    } else if str_eq(codec, "av1") {
        Ok("libsvtav1")
    } else {
        let mut c = String::new();
        push_str(&mut c, codec);
        Err(EncoderError::UnsupportedCodec(c))
    }
}

/// Longest a segment stays open, in seconds: the configured minutes, at
/// least one minute (the product saturating).
pub fn segment_cap_secs(segment_minutes: u64) -> (r: u64)
    ensures
        r == if segment_minutes * 60 > u64::MAX {
            u64::MAX as int
        } else if segment_minutes * 60 < 60 {
            60
        } else {
            segment_minutes * 60
        },
{
    let m = match segment_minutes.checked_mul(60) {
        Some(m) => m,
        None => u64::MAX,
    };
    if m < 60 {
        60
    } else {
        m
    }
}

/// Frames per second of the encoder: the configured rate, at least one,
/// taken as an `i32` the way `as` casts it (a rate above `i32::MAX` wraps).
pub fn encoder_fps(fps: u32) -> (r: i32)
    ensures
        r == (if fps >= 1 {
            fps
        } else {
            1u32
        }) as i32,
{
    let f: u32 = if fps >= 1 {
        fps
    } else {
        1
    };
    f as i32
}

/// Whether a frame of `w` by `h` needs a new segment: there is none open,
/// the open one has other dimensions, or it has been open for `cap_s`.
pub open spec fn rotation_needed(
    open: Option<(u32, u32)>,
    w: u32,
    h: u32,
    elapsed_s: u64,
    cap_s: u64,
) -> bool {
    match open {
        None => true,
        Some((sw, sh)) => sw != w || sh != h || elapsed_s >= cap_s,
    }
}

/// Whether the next frame starts a new segment (`open` is the open
/// segment's size, `elapsed_s` the whole seconds it has been open).
pub fn needs_rotation(open: Option<(u32, u32)>, w: u32, h: u32, elapsed_s: u64, cap_s: u64) -> (r:
    bool)
    ensures
        r == rotation_needed(open, w, h, elapsed_s, cap_s),
{
    match open {
        None => true,
        Some((sw, sh)) => sw != w || sh != h || elapsed_s >= cap_s,
    }
}

/// `<prefix>_<YYYYmmdd-HHMMSS>_<w>x<h>.mkv`, the time being local.
pub open spec fn segment_name(
    prefix: Seq<char>,
    t: (i32, u32, u32, u32, u32, u32),
    w: u32,
    h: u32,
) -> Seq<char> {
    prefix + seq!['_'] + year_text(t.0 as int) + dec_pad(t.1 as nat, 2) + dec_pad(t.2 as nat, 2)
        + seq!['-'] + dec_pad(t.3 as nat, 2) + dec_pad(t.4 as nat, 2) + dec_pad(t.5 as nat, 2)
        + seq!['_'] + dec(w as nat) + seq!['x'] + dec(h as nat) + seq!['.', 'm', 'k', 'v']
}

/// The file name of a segment opened at local time `t`.
pub fn segment_filename_at(prefix: &str, t: (i32, u32, u32, u32, u32, u32), w: u32, h: u32) -> (r:
    String)
    ensures
        r@ == segment_name(prefix@, t, w, h),
{
    let mut out = String::new();
    push_str(&mut out, prefix);
    push_char(&mut out, '_');
    push_year(&mut out, t.0);
    push_dec_pad(&mut out, t.1 as u64, 2);
    push_dec_pad(&mut out, t.2 as u64, 2);
    push_char(&mut out, '-');
    push_dec_pad(&mut out, t.3 as u64, 2);
    push_dec_pad(&mut out, t.4 as u64, 2);
    push_dec_pad(&mut out, t.5 as u64, 2);
    push_char(&mut out, '_');
    push_dec(&mut out, w as u64);
    push_char(&mut out, 'x');
    push_dec(&mut out, h as u64);
    push_char(&mut out, '.');
    push_char(&mut out, 'm');
    push_char(&mut out, 'k');
    push_char(&mut out, 'v');
    assert(out@ =~= segment_name(prefix@, t, w, h));
    out
}

/// The file name of a segment opened now; `None` when the clock gives no time.
pub fn segment_filename(prefix: &str, w: u32, h: u32) -> (r: Option<String>)
    ensures
        r matches Some(n) ==> exists|t: (i32, u32, u32, u32, u32, u32)|
            1 <= t.1 <= 12 && 1 <= t.2 <= 31 && t.3 < 24 && t.4 < 60 && t.5 < 60 && n@
                == #[trigger] segment_name(prefix@, t, w, h),
{
    match local_now() {
        Some(t) => {
            let r = segment_filename_at(prefix, t, w, h);
            assert(r@ == segment_name(prefix@, t, w, h));
            Some(r)
        },
        None => None,
    }
}

} // verus!
