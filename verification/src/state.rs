//! State shared by the daemon's threads, and the PID file's contents.

use std::sync::atomic::AtomicBool;
use std::sync::Arc;
use vstd::prelude::*;
use crate::text::{
    all_digits, chars_of, dec, digits_value, is_digit, is_ws, lemma_dec_digits, lemma_digits_value_prefix, lemma_trim_dec,
    push_char, push_dec, push_str, skip_ws, skip_ws_back, trim, trim_end, trim_start,
};

verus! {

/// Flags the capture loop, the tray and the signal handler share.
#[derive(Debug)]
pub struct AppState {
    pub paused: AtomicBool,
    pub shutting_down: AtomicBool,
}

impl AppState {
    /// Fresh shared state, neither paused nor shutting down.
    pub fn new() -> Arc<Self> {
        Arc::new(AppState { paused: AtomicBool::new(false), shutting_down: AtomicBool::new(false) })
    }
}

/// What `str::parse::<i32>` gives: an optional sign, then at least one ASCII
/// digit, denoting a value within `i32`.
pub open spec fn parse_i32(s: Seq<char>) -> Option<i32> {
    let neg = s.len() > 1 && s[0] == '-';
    let d = if s.len() > 1 && (s[0] == '+' || s[0] == '-') {
        s.drop_first()
    } else {
        s
    };
    let v: int = if neg {
        -digits_value(d)
    } else {
        digits_value(d) as int
    };
    if d.len() > 0 && all_digits(d) && i32::MIN <= v <= i32::MAX {
        Some(v as i32)
    } else {
        None
    }
}

/// The PID a PID file holds: its text, trimmed, parsed as an `i32`.
pub open spec fn stored_pid(contents: Seq<char>) -> Option<i32> {
    parse_i32(trim(contents))
}

/// The PID stored in a PID file's text, if it holds one.
pub fn parse_pid(contents: &str) -> (r: Option<i32>)
    ensures
        r == stored_pid(contents@),
{
    let s = chars_of(contents);
    let lo = skip_ws(&s, 0, s.len());
    let hi = skip_ws_back(&s, lo, s.len());
    assert(s@.subrange(0, s.len() as int) =~= contents@);
    let ghost t = s@.subrange(lo as int, hi as int);
    assert(t == trim(contents@));
    let neg = hi - lo > 1 && s[lo] == '-';
    let start = if hi - lo > 1 && (s[lo] == '+' || s[lo] == '-') {
        lo + 1
    } else {
        lo
    };
    let ghost d = s@.subrange(start as int, hi as int);
    assert(d == (if t.len() > 1 && (t[0] == '+' || t[0] == '-') {
        t.drop_first()
    } else {
        t
    }));
    if start == hi {
        return None;
    }
    // magnitude bound: i32::MAX, or one more for a negative value
    let bound: u64 = if neg {
        2147483648
    } else {
        2147483647
    };
    let mut v: u64 = 0;
    let mut i = start;
    while i < hi
        invariant
            lo <= start <= i <= hi <= s.len(),
            start < hi,
            t == trim(contents@),
            t == s@.subrange(lo as int, hi as int),
            d == s@.subrange(start as int, hi as int),
            d == (if t.len() > 1 && (t[0] == '+' || t[0] == '-') {
                t.drop_first()
            } else {
                t
            }),
            neg == (t.len() > 1 && t[0] == '-'),
            bound == (if neg {
                2147483648u64
            } else {
                2147483647u64
            }),
            all_digits(s@.subrange(start as int, i as int)),
            v as nat == digits_value(s@.subrange(start as int, i as int)),
            v <= bound,
        decreases hi - i,
    {
        let c = s[i];
        assert(s@.subrange(start as int, i + 1).drop_last() =~= s@.subrange(
            start as int,
            i as int,
        ));
        if !('0' <= c && c <= '9') {
            assert(d[i - start] == c);
            assert(!is_digit(d[i - start]));
            assert(!all_digits(d));
            return None;
        }
        let dv = (c as u32 - 48) as u64;
        v = v * 10 + dv;
        if v > bound {
            proof {
                assert(d.take(i + 1 - start) =~= s@.subrange(start as int, i + 1));
                lemma_digits_value_prefix(d, (i + 1 - start) as int);
            }
            return None;
        }
        i = i + 1;
    }
    assert(s@.subrange(start as int, i as int) =~= d);
    if neg {
        Some((0 - (v as i64)) as i32)
    } else {
        Some(v as i32)
    }
}

/// `/proc/<pid>`, where a live process with that PID shows up.
pub open spec fn proc_path(pid: i32) -> Seq<char> {
    seq!['/', 'p', 'r', 'o', 'c', '/'] + if pid < 0 {
        seq!['-'] + dec((-pid) as nat)
    } else {
        dec(pid as nat)
    }
}

/// The `/proc` entry of process `pid`.
pub fn proc_dir_of(pid: i32) -> (r: String)
    ensures
        r@ == proc_path(pid),
{
    proof {
        reveal_strlit("/proc/");
    }
    let mut out = String::new();
    push_str(&mut out, "/proc/");
    if pid < 0 {
        push_char(&mut out, '-');
        let m: i64 = 0 - (pid as i64);
        push_dec(&mut out, m as u64);
    } else {
        push_dec(&mut out, pid as u64);
    }
    assert(out@ =~= proc_path(pid));
    out
}


/// The text of a PID file: the PID in decimal and a line break.
pub open spec fn pid_line(pid: u32) -> Seq<char> {
    dec(pid as nat).push('\n')
}

/// What the daemon writes into its PID file.
pub fn pid_file_text(pid: u32) -> (r: String)
    ensures
        r@ == pid_line(pid),
{
    let mut out = String::new();
    push_dec(&mut out, pid as u64);
    push_char(&mut out, '\n');
    assert(out@ =~= pid_line(pid));
    out
}

/// Reading a PID file gives back the PID written into it, for every PID
/// that fits the `i32` it is read as.
pub proof fn lemma_pid_round_trip(pid: u32)
    requires
        pid <= i32::MAX,
    ensures
        stored_pid(pid_line(pid)) == Some(pid as i32),
{
    let d = dec(pid as nat);
    let l = pid_line(pid);
    lemma_dec_digits(pid as nat);
    lemma_trim_dec(pid as nat);
    assert(l[0] == d[0]);
    assert(!is_ws(d[0]));
    assert(trim_start(l) == l);
    assert(l.drop_last() =~= d);
    assert(is_ws(l.last()));
    assert(trim_end(l) == trim_end(d));
    assert(trim(l) == d);
}

} // verus!
