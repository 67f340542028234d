//! The viewer's text and selection logic.

pub mod app;
pub mod calendar;
pub mod index;
pub mod keys;

use vstd::prelude::*;
use crate::text::{dec, dec_pad, push_char, push_dec};

verus! {

/// What `fmt_duration(s)` renders: `"H h MM m"` from one hour on, `"M m"` below.
pub open spec fn duration_text(s: nat) -> Seq<char> {
    let h = s / 3600;
    let m = (s % 3600) / 60;
    if h > 0 {
        dec(h) + seq![' ', 'h', ' '] + dec_pad(m, 2) + seq![' ', 'm']
    } else {
        dec(m) + seq![' ', 'm']
    }
}

/// Render a duration in seconds as `H h MM m` (or `M m` when under one hour).
pub fn fmt_duration(s: u64) -> (r: String)
    ensures
        r@ == duration_text(s as nat),
{
    let h = s / 3600;
    let m = (s % 3600) / 60;
    let mut out = String::new();
    if h > 0 {
        push_dec(&mut out, h);
        push_char(&mut out, ' ');
        push_char(&mut out, 'h');
        push_char(&mut out, ' ');
        if m < 10 {
            push_char(&mut out, '0');
        }
        push_dec(&mut out, m);
        push_char(&mut out, ' ');
        push_char(&mut out, 'm');
        proof {
            reveal_with_fuel(dec, 2);
            assert(out@ =~= duration_text(s as nat));
        }
    } else {
        push_dec(&mut out, m);
        push_char(&mut out, ' ');
        push_char(&mut out, 'm');
        assert(out@ =~= duration_text(s as nat));
    }
    out
}

} // verus!
