//! The tray icon's pictures and the decisions behind its menu.

use std::sync::atomic::Ordering;
use vstd::prelude::*;
use crate::state::AppState;

verus! {

/// Side of the tray icon in pixels.
pub const SIZE: u32 = 32;

/// Twice the offset of pixel coordinate `i` (its centre) from the icon's
/// centre: pixel centres sit at half-integers, so this is an odd integer.
pub open spec fn twice_offset(i: int) -> int {
    2 * i + 1 - 32
}

/// Open eye, at doubled offsets `(dx, dy)`: a white pupil of radius 3, inside
/// a blue almond (the meet of two discs of radius 13 centred 8 above and
/// below), ARGB bytes; transparent elsewhere.
pub open spec fn active_pixel(dx: int, dy: int) -> Seq<u8> {
    if dx * dx + dy * dy <= 36 {
        seq![255u8, 255u8, 255u8, 255u8]
    } else if dx * dx + (dy - 16) * (dy - 16) <= 676 && dx * dx + (dy + 16) * (dy + 16) <= 676 {
        seq![255u8, 60u8, 130u8, 220u8]
    } else {
        seq![0u8, 0u8, 0u8, 0u8]
    }
}

/// Closed eye, at doubled offsets: a grey horizontal pill 16 wide and 4 high
/// with round ends, ARGB bytes; transparent elsewhere.
pub open spec fn paused_pixel(dx: int, dy: int) -> Seq<u8> {
    let ax = if dx < 0 {
        -dx
    } else {
        dx
    };
    let ay = if dy < 0 {
        -dy
    } else {
        dy
    };
    let in_pill = if ax <= 16 {
        ay <= 4
    } else {
        (ax - 16) * (ax - 16) + dy * dy <= 16
    };
    if in_pill {
        seq![255u8, 140u8, 140u8, 140u8]
    } else {
        seq![0u8, 0u8, 0u8, 0u8]
    }
}

/// The icon's ARGB buffer, row by row, each pixel from `pixel` at its
/// doubled offset from the centre.
pub open spec fn icon_bytes(active: bool) -> Seq<u8> {
    Seq::new(
        32 * 32 * 4,
        |i: int|
            {
                let p = i / 4;
                let dx = twice_offset(p % 32);
                let dy = twice_offset(p / 32);
                if active {
                    active_pixel(dx, dy)[i % 4]
                } else {
                    paused_pixel(dx, dy)[i % 4]
                }
            },
    )
}

fn pixel(active: bool, dx: i32, dy: i32) -> (r: [u8; 4])
    requires
        -31 <= dx <= 31,
        -31 <= dy <= 31,
    ensures
        r@ == (if active {
            active_pixel(dx as int, dy as int)
        } else {
            paused_pixel(dx as int, dy as int)
        }),
{
    assert(0 <= dx * dx <= 961 && 0 <= dy * dy <= 961) by (nonlinear_arith)
        requires
            -31 <= dx <= 31,
            -31 <= dy <= 31,
    ;
    assert(0 <= (dy - 16) * (dy - 16) <= 2209 && 0 <= (dy + 16) * (dy + 16) <= 2209)
        by (nonlinear_arith)
        requires
            -31 <= dy <= 31,
    ;
    if active {
        if dx * dx + dy * dy <= 36 {
            let r = [255u8, 255u8, 255u8, 255u8];
            assert(r@ =~= active_pixel(dx as int, dy as int));
            r
        } else if dx * dx + (dy - 16) * (dy - 16) <= 676 && dx * dx + (dy + 16) * (dy + 16) <= 676 {
            let r = [255u8, 60u8, 130u8, 220u8];
            assert(r@ =~= active_pixel(dx as int, dy as int));
            r
        } else {
            let r = [0u8, 0u8, 0u8, 0u8];
            assert(r@ =~= active_pixel(dx as int, dy as int));
            r
        }
    } else {
        let ax = if dx < 0 {
            -dx
        } else {
            dx
        };
        let ay = if dy < 0 {
            -dy
        } else {
            dy
        };
        let in_pill = if ax <= 16 {
            ay <= 4
        } else {
            assert(0 <= (ax - 16) * (ax - 16) <= 225) by (nonlinear_arith)
                requires
                    16 < ax <= 31,
            ;
            (ax - 16) * (ax - 16) + dy * dy <= 16
        };
        if in_pill {
            let r = [255u8, 140u8, 140u8, 140u8];
            assert(r@ =~= paused_pixel(dx as int, dy as int));
            r
        } else {
            let r = [0u8, 0u8, 0u8, 0u8];
            assert(r@ =~= paused_pixel(dx as int, dy as int));
            r
        }
    }
}

fn render_icon(active: bool) -> (r: Vec<u8>)
    ensures
        r@ == icon_bytes(active),
{
    let mut data: Vec<u8> = Vec::new();
    let mut y: i32 = 0;
    while y < 32
        invariant
            0 <= y <= 32,
            data@.len() == 128 * y,
            forall|i: int| 0 <= i < data@.len() ==> #[trigger] data@[i] == icon_bytes(active)[i],
        decreases 32 - y,
    {
        let mut x: i32 = 0;
        while x < 32
            invariant
                0 <= y < 32,
                0 <= x <= 32,
                data@.len() == 128 * y + 4 * x,
                forall|i: int| 0 <= i < data@.len() ==> #[trigger] data@[i] == icon_bytes(active)[i],
            decreases 32 - x,
        {
            let px = pixel(active, 2 * x + 1 - 32, 2 * y + 1 - 32);
            let base = data.len();
            proof {
                assert forall|k: int| 0 <= k < 4 implies icon_bytes(active)[base + k] == px@[k] by {
                    let i = base + k;
                    assert(i / 4 == 32 * y + x) by (nonlinear_arith)
                        requires
                            i == 128 * y + 4 * x + k,
                            0 <= k < 4,
                            0 <= x < 32,
                    ;
                    assert(i % 4 == k) by (nonlinear_arith)
                        requires
                            i == 128 * y + 4 * x + k,
                            0 <= k < 4,
                    ;
                    assert((32 * y + x) % 32 == x) by (nonlinear_arith)
                        requires
                            0 <= x < 32,
                            0 <= y,
                    ;
                    assert((32 * y + x) / 32 == y) by (nonlinear_arith)
                        requires
                            0 <= x < 32,
                            0 <= y,
                    ;
                }
            }
            data.push(px[0]);
            data.push(px[1]);
            data.push(px[2]);
            data.push(px[3]);
            x = x + 1;
        }
        y = y + 1;
    }
    assert(data@ =~= icon_bytes(active));
    data
}

/// Active icon: open eye — a blue almond with a white pupil, 32×32 ARGB.
pub fn render_active_icon() -> (r: Vec<u8>)
    ensures
        r@ == icon_bytes(true),
{
    render_icon(true)
}

/// Paused icon: closed eye — a flat grey pill, 32×32 ARGB.
pub fn render_paused_icon() -> (r: Vec<u8>)
    ensures
        r@ == icon_bytes(false),
{
    render_icon(false)
}

/// The tooltip of the tray icon in each state.
pub fn tooltip_title(paused: bool) -> (r: &'static str)
    ensures
        paused ==> r@ == "Blink — paused"@,
        !paused ==> r@ == "Blink — capturing"@,
{
    if paused {
        "Blink — paused"
    } else {
        "Blink — capturing"
    }
}

/// The "Pause / Resume" menu entry: flips the paused flag and returns its
/// new value (the flag's contents are not modelled).
pub fn toggle_pause(state: &AppState) -> bool {
    let now_paused = !state.paused.load(Ordering::SeqCst);
    state.paused.store(now_paused, Ordering::SeqCst);
    now_paused
}

/// The "Quit" menu entry: asks every thread to shut down.
pub fn request_quit(state: &AppState) {
    state.shutting_down.store(true, Ordering::SeqCst);
}

/// The tray loop's memory of the paused flag it last showed.
pub struct TrayWatch {
    pub last_paused: bool,
}

impl TrayWatch {
    /// A tick of the tray loop that sees the flag at `cur`: whether the tray
    /// must be redrawn (the flag changed), remembering `cur`.
    pub fn observe(&mut self, cur: bool) -> (refresh: bool)
        ensures
            refresh == (cur != old(self).last_paused),
            final(self).last_paused == cur,
    {
        let refresh = cur != self.last_paused;
        self.last_paused = cur;
        refresh
    }
}

} // verus!
