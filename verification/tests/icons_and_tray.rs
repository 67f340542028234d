use blink::icon::{in_byte_order, rgba_to_argb_inplace, ByteOrder};
use blink::state::AppState;
use blink::tray::{render_active_icon, render_paused_icon, request_quit, toggle_pause, tooltip_title, TrayWatch, SIZE};
use std::sync::atomic::Ordering;

fn reference(pixel: impl Fn(f32, f32) -> Option<[u8; 4]>) -> Vec<u8> {
    let size = 32i32;
    let cx = size as f32 / 2.0;
    let cy = size as f32 / 2.0;
    let mut data = vec![0u8; (size * size * 4) as usize];
    for y in 0..size {
        for x in 0..size {
            let dx = x as f32 + 0.5 - cx;
            let dy = y as f32 + 0.5 - cy;
            let argb = pixel(dx, dy).unwrap_or([0, 0, 0, 0]);
            let i = ((y * size + x) * 4) as usize;
            data[i..i + 4].copy_from_slice(&argb);
        }
    }
    data
}

#[test]
fn active_icon_matches_float_drawing() {
    const H: f32 = 8.0;
    const R_SQ: f32 = 13.0 * 13.0;
    let want = reference(|dx, dy| {
        if dx * dx + dy * dy <= 9.0 {
            return Some([255, 255, 255, 255]);
        }
        let d1 = dx * dx + (dy - H) * (dy - H);
        let d2 = dx * dx + (dy + H) * (dy + H);
        if d1 <= R_SQ && d2 <= R_SQ {
            Some([255, 60, 130, 220])
        } else {
            None
        }
    });
    assert_eq!(render_active_icon(), want);
}

#[test]
fn paused_icon_matches_float_drawing() {
    const HALF_W: f32 = 8.0;
    const HALF_H: f32 = 2.0;
    let want = reference(|dx, dy| {
        let in_pill = if dx.abs() <= HALF_W {
            dy.abs() <= HALF_H
        } else {
            let ex = dx.abs() - HALF_W;
            ex * ex + dy * dy <= HALF_H * HALF_H
        };
        if in_pill {
            Some([255, 140, 140, 140])
        } else {
            None
        }
    });
    assert_eq!(render_paused_icon(), want);
}

#[test]
fn icons_have_size_of_tray() {
    assert_eq!(render_active_icon().len(), (SIZE * SIZE * 4) as usize);
    let icon = render_active_icon();
    let centre = ((16 * 32 + 16) * 4) as usize;
    assert_eq!(&icon[centre..centre + 4], &[255, 255, 255, 255]);
    assert_eq!(&icon[0..4], &[0, 0, 0, 0]);
}

#[test]
fn argb_reorders_whole_pixels() {
    assert_eq!(rgba_to_argb_inplace(vec![1, 2, 3, 4, 5, 6, 7, 8]), vec![4, 1, 2, 3, 8, 5, 6, 7]);
    assert_eq!(rgba_to_argb_inplace(vec![1, 2, 3, 4, 9, 9]), vec![4, 1, 2, 3, 9, 9]);
    assert_eq!(rgba_to_argb_inplace(vec![]), Vec::<u8>::new());
}

#[test]
fn byte_orders() {
    assert_eq!(in_byte_order(vec![1, 2, 3, 4], ByteOrder::Rgba), vec![1, 2, 3, 4]);
    assert_eq!(in_byte_order(vec![1, 2, 3, 4], ByteOrder::Argb), vec![4, 1, 2, 3]);
}

#[test]
fn tooltips() {
    assert_eq!(tooltip_title(true), "Blink — paused");
    assert_eq!(tooltip_title(false), "Blink — capturing");
}

#[test]
fn pause_toggles_and_quit_requests_shutdown() {
    let s = AppState::new();
    assert!(toggle_pause(&s));
    assert!(s.paused.load(Ordering::SeqCst));
    assert!(!toggle_pause(&s));
    assert!(!s.paused.load(Ordering::SeqCst));
    request_quit(&s);
    assert!(s.shutting_down.load(Ordering::SeqCst));
}

#[test]
fn tray_refreshes_on_change_only() {
    let mut w = TrayWatch { last_paused: false };
    assert!(!w.observe(false));
    assert!(w.observe(true));
    assert!(!w.observe(true));
    assert!(w.observe(false));
    assert!(!w.last_paused);
}
