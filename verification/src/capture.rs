//! The capture loop's decisions and the text it derives from what it reads:
//! the active window's class, the archive's file names.

use vstd::prelude::*;
use crate::text::{
    dec_pad, digits_value, from_utf8_lossy, is_digit, lemma_dec_pad_value, push_char, push_dec_pad, push_str, str_eq,
    utf8_lossy,
};
use crate::config::{join, join_path};
use crate::config::CaptureConfig;
use crate::sidecar::{bump_overflows, bumped, lemma_bump_sidecar, no_newline, sidecar_body, BumpError};
use image::ImageEncoder;
use std::hash::{Hash, Hasher};

verus! {

/// The non-empty NUL-separated fields of `s`, with `cur` the field begun so far.
pub open spec fn fields_from(s: Seq<u8>, cur: Seq<u8>) -> Seq<Seq<u8>>
    decreases s.len(),
{
    if s.len() == 0 {
        if cur.len() == 0 {
            seq![]
        } else {
            seq![cur]
        }
    } else if s[0] == 0 {
        (if cur.len() == 0 {
            seq![]
        } else {
            seq![cur]
        }) + fields_from(s.drop_first(), seq![])
    } else {
        fields_from(s.drop_first(), cur.push(s[0]))
    }
}

/// `bytes.split(|b| b == 0).filter(|s| !s.is_empty())`.
pub open spec fn nul_fields(s: Seq<u8>) -> Seq<Seq<u8>> {
    fields_from(s, seq![])
}

/// `WM_CLASS` holds `instance\0class\0`: the class is the second non-empty field.
pub open spec fn wm_class(bytes: Seq<u8>) -> Option<Seq<char>> {
    let f = nul_fields(bytes);
    if f.len() >= 2 {
        Some(utf8_lossy(f[1]))
    } else {
        None
    }
}

/// The non-empty NUL-separated fields of `s`.
pub fn split_nul_fields(s: &[u8]) -> (r: Vec<Vec<u8>>)
    ensures
        r@.map_values(|f: Vec<u8>| f@) == nul_fields(s@),
{
    let mut out: Vec<Vec<u8>> = Vec::new();
    let mut cur: Vec<u8> = Vec::new();
    let mut i: usize = 0;
    assert(s@.skip(0) =~= s@);
    assert(out@.map_values(|f: Vec<u8>| f@) =~= Seq::<Seq<u8>>::empty());
    while i < s.len()
        invariant
            i <= s.len(),
            nul_fields(s@) == out@.map_values(|f: Vec<u8>| f@) + fields_from(
                s@.skip(i as int),
                cur@,
            ),
        decreases s.len() - i,
    {
        let ghost rest = s@.skip(i as int);
        let ghost before = out@.map_values(|f: Vec<u8>| f@);
        let ghost c0 = cur@;
        assert(rest.drop_first() =~= s@.skip(i + 1));
        if s[i] == 0 {
            if cur.len() > 0 {
                out.push(cur);
                assert(out@.map_values(|f: Vec<u8>| f@) =~= before.push(c0));
            } else {
                assert(out@.map_values(|f: Vec<u8>| f@) =~= before);
            }
            cur = Vec::new();
        } else {
            cur.push(s[i]);
        }
        assert(nul_fields(s@) =~= out@.map_values(|f: Vec<u8>| f@) + fields_from(
            s@.skip(i + 1),
            cur@,
        ));
        i = i + 1;
    }
    assert(s@.skip(i as int) =~= Seq::<u8>::empty());
    if cur.len() > 0 {
        let ghost before = out@.map_values(|f: Vec<u8>| f@);
        let ghost c0 = cur@;
        out.push(cur);
        assert(out@.map_values(|f: Vec<u8>| f@) =~= before.push(c0));
    }
    assert(nul_fields(s@) =~= out@.map_values(|f: Vec<u8>| f@));
    out
}

/// The window class out of a raw `WM_CLASS` property (`instance\0class\0`).
pub fn parse_wm_class(bytes: &[u8]) -> (r: Option<String>)
    ensures
        match r {
            Some(c) => wm_class(bytes@) == Some(c@),
            None => wm_class(bytes@) is None,
        },
        r matches Some(c) ==> (vstd::utf8::valid_utf8(nul_fields(bytes@)[1]) ==> c@
            == vstd::utf8::decode_utf8(nul_fields(bytes@)[1])),
{
    let fields = split_nul_fields(bytes);
    if fields.len() < 2 {
        return None;
    }
    let class = from_utf8_lossy(fields[1].as_slice());
    assert(fields@[1]@ == nul_fields(bytes@)[1]);
    Some(class)
}

/// One monitor's capture: RGBA8 pixels, row by row.
pub struct MonitorImage {
    pub width: u32,
    pub height: u32,
    pub rgba: Vec<u8>,
}

/// The composite of the captured monitors: RGB8 pixels, row by row.
pub struct Canvas {
    pub width: u32,
    pub height: u32,
    pub rgb: Vec<u8>,
}

impl Canvas {
    pub open spec fn wf(&self) -> bool {
        self.rgb.len() == self.width * self.height * 3
    }
}

/// An RGBA8 image converted to RGB8: each pixel keeps its red, green and
/// blue bytes and drops its alpha.
pub open spec fn rgb_of_rgba(w: u32, h: u32, rgba: Seq<u8>) -> Seq<u8> {
    Seq::new((w * h * 3) as nat, |i: int| rgba[(i / 3) * 4 + i % 3])
}

#[verifier::external_body]
fn rgba_to_rgb(w: u32, h: u32, rgba: Vec<u8>) -> (r: Vec<u8>)
    requires
        rgba.len() == w * h * 4,
    ensures
        r@ == rgb_of_rgba(w, h, rgba@),
        r.len() == w * h * 3,
{
    let img = image::RgbaImage::from_raw(w, h, rgba).unwrap();
    image::DynamicImage::ImageRgba8(img).to_rgb8().into_raw()
}

/// An RGB8 canvas (`cw` pixels a row) with an RGB8 image laid over it at
/// column `x`, row 0: each canvas pixel that the image covers takes the
/// image's pixel there, the others stay.
pub open spec fn overlaid(
    canvas: Seq<u8>,
    cw: u32,
    ch: u32,
    top: Seq<u8>,
    tw: u32,
    th: u32,
    x: i64,
) -> Seq<u8> {
    Seq::new(
        canvas.len(),
        |i: int|
            {
                let p = i / 3;
                let px = p % (cw as int);
                let py = p / (cw as int);
                if x <= px < x + tw && py < th {
                    top[(py * tw + (px - x)) * 3 + i % 3]
                } else {
                    canvas[i]
                }
            },
    )
}

/// `image::imageops::overlay(&mut canvas, &top, x, 0)` on RGB8 buffers.
/// Stated: the part of the image inside the canvas is copied over it (for
/// `Rgb` pixels `blend` replaces the pixel; the bounds are those of
/// `overlay_bounds_ext`), and the canvas keeps its dimensions.
#[verifier::external_body]
fn overlay_at(canvas: Vec<u8>, cw: u32, ch: u32, top: &Vec<u8>, tw: u32, th: u32, x: i64) -> (r:
    Vec<u8>)
    requires
        canvas.len() == cw * ch * 3,
        top.len() == tw * th * 3,
    ensures
        r@ == overlaid(canvas@, cw, ch, top@, tw, th, x),
        r.len() == canvas.len(),
{
    let mut bottom = image::RgbImage::from_raw(cw, ch, canvas).unwrap();
    let over = image::ImageBuffer::<image::Rgb<u8>, &[u8]>::from_raw(tw, th, top.as_slice()).unwrap();
    image::imageops::overlay(&mut bottom, &over, x, 0);
    bottom.into_raw()
}

pub open spec fn blank(w: u32, h: u32) -> Seq<u8> {
    Seq::new((w * h * 3) as nat, |i: int| 0u8)
}

/// `RgbImage::new(w, h).into_raw()`: a black image, every subpixel zero
/// (as `ImageBuffer::new` documents).
#[verifier::external_body]
fn blank_canvas(w: u32, h: u32) -> (r: Vec<u8>)
    requires
        w * h * 3 <= usize::MAX,
    ensures
        r@ == blank(w, h),
{
    image::RgbImage::new(w, h).into_raw()
}

/// Sum of the widths of the first `n` images.
pub open spec fn width_sum(imgs: Seq<MonitorImage>, n: int) -> int
    decreases n,
{
    if n <= 0 {
        0
    } else {
        width_sum(imgs, n - 1) + imgs[n - 1].width
    }
}

/// Greatest height of the first `n` images (0 for none).
pub open spec fn height_max(imgs: Seq<MonitorImage>, n: int) -> int
    decreases n,
{
    if n <= 0 {
        0
    } else {
        let m = height_max(imgs, n - 1);
        if imgs[n - 1].height > m {
            imgs[n - 1].height as int
        } else {
            m
        }
    }
}

/// The first `n` images, converted to RGB, laid side by side from the left
/// onto a black `w` by `h` canvas.
pub open spec fn painted(imgs: Seq<MonitorImage>, n: int, w: u32, h: u32) -> Seq<u8>
    decreases n,
{
    if n <= 0 {
        blank(w, h)
    } else {
        let img = imgs[n - 1];
        overlaid(
            painted(imgs, n - 1, w, h),
            w,
            h,
            rgb_of_rgba(img.width, img.height, img.rgba@),
            img.width,
            img.height,
            width_sum(imgs, n - 1) as i64,
        )
    }
}

/// Whether the images can be composited without overflow.
pub open spec fn composite_fits(imgs: Seq<MonitorImage>) -> bool {
    &&& forall|i: int| 0 <= i < imgs.len() ==> #[trigger] imgs[i].rgba.len() == imgs[i].width
        * imgs[i].height * 4
    &&& width_sum(imgs, imgs.len() as int) <= u32::MAX
    &&& width_sum(imgs, imgs.len() as int) * height_max(imgs, imgs.len() as int) * 3
        <= usize::MAX
}

proof fn lemma_width_sum_mono(imgs: Seq<MonitorImage>, i: int, j: int)
    requires
        0 <= i <= j <= imgs.len(),
    ensures
        0 <= width_sum(imgs, i) <= width_sum(imgs, j),
    decreases j,
{
    if i < j {
        lemma_width_sum_mono(imgs, i, j - 1);
    } else if i > 0 {
        lemma_width_sum_mono(imgs, 0, i - 1);
    }
}

proof fn lemma_height_max_mono(imgs: Seq<MonitorImage>, i: int, j: int)
    requires
        0 <= i <= j <= imgs.len(),
    ensures
        0 <= height_max(imgs, i) <= height_max(imgs, j),
        forall|k: int| 0 <= k < j ==> #[trigger] imgs[k].height <= height_max(imgs, j),
    decreases j,
{
    if j > 0 {
        if i < j {
            lemma_height_max_mono(imgs, i, j - 1);
        } else {
            lemma_height_max_mono(imgs, 0, j - 1);
        }
    }
}

/// Whether byte `i` of a canvas `w` pixels wide lies in the place of monitor
/// `j`: columns from the widths of the monitors before it, rows from 0.
pub open spec fn covers(imgs: Seq<MonitorImage>, j: int, w: u32, i: int) -> bool {
    let p = i / 3;
    let px = p % (w as int);
    let py = p / (w as int);
    &&& width_sum(imgs, j) <= px < width_sum(imgs, j) + imgs[j].width
    &&& py < imgs[j].height
}

/// The byte of monitor `j`'s capture that byte `i` of a canvas `w` pixels
/// wide shows: the same channel of the pixel at the same row and at the
/// column counted from the monitor's left edge.
pub open spec fn source_byte(imgs: Seq<MonitorImage>, j: int, w: u32, i: int) -> u8 {
    let p = i / 3;
    let px = p % (w as int);
    let py = p / (w as int);
    imgs[j].rgba@[(py * imgs[j].width + (px - width_sum(imgs, j))) * 4 + i % 3]
}

/// The canvas bytes `c` show the first `n` monitors side by side: each byte
/// in a monitor's place is that monitor's byte there, every other byte 0.
pub open spec fn laid_out(imgs: Seq<MonitorImage>, n: int, w: u32, c: Seq<u8>) -> bool {
    &&& forall|j: int, i: int|
        0 <= j < n && 0 <= i < c.len() && #[trigger] covers(imgs, j, w, i) ==> c[i]
            == source_byte(imgs, j, w, i)
    &&& forall|i: int|
        0 <= i < c.len() && (forall|j: int| 0 <= j < n ==> !#[trigger] covers(imgs, j, w, i))
            ==> c[i] == 0
}

proof fn lemma_painted_layout(imgs: Seq<MonitorImage>, k: int, w: u32, h: u32)
    requires
        0 <= k <= imgs.len(),
        composite_fits(imgs),
    ensures
        painted(imgs, k, w, h).len() == w * h * 3,
        laid_out(imgs, k, w, painted(imgs, k, w, h)),
    decreases k,
{
    if k > 0 {
        lemma_painted_layout(imgs, k - 1, w, h);
        let prev = painted(imgs, k - 1, w, h);
        let cur = painted(imgs, k, w, h);
        let img = imgs[k - 1];
        let off = width_sum(imgs, k - 1);
        assert(img.rgba.len() == img.width * img.height * 4);
        lemma_width_sum_mono(imgs, k - 1, imgs.len() as int);
        assert((off as i64) as int == off);
        let top = rgb_of_rgba(img.width, img.height, img.rgba@);
        assert(cur == overlaid(prev, w, h, top, img.width, img.height, off as i64));
        assert forall|i: int| 0 <= i < cur.len() implies cur[i] == (if covers(imgs, k - 1, w, i) {
            source_byte(imgs, k - 1, w, i)
        } else {
            prev[i]
        }) by {
            if covers(imgs, k - 1, w, i) {
                let p = i / 3;
                let px = p % (w as int);
                let py = p / (w as int);
                let q = py * img.width + (px - off);
                assert(0 <= q < img.width * img.height) by (nonlinear_arith)
                    requires
                        0 <= py < img.height,
                        0 <= px - off < img.width,
                        q == py * img.width + (px - off),
                ;
                assert((q * 3 + i % 3) / 3 == q);
                assert((q * 3 + i % 3) % 3 == i % 3);
                assert(q * 3 + i % 3 < img.width * img.height * 3);
                assert(top[q * 3 + i % 3] == img.rgba@[q * 4 + i % 3]);
                assert(cur[i] == top[q * 3 + i % 3]);
            } else {
                assert(cur[i] == prev[i]);
            }
        }
        assert forall|j: int, i: int|
            0 <= j < k && 0 <= i < cur.len() && #[trigger] covers(imgs, j, w, i) implies cur[i]
                == source_byte(imgs, j, w, i) by {
            if j < k - 1 {
                lemma_width_sum_mono(imgs, j + 1, k - 1);
                assert(!covers(imgs, k - 1, w, i));
            }
        }
        assert forall|i: int|
            0 <= i < cur.len() && (forall|j: int| 0 <= j < k ==> !#[trigger] covers(imgs, j, w, i))
                implies cur[i] == 0 by {
            assert(!covers(imgs, k - 1, w, i));
            assert(forall|j: int| 0 <= j < k - 1 ==> !#[trigger] covers(imgs, j, w, i));
        }
    }
}

/// The monitors' images side by side, left to right, on a canvas as wide as
/// their widths together and as high as the highest; `None` when that canvas
/// would be empty.
pub fn composite(imgs: &Vec<MonitorImage>) -> (r: Option<Canvas>)
    requires
        composite_fits(imgs@),
    ensures
        match r {
            None => width_sum(imgs@, imgs.len() as int) == 0 || height_max(
                imgs@,
                imgs.len() as int,
            ) == 0,
            Some(c) => {
                &&& c.width == width_sum(imgs@, imgs.len() as int)
                &&& c.height == height_max(imgs@, imgs.len() as int)
                &&& c.width > 0 && c.height > 0
                &&& c.rgb@ == painted(imgs@, imgs.len() as int, c.width, c.height)
                &&& laid_out(imgs@, imgs.len() as int, c.width, c.rgb@)
                &&& c.wf()
            },
        },
{
    let n = imgs.len();
    let mut total_w: u32 = 0;
    let mut max_h: u32 = 0;
    let mut i: usize = 0;
    while i < n
        invariant
            i <= n == imgs.len(),
            composite_fits(imgs@),
            total_w == width_sum(imgs@, i as int),
            max_h == height_max(imgs@, i as int),
        decreases n - i,
    {
        proof {
            lemma_width_sum_mono(imgs@, i + 1, n as int);
        }
        total_w = total_w + imgs[i].width;
        if imgs[i].height > max_h {
            max_h = imgs[i].height;
        }
        i = i + 1;
    }
    if total_w == 0 || max_h == 0 {
        return None;
    }
    let mut rgb = blank_canvas(total_w, max_h);
    let mut x_off: i64 = 0;
    let mut j: usize = 0;
    while j < n
        invariant
            j <= n == imgs.len(),
            composite_fits(imgs@),
            total_w == width_sum(imgs@, n as int),
            max_h == height_max(imgs@, n as int),
            total_w * max_h * 3 <= usize::MAX,
            x_off == width_sum(imgs@, j as int),
            rgb@ == painted(imgs@, j as int, total_w, max_h),
            rgb.len() == total_w * max_h * 3,
        decreases n - j,
    {
        proof {
            lemma_width_sum_mono(imgs@, j + 1, n as int);
            lemma_height_max_mono(imgs@, j + 1, n as int);
            assert(imgs@[j as int].rgba.len() == imgs@[j as int].width * imgs@[j as int].height * 4);
        }
        let w = imgs[j].width;
        let h = imgs[j].height;
        let top = rgba_to_rgb(w, h, imgs[j].rgba.clone());
        rgb = overlay_at(rgb, total_w, max_h, &top, w, h, x_off);
        x_off = x_off + w as i64;
        j = j + 1;
    }
    proof {
        lemma_painted_layout(imgs@, n as int, total_w, max_h);
    }
    Some(Canvas { width: total_w, height: max_h, rgb })
}

pub open spec fn primary_mode() -> Seq<char> {
    seq!['p', 'r', 'i', 'm', 'a', 'r', 'y']
}

/// The monitors to capture, by position: with `monitors = "primary"` the
/// first primary one (none if no monitor is primary), otherwise all of them.
pub open spec fn selected_monitors(mode: Seq<char>, primary: Seq<bool>) -> Seq<usize> {
    if mode == primary_mode() {
        match first_true(primary, 0) {
            Some(i) => seq![i as usize],
            None => seq![],
        }
    } else {
        Seq::new(primary.len(), |i: int| i as usize)
    }
}

/// The first position from `from` on that holds `true`.
pub open spec fn first_true(s: Seq<bool>, from: int) -> Option<int>
    decreases s.len() - from,
{
    if from < 0 || from >= s.len() {
        None
    } else if s[from] {
        Some(from)
    } else {
        first_true(s, from + 1)
    }
}

/// Which of the monitors (`primary[i]` tells whether monitor `i` is the
/// primary one) the configured `monitors` mode captures.
pub fn select_monitors(mode: &str, primary: &Vec<bool>) -> (r: Vec<usize>)
    ensures
        r@ == selected_monitors(mode@, primary@),
{
    proof {
        reveal_strlit("primary");
    }
    let is_primary_mode = str_eq(mode, "primary");
    assert("primary"@ =~= primary_mode());
    let mut out: Vec<usize> = Vec::new();
    if is_primary_mode {
        let mut i: usize = 0;
        while i < primary.len()
            invariant
                i <= primary.len(),
                first_true(primary@, 0) == first_true(primary@, i as int),
                out@.len() == 0,
                mode@ == primary_mode(),
            decreases primary.len() - i,
        {
            if primary[i] {
                out.push(i);
                assert(out@ =~= seq![i]);
                return out;
            }
            i = i + 1;
        }
        assert(out@ =~= Seq::<usize>::empty());
        out
    } else {
        let mut i: usize = 0;
        while i < primary.len()
            invariant
                i <= primary.len(),
                mode@ != primary_mode(),
                out@ == Seq::new(i as nat, |k: int| k as usize),
            decreases primary.len() - i,
        {
            out.push(i);
            assert(out@ =~= Seq::new((i + 1) as nat, |k: int| k as usize));
            i = i + 1;
        }
        out
    }
}

/// Seconds between ticks: the configured interval, at least one.
pub fn capture_interval_secs(cfg: &CaptureConfig) -> (r: u64)
    ensures
        r == if cfg.interval_seconds >= 1 {
            cfg.interval_seconds
        } else {
            1
        },
{
    if cfg.interval_seconds >= 1 {
        cfg.interval_seconds
    } else {
        1
    }
}

/// How long the next nap of the wait between ticks lasts, in milliseconds:
/// at most 200, and never past the remaining wait.
pub fn nap_ms(remaining_ms: u64, slept_ms: u64) -> (r: u64)
    requires
        slept_ms < remaining_ms,
    ensures
        r == if remaining_ms - slept_ms < 200 {
            (remaining_ms - slept_ms) as u64
        } else {
            200
        },
        0 < r <= 200,
        slept_ms + r <= remaining_ms,
{
    let left = remaining_ms - slept_ms;
    if left < 200 {
        left
    } else {
        200
    }
}

/// How a tick of the capture loop begins.
#[derive(Clone, Copy, Debug, PartialEq, Eq, Structural)]
pub enum TickStart {
    /// Shutdown was asked for: leave the loop.
    Stop,
    /// Paused: take no screenshot, just wait for the next tick.
    Skip,
    /// Take a screenshot.
    Capture,
}

/// What a tick does given the shutdown and pause flags: shutdown wins over
/// pause, and a running daemon captures.
pub fn tick_start(shutting_down: bool, paused: bool) -> (r: TickStart)
    ensures
        r == (if shutting_down {
            TickStart::Stop
        } else if paused {
            TickStart::Skip
        } else {
            TickStart::Capture
        }),
{
    if shutting_down {
        TickStart::Stop
    } else if paused {
        TickStart::Skip
    } else {
        TickStart::Capture
    }
}

/// What the capture loop remembers between ticks: the hash of the last
/// saved canvas and where its sidecar is.
pub struct CaptureState {
    pub prev_hash: Option<u64>,
    pub prev_sidecar: Option<String>,
}

/// What a tick does with the canvas it grabbed.
pub enum TickAction {
    /// Same screen as the last saved shot: extend that shot's sidecar by
    /// `add_seconds` instead of saving a new one.
    ExtendPrevious { sidecar: String, add_seconds: u64 },
    /// Same screen, but no sidecar to extend.
    Unchanged,
    /// A new screen: save `png`, then report back with `hash`.
    Save { png: Vec<u8>, hash: u64 },
    /// A new screen that the PNG encoder refused.
    EncodeFailed,
}

/// What `image`'s PNG encoder (best compression, adaptive filtering) makes
/// of an RGB8 image; `None` where it reports an error.
pub uninterp spec fn png_rgb8(rgb: Seq<u8>, w: u32, h: u32) -> Option<Seq<u8>>;

/// `PngEncoder::new_with_quality(.., CompressionType::Best,
/// FilterType::Adaptive).write_image(rgb, w, h, Rgb8)`: the PNG file of the
/// image. Stated: the result is the named function of the pixels and size.
#[verifier::external_body]
fn encode_png_rgb8(rgb: &[u8], w: u32, h: u32) -> (r: Option<Vec<u8>>)
    requires
        rgb.len() == w * h * 3,
    ensures
        r matches Some(v) ==> png_rgb8(rgb@, w, h) == Some(v@),
        r is None ==> png_rgb8(rgb@, w, h) is None,
{
    let mut buf: Vec<u8> = Vec::with_capacity(1 << 20);
    let enc = image::codecs::png::PngEncoder::new_with_quality(
        &mut buf,
        image::codecs::png::CompressionType::Best,
        image::codecs::png::FilterType::Adaptive,
    );
    match enc.write_image(rgb, w, h, image::ExtendedColorType::Rgb8) {
        Ok(()) => Some(buf),
        Err(_) => None,
    }
}

/// The canvas as a PNG file (maximum compression, adaptive filtering).
pub fn encode_png(canvas: &Canvas) -> (r: Option<Vec<u8>>)
    requires
        canvas.wf(),
    ensures
        r matches Some(v) ==> png_rgb8(canvas.rgb@, canvas.width, canvas.height) == Some(v@),
        r is None ==> png_rgb8(canvas.rgb@, canvas.width, canvas.height) is None,
{
    encode_png_rgb8(canvas.rgb.as_slice(), canvas.width, canvas.height)
}

/// A hash of the canvas pixels (`DefaultHasher` over the raw bytes). Nothing
/// is stated of its value: std leaves the algorithm open.
#[verifier::external_body]
fn hash_pixels(rgb: &Vec<u8>) -> (r: u64) {
    let mut h = std::collections::hash_map::DefaultHasher::new();
    rgb.hash(&mut h);
    h.finish()
}

/// The canvas's pixel hash, which drives "skip when unchanged".
pub fn hash_canvas(canvas: &Canvas) -> u64 {
    hash_pixels(&canvas.rgb)
}

/// What a tick does given the canvas's hash and its PNG encoding.
pub open spec fn tick_action(
    state: CaptureState,
    hash: u64,
    png: Option<Seq<u8>>,
    interval: u64,
) -> TickActionView {
    if state.prev_hash == Some(hash) {
        match state.prev_sidecar {
            Some(s) => TickActionView::ExtendPrevious { sidecar: s@, add_seconds: interval },
            None => TickActionView::Unchanged,
        }
    } else {
        match png {
            Some(p) => TickActionView::Save { png: p, hash },
            None => TickActionView::EncodeFailed,
        }
    }
}

pub enum TickActionView {
    ExtendPrevious { sidecar: Seq<char>, add_seconds: u64 },
    Unchanged,
    Save { png: Seq<u8>, hash: u64 },
    EncodeFailed,
}

impl View for TickAction {
    type V = TickActionView;

    open spec fn view(&self) -> TickActionView {
        match self {
            TickAction::ExtendPrevious { sidecar, add_seconds } => TickActionView::ExtendPrevious {
                sidecar: sidecar@,
                add_seconds: *add_seconds,
            },
            TickAction::Unchanged => TickActionView::Unchanged,
            TickAction::Save { png, hash } => TickActionView::Save { png: png@, hash: *hash },
            TickAction::EncodeFailed => TickActionView::EncodeFailed,
        }
    }
}

impl CaptureState {
    /// Nothing saved yet: the first tick always saves.
    pub fn new() -> (r: Self)
        ensures
            r.prev_hash is None,
            r.prev_sidecar is None,
    {
        CaptureState { prev_hash: None, prev_sidecar: None }
    }

    /// The decision of a tick, given the hash of its canvas: an unchanged
    /// screen extends the previous sidecar by `interval`; a changed one is
    /// encoded (the encoding is done only then).
    pub fn decide(&self, hash: u64, canvas: &Canvas, interval: u64) -> (r: TickAction)
        requires
            canvas.wf(),
        ensures
            r@ == tick_action(*self, hash, png_rgb8(canvas.rgb@, canvas.width, canvas.height), interval),
    {
        if self.prev_hash == Some(hash) {
            match &self.prev_sidecar {
                Some(s) => TickAction::ExtendPrevious { sidecar: s.clone(), add_seconds: interval },
                None => TickAction::Unchanged,
            }
        } else {
            match encode_png(canvas) {
                Some(png) => TickAction::Save { png, hash },
                None => TickAction::EncodeFailed,
            }
        }
    }

    /// A tick with a grabbed canvas: its hash, and what to do with it.
    pub fn on_canvas(&self, canvas: &Canvas, interval: u64) -> (r: (u64, TickAction))
        requires
            canvas.wf(),
        ensures
            r.1@ == tick_action(*self, r.0, png_rgb8(canvas.rgb@, canvas.width, canvas.height), interval),
    {
        let h = hash_canvas(canvas);
        (h, self.decide(h, canvas, interval))
    }

    /// The shot was written: its canvas hash and sidecar become the ones an
    /// unchanged screen is compared with and extends.
    pub fn saved(&mut self, hash: u64, sidecar: String)
        ensures
            final(self).prev_hash == Some(hash),
            final(self).prev_sidecar == Some(sidecar),
    {
        self.prev_hash = Some(hash);
        self.prev_sidecar = Some(sidecar);
    }
}

/// The "skip when unchanged" rule of the capture loop: once a shot is saved,
/// a tick that sees the same canvas hash extends that shot's sidecar by the
/// interval instead of saving again; a tick that sees another hash never
/// extends anything, and saves the canvas whenever it encodes.
pub proof fn lemma_tick_rule(
    state: CaptureState,
    hash: u64,
    png: Option<Seq<u8>>,
    interval: u64,
)
    ensures
        state.prev_hash == Some(hash) && state.prev_sidecar is Some ==> (tick_action(
            state,
            hash,
            png,
            interval,
        ) == (TickActionView::ExtendPrevious {
            sidecar: state.prev_sidecar->0@,
            add_seconds: interval,
        })),
        state.prev_hash != Some(hash) ==> (tick_action(state, hash, png, interval) == (match png {
            Some(p) => TickActionView::Save { png: p, hash },
            None => TickActionView::EncodeFailed,
        })),
{
}

/// A year as chrono's `%Y` writes it: four digits from 0 to 9999,
/// otherwise a sign and at least four digits.
pub open spec fn year_text(y: int) -> Seq<char> {
    if 0 <= y <= 9999 {
        dec_pad(y as nat, 4)
    } else if y < 0 {
        seq!['-'] + dec_pad((-y) as nat, 4)
    } else {
        seq!['+'] + dec_pad(y as nat, 4)
    }
}

pub fn push_year(out: &mut String, y: i32)
    ensures
        final(out)@ == old(out)@ + year_text(y as int),
{
    let ghost before = out@;
    if 0 <= y && y <= 9999 {
        push_dec_pad(out, y as u64, 4);
    } else if y < 0 {
        push_char(out, '-');
        let a: i64 = -(y as i64);
        push_dec_pad(out, a as u64, 4);
        assert(out@ =~= before + year_text(y as int));
    } else {
        push_char(out, '+');
        push_dec_pad(out, y as u64, 4);
        assert(out@ =~= before + year_text(y as int));
    }
}

/// Stem of a screenshot's files: the local time of capture,
/// `YYYY_MM_DD_HH_MM_SS`.
pub open spec fn shot_stem(t: (i32, u32, u32, u32, u32, u32)) -> Seq<char> {
    year_text(t.0 as int) + seq!['_'] + dec_pad(t.1 as nat, 2) + seq!['_'] + dec_pad(t.2 as nat, 2)
        + seq!['_'] + dec_pad(t.3 as nat, 2) + seq!['_'] + dec_pad(t.4 as nat, 2) + seq!['_']
        + dec_pad(t.5 as nat, 2)
}

proof fn lemma_year_text_injective(p: int, q: int)
    requires
        year_text(p) == year_text(q),
    ensures
        p == q,
{
    let t = year_text(p);
    if 0 <= p <= 9999 {
        lemma_dec_pad_value(p as nat, 4);
    } else if p < 0 {
        lemma_dec_pad_value((-p) as nat, 4);
    } else {
        lemma_dec_pad_value(p as nat, 4);
    }
    if 0 <= q <= 9999 {
        lemma_dec_pad_value(q as nat, 4);
    } else if q < 0 {
        lemma_dec_pad_value((-q) as nat, 4);
    } else {
        lemma_dec_pad_value(q as nat, 4);
    }
    assert(!is_digit('-') && !is_digit('+'));
    assert(0 <= p <= 9999 ==> t[0] == dec_pad(p as nat, 4)[0]);
    assert(p < 0 ==> t[0] == '-');
    assert(p > 9999 ==> t[0] == '+');
    assert(0 <= q <= 9999 ==> year_text(q)[0] == dec_pad(q as nat, 4)[0]);
    assert(q < 0 ==> year_text(q)[0] == '-');
    assert(q > 9999 ==> year_text(q)[0] == '+');
    if p < 0 && q < 0 {
        assert(t.drop_first() =~= dec_pad((-p) as nat, 4));
        assert(year_text(q).drop_first() =~= dec_pad((-q) as nat, 4));
    } else if p > 9999 && q > 9999 {
        assert(t.drop_first() =~= dec_pad(p as nat, 4));
        assert(year_text(q).drop_first() =~= dec_pad(q as nat, 4));
    }
}

/// File stems are unique: two capture times, each with its month, day,
/// hour, minute and second below 100, get the same stem only when they are
/// the same local time.
pub proof fn lemma_shot_stem_unique(a: (i32, u32, u32, u32, u32, u32), b: (i32, u32, u32, u32, u32, u32))
    requires
        a.1 < 100 && a.2 < 100 && a.3 < 100 && a.4 < 100 && a.5 < 100,
        b.1 < 100 && b.2 < 100 && b.3 < 100 && b.4 < 100 && b.5 < 100,
    ensures
        shot_stem(a) == shot_stem(b) <==> a == b,
{
    if shot_stem(a) == shot_stem(b) {
        let sa = shot_stem(a);
        let ya = year_text(a.0 as int);
        let yb = year_text(b.0 as int);
        lemma_dec_pad_value(a.1 as nat, 2);
        lemma_dec_pad_value(a.2 as nat, 2);
        lemma_dec_pad_value(a.3 as nat, 2);
        lemma_dec_pad_value(a.4 as nat, 2);
        lemma_dec_pad_value(a.5 as nat, 2);
        lemma_dec_pad_value(b.1 as nat, 2);
        lemma_dec_pad_value(b.2 as nat, 2);
        lemma_dec_pad_value(b.3 as nat, 2);
        lemma_dec_pad_value(b.4 as nat, 2);
        lemma_dec_pad_value(b.5 as nat, 2);
        assert(sa.len() == ya.len() + 15);
        assert(shot_stem(b).len() == yb.len() + 15);
        let l = ya.len() as int;
        assert(sa.take(l) =~= ya);
        assert(shot_stem(b).take(l) =~= yb);
        lemma_year_text_injective(a.0 as int, b.0 as int);
        assert(sa.subrange(l + 1, l + 3) =~= dec_pad(a.1 as nat, 2));
        assert(shot_stem(b).subrange(l + 1, l + 3) =~= dec_pad(b.1 as nat, 2));
        assert(sa.subrange(l + 4, l + 6) =~= dec_pad(a.2 as nat, 2));
        assert(shot_stem(b).subrange(l + 4, l + 6) =~= dec_pad(b.2 as nat, 2));
        assert(sa.subrange(l + 7, l + 9) =~= dec_pad(a.3 as nat, 2));
        assert(shot_stem(b).subrange(l + 7, l + 9) =~= dec_pad(b.3 as nat, 2));
        assert(sa.subrange(l + 10, l + 12) =~= dec_pad(a.4 as nat, 2));
        assert(shot_stem(b).subrange(l + 10, l + 12) =~= dec_pad(b.4 as nat, 2));
        assert(sa.subrange(l + 13, l + 15) =~= dec_pad(a.5 as nat, 2));
        assert(shot_stem(b).subrange(l + 13, l + 15) =~= dec_pad(b.5 as nat, 2));
    }
}

/// Where a screenshot goes: its day's directory, the PNG and its temporary
/// name, the sidecar and its temporary name.
pub struct ShotPaths {
    pub dir: String,
    pub png: String,
    pub png_tmp: String,
    pub sidecar: String,
    pub sidecar_tmp: String,
}

/// The month's directory `<out>/YYYY/MM` of the local date.
pub open spec fn shot_dir(output_dir: Seq<char>, local: (i32, u32, u32, u32, u32, u32)) -> Seq<char> {
    join_path(join_path(output_dir, year_text(local.0 as int)), dec_pad(local.1 as nat, 2))
}

pub open spec fn ext_png() -> Seq<char> {
    seq!['.', 'p', 'n', 'g']
}

pub open spec fn ext_toml() -> Seq<char> {
    seq!['.', 't', 'o', 'm', 'l']
}

pub open spec fn ext_tmp() -> Seq<char> {
    seq!['.', 't', 'm', 'p']
}

/// The paths of a shot taken at local time `local`:
/// `<out>/YYYY/MM/YYYY_MM_DD_HH_MM_SS.png`, its sidecar `.toml`, and the
/// `.tmp` names each is first written under.
pub fn shot_paths(output_dir: &str, local: (i32, u32, u32, u32, u32, u32)) -> (r: ShotPaths)
    ensures
        r.dir@ == shot_dir(output_dir@, local),
        r.png@ == join_path(shot_dir(output_dir@, local), shot_stem(local) + ext_png()),
        r.png_tmp@ == join_path(shot_dir(output_dir@, local), shot_stem(local) + ext_png() + ext_tmp()),
        r.sidecar@ == join_path(shot_dir(output_dir@, local), shot_stem(local) + ext_toml()),
        r.sidecar_tmp@ == join_path(
            shot_dir(output_dir@, local),
            shot_stem(local) + ext_toml() + ext_tmp(),
        ),
{
    let mut y = String::new();
    push_year(&mut y, local.0);
    let mut m = String::new();
    push_dec_pad(&mut m, local.1 as u64, 2);
    let d1 = join(output_dir, y.as_str());
    let dir = join(d1.as_str(), m.as_str());
    let mut stem = String::new();
    push_year(&mut stem, local.0);
    push_char(&mut stem, '_');
    push_dec_pad(&mut stem, local.1 as u64, 2);
    push_char(&mut stem, '_');
    push_dec_pad(&mut stem, local.2 as u64, 2);
    push_char(&mut stem, '_');
    push_dec_pad(&mut stem, local.3 as u64, 2);
    push_char(&mut stem, '_');
    push_dec_pad(&mut stem, local.4 as u64, 2);
    push_char(&mut stem, '_');
    push_dec_pad(&mut stem, local.5 as u64, 2);
    assert(stem@ =~= shot_stem(local));
    let mut png_name = stem.clone();
    push_char(&mut png_name, '.');
    push_char(&mut png_name, 'p');
    push_char(&mut png_name, 'n');
    push_char(&mut png_name, 'g');
    assert(png_name@ =~= shot_stem(local) + ext_png());
    let mut png_tmp_name = png_name.clone();
    push_char(&mut png_tmp_name, '.');
    push_char(&mut png_tmp_name, 't');
    push_char(&mut png_tmp_name, 'm');
    push_char(&mut png_tmp_name, 'p');
    assert(png_tmp_name@ =~= shot_stem(local) + ext_png() + ext_tmp());
    let mut toml_name = stem.clone();
    push_char(&mut toml_name, '.');
    push_char(&mut toml_name, 't');
    push_char(&mut toml_name, 'o');
    push_char(&mut toml_name, 'm');
    push_char(&mut toml_name, 'l');
    assert(toml_name@ =~= shot_stem(local) + ext_toml());
    let mut toml_tmp_name = toml_name.clone();
    push_char(&mut toml_tmp_name, '.');
    push_char(&mut toml_tmp_name, 't');
    push_char(&mut toml_tmp_name, 'm');
    push_char(&mut toml_tmp_name, 'p');
    assert(toml_tmp_name@ =~= shot_stem(local) + ext_toml() + ext_tmp());
    let png = join(dir.as_str(), png_name.as_str());
    let png_tmp = join(dir.as_str(), png_tmp_name.as_str());
    let sidecar = join(dir.as_str(), toml_name.as_str());
    let sidecar_tmp = join(dir.as_str(), toml_tmp_name.as_str());
    ShotPaths { dir, png, png_tmp, sidecar, sidecar_tmp }
}


/// Two ticks in a row on the same screen: after a shot whose sidecar was
/// written with interval `n`, a tick that sees the same canvas hash writes
/// no new shot but extends that sidecar by the tick's interval, and the
/// extended sidecar is the one written with `n + interval`. This holds for a
/// capture time without a line break and a sum that fits in `u64`.
pub proof fn lemma_unchanged_screen_extends_sidecar(
    state: CaptureState,
    hash: u64,
    png: Option<Seq<u8>>,
    interval: u64,
    captured_at: Seq<char>,
    n: u64,
    hostname: Seq<char>,
    title: Option<Seq<char>>,
    class: Option<Seq<char>>,
)
    requires
        state.prev_hash == Some(hash),
        state.prev_sidecar is Some,
        no_newline(captured_at),
        n + interval <= u64::MAX,
    ensures
        tick_action(state, hash, png, interval) == (TickActionView::ExtendPrevious {
            sidecar: state.prev_sidecar->0@,
            add_seconds: interval,
        }),
        !bump_overflows(sidecar_body(captured_at, n as nat, hostname, title, class), interval),
        bumped(sidecar_body(captured_at, n as nat, hostname, title, class), interval) == Ok::<
            (Seq<char>, u64),
            BumpError,
        >((sidecar_body(captured_at, (n + interval) as nat, hostname, title, class), (n + interval) as u64)),
{
    lemma_tick_rule(state, hash, png, interval);
    lemma_bump_sidecar(captured_at, n, hostname, title, class, interval);
}

} // verus!
