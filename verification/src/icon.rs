//! Byte orders of the eye icons' pixel buffers.

use vstd::prelude::*;

verus! {

/// Per-pixel byte order of an icon buffer.
#[derive(Clone, Copy, Debug, PartialEq, Eq, Structural)]
pub enum ByteOrder {
    /// `[A, R, G, B]` per pixel — what ksni wants on the wire.
    Argb,
    /// `[R, G, B, A]` per pixel, straight (non-premultiplied) alpha — what
    /// eframe / egui `IconData` wants.
    Rgba,
}

/// `[R, G, B, A]` pixels rewritten as `[A, R, G, B]`; a trailing partial
/// pixel stays as it is.
pub open spec fn argb_of(rgba: Seq<u8>) -> Seq<u8> {
    Seq::new(
        rgba.len(),
        |i: int|
            if i < rgba.len() - rgba.len() % 4 {
                if i % 4 == 0 {
                    rgba[i + 3]
                } else {
                    rgba[i - 1]
                }
            } else {
                rgba[i]
            },
    )
}

/// Rewrites each whole `[R, G, B, A]` pixel as `[A, R, G, B]`.
pub fn rgba_to_argb_inplace(rgba: Vec<u8>) -> (r: Vec<u8>)
    ensures
        r@ == argb_of(rgba@),
{
    let mut v = rgba;
    let ghost orig = v@;
    let n = v.len();
    let whole = n - n % 4;
    let mut p: usize = 0;
    while p < whole
        invariant
            n == v.len() == orig.len(),
            whole == n - n % 4,
            p % 4 == 0,
            p <= whole,
            forall|i: int| 0 <= i < p ==> #[trigger] v@[i] == argb_of(orig)[i],
            forall|i: int| p <= i < n ==> #[trigger] v@[i] == orig[i],
        decreases whole - p,
    {
        let r = v[p];
        let g = v[p + 1];
        let b = v[p + 2];
        let a = v[p + 3];
        v.set(p, a);
        v.set(p + 1, r);
        v.set(p + 2, g);
        v.set(p + 3, b);
        p = p + 4;
    }
    assert(v@ =~= argb_of(orig));
    v
}

/// A straight-alpha RGBA buffer in the byte order asked for.
pub fn in_byte_order(rgba: Vec<u8>, order: ByteOrder) -> (r: Vec<u8>)
    ensures
        r@ == match order {
            ByteOrder::Rgba => rgba@,
            ByteOrder::Argb => argb_of(rgba@),
        },
{
    match order {
        ByteOrder::Rgba => rgba,
        ByteOrder::Argb => rgba_to_argb_inplace(rgba),
    }
}


/// The two byte orders of one picture: the `Argb` buffer is the `Rgba`
/// buffer with each pixel's alpha byte moved to the front, and as long.
pub proof fn lemma_byte_orders(rgba: Seq<u8>)
    requires
        rgba.len() % 4 == 0,
    ensures
        argb_of(rgba).len() == rgba.len(),
        forall|p: int|
            0 <= p < rgba.len() / 4 ==> {
                &&& #[trigger] argb_of(rgba)[4 * p] == rgba[4 * p + 3]
                &&& argb_of(rgba)[4 * p + 1] == rgba[4 * p]
                &&& argb_of(rgba)[4 * p + 2] == rgba[4 * p + 1]
                &&& argb_of(rgba)[4 * p + 3] == rgba[4 * p + 2]
            },
{
    assert forall|p: int| 0 <= p < rgba.len() / 4 implies {
        &&& #[trigger] argb_of(rgba)[4 * p] == rgba[4 * p + 3]
        &&& argb_of(rgba)[4 * p + 1] == rgba[4 * p]
        &&& argb_of(rgba)[4 * p + 2] == rgba[4 * p + 1]
        &&& argb_of(rgba)[4 * p + 3] == rgba[4 * p + 2]
    } by {
        assert((4 * p) % 4 == 0 && (4 * p + 1) % 4 == 1 && (4 * p + 2) % 4 == 2 && (4 * p + 3) % 4 == 3);
        assert(4 * p + 3 < rgba.len());
    }
}

} // verus!
