//! Names of the JPEG frames staged for the encoder.

use vstd::prelude::*;
use crate::text::{
    all_digits, chars_of, dec, dec_pad, digits_value, is_digit, lemma_dec_digits, lemma_dec_pad_value, push_char,
    push_dec_u128, push_str,
};

verus! {

/// `<unix_millis>.jpg`, the milliseconds zero-padded to 13 digits so that
/// names sort in capture order; `tmp` adds `.tmp` for the name written first.
pub open spec fn staged_name(ms: u128, tmp: bool) -> Seq<char> {
    dec_pad(ms as nat, 13) + seq!['.', 'j', 'p', 'g'] + if tmp {
        seq!['.', 't', 'm', 'p']
    } else {
        seq![]
    }
}

/// The name of the frame staged at `ms` milliseconds since the Unix epoch,
/// or of its temporary file.
pub fn staged_file_name(ms: u128, tmp: bool) -> (r: String)
    ensures
        r@ == staged_name(ms, tmp),
{
    let mut digits = String::new();
    push_dec_u128(&mut digits, ms);
    let len = digits.as_str().unicode_len();
    let mut out = String::new();
    let mut k = len;
    while k < 13
        invariant
            len == dec(ms as nat).len(),
            len <= k <= 13 || (13 < len && k == len),
            out@ == Seq::new((k - len) as nat, |i: int| '0'),
        decreases 13 - k,
    {
        push_char(&mut out, '0');
        assert(out@ =~= Seq::new((k + 1 - len) as nat, |i: int| '0'));
        k = k + 1;
    }
    push_str(&mut out, digits.as_str());
    assert(out@ =~= dec_pad(ms as nat, 13));
    push_char(&mut out, '.');
    push_char(&mut out, 'j');
    push_char(&mut out, 'p');
    push_char(&mut out, 'g');
    if tmp {
        push_char(&mut out, '.');
        push_char(&mut out, 't');
        push_char(&mut out, 'm');
        push_char(&mut out, 'p');
    }
    assert(out@ =~= staged_name(ms, tmp));
    out
}


/// `10^k`.
pub open spec fn pow10(k: nat) -> nat
    decreases k,
{
    if k == 0 {
        1
    } else {
        10 * pow10((k - 1) as nat)
    }
}

/// Whether `a` sorts before `b` as text: at the first place they differ,
/// `a` has the smaller character, or `a` is a proper prefix of `b`.
pub open spec fn text_lt(a: Seq<char>, b: Seq<char>) -> bool {
    ||| exists|k: int|
        0 <= k < a.len() && k < b.len() && a.take(k) == b.take(k) && (#[trigger] a[k] as u32) < (
        b[k] as u32)
    ||| (a.len() < b.len() && b.take(a.len() as int) == a)
}

proof fn lemma_dec_len_le(x: nat, k: nat)
    requires
        k >= 1,
        x < pow10(k),
    ensures
        dec(x).len() <= k,
    decreases x,
{
    if x >= 10 {
        assert(k >= 2) by {
            if k == 1 {
                assert(pow10(0) == 1);
            }
        }
        assert(pow10(k) == 10 * pow10((k - 1) as nat));
        lemma_dec_len_le(x / 10, (k - 1) as nat);
    }
}

proof fn lemma_digit_value(c: char)
    requires
        is_digit(c),
    ensures
        0 <= c as u32 - 48 <= 9,
{
}

proof fn lemma_digits_eq(a: Seq<char>, b: Seq<char>)
    requires
        a.len() == b.len(),
        all_digits(a),
        all_digits(b),
        digits_value(a) == digits_value(b),
    ensures
        a == b,
    decreases a.len(),
{
    if a.len() > 0 {
        lemma_digit_value(a.last());
        lemma_digit_value(b.last());
        assert(is_digit(a[a.len() - 1]) && is_digit(b[b.len() - 1]));
        assert(all_digits(a.drop_last())) by {
            assert forall|i: int| 0 <= i < a.drop_last().len() implies #[trigger] is_digit(
                a.drop_last()[i],
            ) by {
                assert(is_digit(a[i]));
            }
        }
        assert(all_digits(b.drop_last())) by {
            assert forall|i: int| 0 <= i < b.drop_last().len() implies #[trigger] is_digit(
                b.drop_last()[i],
            ) by {
                assert(is_digit(b[i]));
            }
        }
        lemma_digits_eq(a.drop_last(), b.drop_last());
        assert(a =~= b.drop_last().push(a.last()));
        assert(b =~= b.drop_last().push(b.last()));
    } else {
        assert(a =~= b);
    }
}

proof fn lemma_digits_lt(a: Seq<char>, b: Seq<char>)
    requires
        a.len() == b.len(),
        all_digits(a),
        all_digits(b),
        digits_value(a) < digits_value(b),
    ensures
        exists|k: int|
            0 <= k < a.len() && a.take(k) == b.take(k) && (#[trigger] a[k] as u32) < (b[k] as u32),
    decreases a.len(),
{
    let n = a.len() as int;
    let a1 = a.drop_last();
    let b1 = b.drop_last();
    lemma_digit_value(a[n - 1]);
    lemma_digit_value(b[n - 1]);
    assert(all_digits(a1)) by {
        assert forall|i: int| 0 <= i < a1.len() implies #[trigger] is_digit(a1[i]) by {
            assert(is_digit(a[i]));
        }
    }
    assert(all_digits(b1)) by {
        assert forall|i: int| 0 <= i < b1.len() implies #[trigger] is_digit(b1[i]) by {
            assert(is_digit(b[i]));
        }
    }
    if digits_value(a1) < digits_value(b1) {
        lemma_digits_lt(a1, b1);
        let k = choose|k: int|
            0 <= k < a1.len() && a1.take(k) == b1.take(k) && (#[trigger] a1[k] as u32) < (
            b1[k] as u32);
        assert(a.take(k) =~= a1.take(k));
        assert(b.take(k) =~= b1.take(k));
        assert(a[k] == a1[k] && b[k] == b1[k]);
    } else if digits_value(a1) == digits_value(b1) {
        lemma_digits_eq(a1, b1);
        assert(a.take(n - 1) =~= a1);
        assert(b.take(n - 1) =~= b1);
        assert((a[n - 1] as u32) < (b[n - 1] as u32));
    } else {
        assert(digits_value(a) >= digits_value(a1) * 10);
        assert(digits_value(b) <= digits_value(b1) * 10 + 9);
    }
}

/// Staged names sort as text in capture order, for every time before
/// millisecond `10^13` (the year 2286); past it the names grow a digit.
pub proof fn lemma_staged_names_sorted(a: u128, b: u128)
    requires
        a < b,
        b < pow10(13),
    ensures
        text_lt(staged_name(a, false), staged_name(b, false)),
        lex_lt(staged_name(a, false), staged_name(b, false)),
{
    lemma_dec_len_le(a as nat, 13);
    lemma_dec_len_le(b as nat, 13);
    lemma_dec_pad_value(a as nat, 13);
    lemma_dec_pad_value(b as nat, 13);
    lemma_dec_digits(a as nat);
    lemma_dec_digits(b as nat);
    let pa = dec_pad(a as nat, 13);
    let pb = dec_pad(b as nat, 13);
    assert(pa.len() == 13 && pb.len() == 13);
    assert(all_digits(pa)) by {
        assert forall|i: int| 0 <= i < pa.len() implies #[trigger] is_digit(pa[i]) by {
            let d = dec(a as nat);
            if d.len() < 13 {
                let z = 13 - d.len();
                if i >= z {
                    assert(pa[i] == d[i - z]);
                }
            }
        }
    }
    assert(all_digits(pb)) by {
        assert forall|i: int| 0 <= i < pb.len() implies #[trigger] is_digit(pb[i]) by {
            let d = dec(b as nat);
            if d.len() < 13 {
                let z = 13 - d.len();
                if i >= z {
                    assert(pb[i] == d[i - z]);
                }
            }
        }
    }
    lemma_digits_lt(pa, pb);
    let k = choose|k: int|
        0 <= k < pa.len() && pa.take(k) == pb.take(k) && (#[trigger] pa[k] as u32) < (pb[k] as u32);
    let na = staged_name(a, false);
    let nb = staged_name(b, false);
    assert(na.take(k) =~= pa.take(k));
    assert(nb.take(k) =~= pb.take(k));
    assert(na[k] == pa[k] && nb[k] == pb[k]);
    lemma_char_order(na[k], nb[k]);
    lemma_first_difference_lex(na, nb, k);
}


/// Text order, character by character from the front (the order of `str`
/// and of file names made of such text): `a` sorts before `b`.
pub open spec fn lex_lt(a: Seq<char>, b: Seq<char>) -> bool
    decreases a.len(),
{
    if a.len() == 0 {
        b.len() > 0
    } else if b.len() == 0 {
        false
    } else if a[0] < b[0] {
        true
    } else if a[0] == b[0] {
        lex_lt(a.drop_first(), b.drop_first())
    } else {
        false
    }
}

proof fn lemma_lex_order(a: Seq<char>, b: Seq<char>, c: Seq<char>)
    ensures
        !lex_lt(a, a),
        lex_lt(a, b) ==> !lex_lt(b, a),
        !lex_lt(a, b) && !lex_lt(b, a) ==> a == b,
        lex_lt(a, b) && lex_lt(b, c) ==> lex_lt(a, c),
    decreases a.len(),
{
    if a.len() > 0 && b.len() > 0 && c.len() > 0 {
        lemma_lex_order(a.drop_first(), b.drop_first(), c.drop_first());
        if a[0] == b[0] && !lex_lt(a.drop_first(), b.drop_first()) && !lex_lt(b.drop_first(), a.drop_first()) {
            assert(a =~= seq![a[0]] + a.drop_first());
            assert(b =~= seq![b[0]] + b.drop_first());
        }
    } else if a.len() > 0 && b.len() > 0 {
        lemma_lex_order(a.drop_first(), b.drop_first(), a.drop_first());
        if a[0] == b[0] && !lex_lt(a.drop_first(), b.drop_first()) && !lex_lt(b.drop_first(), a.drop_first()) {
            assert(a =~= seq![a[0]] + a.drop_first());
            assert(b =~= seq![b[0]] + b.drop_first());
        }
    } else if a.len() > 0 {
        lemma_lex_order(a.drop_first(), a.drop_first(), a.drop_first());
    } else if b.len() == 0 {
        assert(a =~= b);
    }
}

proof fn lemma_char_order(a: char, b: char)
    ensures
        (a as u32) < (b as u32) ==> a < b,
{
}

proof fn lemma_first_difference_lex(a: Seq<char>, b: Seq<char>, k: int)
    requires
        0 <= k < a.len(),
        k < b.len(),
        a.take(k) == b.take(k),
        a[k] < b[k],
    ensures
        lex_lt(a, b),
    decreases k,
{
    if k > 0 {
        assert(a[0] == a.take(k)[0] && b[0] == b.take(k)[0]);
        assert(a.drop_first().take(k - 1) =~= a.take(k).drop_first());
        assert(b.drop_first().take(k - 1) =~= b.take(k).drop_first());
        lemma_first_difference_lex(a.drop_first(), b.drop_first(), k - 1);
    }
}

/// `lex_lt` of two texts.
pub fn text_less(a: &str, b: &str) -> (r: bool)
    ensures
        r == lex_lt(a@, b@),
{
    let x = chars_of(a);
    let y = chars_of(b);
    let mut i: usize = 0;
    assert(x@.skip(0) =~= x@);
    assert(y@.skip(0) =~= y@);
    while i < x.len() && i < y.len() && x[i] == y[i]
        invariant
            i <= x.len(),
            i <= y.len(),
            x@ == a@,
            y@ == b@,
            lex_lt(a@, b@) == lex_lt(x@.skip(i as int), y@.skip(i as int)),
        decreases x.len() - i,
    {
        assert(x@.skip(i as int).drop_first() =~= x@.skip(i + 1));
        assert(y@.skip(i as int).drop_first() =~= y@.skip(i + 1));
        i = i + 1;
    }
    if i == x.len() {
        i < y.len()
    } else if i == y.len() {
        false
    } else {
        x[i] < y[i]
    }
}

/// Whether a file name is that of a staged frame: its extension (the text
/// after its last `.`, that dot not leading the name) is `jpg`.
pub open spec fn is_frame_name(name: Seq<char>) -> bool {
    name.len() > 4 && name.skip(name.len() - 4) == seq!['.', 'j', 'p', 'g']
}

/// The frame names among `names`, in their order.
pub open spec fn frame_names(names: Seq<Seq<char>>) -> Seq<Seq<char>> {
    names.filter(|n: Seq<char>| is_frame_name(n))
}

/// Whether the names are in text order.
pub open spec fn names_sorted(s: Seq<Seq<char>>) -> bool {
    forall|i: int, j: int| 0 <= i < j < s.len() ==> !lex_lt(#[trigger] s[j], #[trigger] s[i])
}

pub open spec fn texts(v: Seq<String>) -> Seq<Seq<char>> {
    v.map_values(|s: String| s@)
}

fn frame_name(name: &str) -> (r: bool)
    ensures
        r == is_frame_name(name@),
{
    let c = chars_of(name);
    let n = c.len();
    if n <= 4 {
        return false;
    }
    let r = c[n - 4] == '.' && c[n - 3] == 'j' && c[n - 2] == 'p' && c[n - 1] == 'g';
    proof {
        let t = c@.skip(n - 4);
        if r {
            assert(t =~= seq!['.', 'j', 'p', 'g']);
        } else {
            assert(t.len() == 4);
            assert(t[0] == c@[n - 4] && t[1] == c@[n - 3] && t[2] == c@[n - 2] && t[3] == c@[n - 1]);
        }
    }
    r
}

/// The staged frames among the file names of a directory: those with the
/// extension `jpg`, in text order, which for staged names is time order.
pub fn pending_frame_names(names: Vec<String>) -> (r: Vec<String>)
    ensures
        names_sorted(texts(r@)),
        texts(r@).to_multiset() == frame_names(texts(names@)).to_multiset(),
{
    broadcast use vstd::seq_lib::to_multiset_insert, vstd::seq_lib::to_multiset_build;

    let ghost all = texts(names@);
    let mut out: Vec<String> = Vec::new();
    let mut i: usize = 0;
    let mut rest = names;
    proof {
        assert(texts(out@) =~= Seq::<Seq<char>>::empty());
        assert(all.take(0) =~= Seq::<Seq<char>>::empty());
        assert(frame_names(all.take(0)) =~= Seq::<Seq<char>>::empty());
    }
    while i < rest.len()
        invariant
            i <= rest.len(),
            all == texts(rest@),
            names_sorted(texts(out@)),
            texts(out@).to_multiset() == frame_names(all.take(i as int)).to_multiset(),
        decreases rest.len() - i,
    {
        let name = rest[i].clone();
        let ghost before = texts(out@);
        proof {
            reveal(Seq::filter);
            assert(all.take(i + 1).drop_last() =~= all.take(i as int));
            assert(all.take(i + 1).last() == all[i as int]);
        }
        assert(name@ == all[i as int]);
        if frame_name(name.as_str()) {
            let mut j = out.len();
            while j > 0 && text_less(name.as_str(), out[j - 1].as_str())
                invariant
                    j <= out.len(),
                    before == texts(out@),
                    names_sorted(before),
                    forall|k: int| j <= k < before.len() ==> lex_lt(name@, #[trigger] before[k]),
                decreases j,
            {
                j = j - 1;
            }
            proof {
                let b = before;
                assert forall|a: int, c: int| 0 <= a < c < b.len() + 1 implies !lex_lt(
                    #[trigger] b.insert(j as int, name@)[c],
                    #[trigger] b.insert(j as int, name@)[a],
                ) by {
                    let r = b.insert(j as int, name@);
                    if c < j {
                        assert(r[a] == b[a] && r[c] == b[c]);
                    } else if c == j {
                        assert(r[a] == b[a]);
                        assert(!lex_lt(name@, b[j - 1]));
                        lemma_lex_order(b[a], b[j - 1], name@);
                        lemma_lex_order(name@, b[a], b[j - 1]);
                        lemma_lex_order(b[j - 1], b[a], name@);
                        if a < j - 1 {
                            assert(!lex_lt(b[j - 1], b[a]));
                        }
                    } else if a < j {
                        assert(r[a] == b[a] && r[c] == b[c - 1]);
                    } else if a == j {
                        assert(r[c] == b[c - 1]);
                        assert(lex_lt(name@, b[c - 1]));
                        lemma_lex_order(name@, b[c - 1], name@);
                    } else {
                        assert(r[a] == b[a - 1] && r[c] == b[c - 1]);
                    }
                }
            }
            out.insert(j, name);
            proof {
                assert(texts(out@) =~= before.insert(j as int, all[i as int]));
                assert(frame_names(all.take(i + 1)) =~= frame_names(all.take(i as int)).push(all[i as int]));
                vstd::seq_lib::to_multiset_insert(before, j as int, all[i as int]);
                vstd::seq_lib::to_multiset_build(frame_names(all.take(i as int)), all[i as int]);
                assert(before.insert(j as int, all[i as int]).to_multiset() == before.to_multiset().insert(
                    all[i as int],
                ));
                assert(frame_names(all.take(i as int)).push(all[i as int]).to_multiset() == frame_names(
                    all.take(i as int),
                ).to_multiset().insert(all[i as int]));
            }
        } else {
            proof {
                assert(frame_names(all.take(i + 1)) =~= frame_names(all.take(i as int)));
                assert(texts(out@) == before);
            }
        }
        i = i + 1;
    }
    proof {
        assert(all.take(i as int) =~= all);
    }
    out
}

} // verus!
