//! Rectangles of samples in a plane, addressed by first sample and stride.
use vstd::prelude::*;

verus! {

/// Whether sample `k` lies in the `w` by `h` rectangle at `p`.
pub open spec fn in_rect(k: int, p: int, s: int, w: int, h: int) -> bool {
    k >= p && (k - p) % s < w && (k - p) / s < h
}

/// A plane with the rectangle at `p` replaced by `vals`, row by row.
pub open spec fn put(buf: Seq<u8>, p: int, s: int, w: int, h: int, vals: Seq<u8>) -> Seq<u8> {
    Seq::new(
        buf.len(),
        |k: int|
            if in_rect(k, p, s, w, h) {
                vals[((k - p) / s) * w + (k - p) % s]
            } else {
                buf[k]
            },
    )
}

/// The rectangle lies in a plane of `len` samples, rows apart from each other.
pub open spec fn rect_ok(len: nat, p: int, s: int, w: int, h: int) -> bool {
    &&& 0 <= p
    &&& 1 <= w <= s
    &&& 1 <= h
    &&& p + (h - 1) * s + w <= len
}

/// The sample in row `i` and column `j` of a rectangle.
pub proof fn lemma_at(p: int, s: int, i: int, j: int)
    requires
        0 <= j < s,
        0 <= i,
    ensures
        (p + i * s + j - p) / s == i,
        (p + i * s + j - p) % s == j,
{
    vstd::arithmetic::div_mod::lemma_fundamental_div_mod_converse(i * s + j, s, i, j);
}

/// A rectangle replaced sample by sample reads back as what was put there, and
/// the samples around it are kept.
pub proof fn law_put(buf: Seq<u8>, p: int, s: int, w: int, h: int, vals: Seq<u8>, i: int, j: int)
    requires
        rect_ok(buf.len(), p, s, w, h),
        vals.len() == w * h,
        0 <= i < h,
        0 <= j < w,
    ensures
        put(buf, p, s, w, h, vals).len() == buf.len(),
        p + i * s + j < buf.len(),
        put(buf, p, s, w, h, vals)[p + i * s + j] == vals[i * w + j],
        forall|k: int|
            0 <= k < buf.len() && !in_rect(k, p, s, w, h) ==> #[trigger] put(
                buf,
                p,
                s,
                w,
                h,
                vals,
            )[k] == buf[k],
{
    lemma_at(p, s, i, j);
    assert(i * s <= (h - 1) * s) by (nonlinear_arith)
        requires
            i <= h - 1,
            s >= 1,
    ;
    assert(i * s >= 0) by (nonlinear_arith)
        requires
            i >= 0,
            s >= 1,
    ;
}

/// Replace a rectangle of a plane.
pub fn put_rect(buf: &mut Vec<u8>, p: usize, s: usize, w: usize, h: usize, vals: &Vec<u8>)
    requires
        rect_ok(old(buf)@.len(), p as int, s as int, w as int, h as int),
        vals@.len() == w * h,
        h <= 0x10000,
        w <= 0x10000,
    ensures
        final(buf)@ == put(old(buf)@, p as int, s as int, w as int, h as int, vals@),
{
    let ghost b0 = buf@;
    let len: usize = buf.len();
    let count: usize = vals.len();
    let mut i: usize = 0;
    while i < h
        invariant
            i <= h <= 0x10000,
            len == b0.len(),
            count == vals@.len(),
            w <= 0x10000,
            rect_ok(b0.len(), p as int, s as int, w as int, h as int),
            vals@.len() == w * h,
            buf@.len() == b0.len(),
            forall|k: int|
                0 <= k < b0.len() ==> #[trigger] buf@[k] == (if in_rect(
                    k,
                    p as int,
                    s as int,
                    w as int,
                    i as int,
                ) {
                    vals@[((k - p) / s as int) * w + (k - p) % s as int]
                } else {
                    b0[k]
                }),
        decreases h - i,
    {
        let ghost bi = buf@;
        let mut j: usize = 0;
        proof {
            assert(i * s <= (h - 1) * s) by (nonlinear_arith)
                requires
                    i <= h - 1,
                    s >= 1,
            ;
            assert(i * w + w <= w * h) by (nonlinear_arith)
                requires
                    i + 1 <= h,
            ;
            assert(i * w >= 0 && i * s >= 0) by (nonlinear_arith);
            assert(w * h <= 0x10000 * 0x10000) by (nonlinear_arith)
                requires
                    w <= 0x10000,
                    h <= 0x10000,
            ;
        }
        while j < w
            invariant
                j <= w,
                i < h <= 0x10000,
                len == b0.len(),
                count == vals@.len(),
                w <= 0x10000,
                rect_ok(b0.len(), p as int, s as int, w as int, h as int),
                p + i * s + w <= b0.len(),
                vals@.len() == w * h,
                i * w + w <= w * h,
                i * s >= 0,
                i * w >= 0,
                i * s <= (h - 1) * s,
                buf@.len() == b0.len(),
                bi.len() == b0.len(),
                forall|k: int|
                    0 <= k < b0.len() ==> #[trigger] buf@[k] == (if p + i * s <= k < p + i * s + j {
                        vals@[i * w + (k - p - i * s)]
                    } else {
                        bi[k]
                    }),
            decreases w - j,
        {
            buf.set(p + i * s + j, vals[i * w + j]);
            j = j + 1;
        }
        proof {
            assert forall|k: int| 0 <= k < b0.len() implies #[trigger] buf@[k] == (if in_rect(
                k,
                p as int,
                s as int,
                w as int,
                i + 1,
            ) {
                vals@[((k - p) / s as int) * w + (k - p) % s as int]
            } else {
                b0[k]
            }) by {
                if p + i * s <= k < p + i * s + w {
                    lemma_at(p as int, s as int, i as int, k - p - i * s);
                } else if k >= p {
                    vstd::arithmetic::div_mod::lemma_fundamental_div_mod(k - p, s as int);
                    let q = (k - p) / (s as int);
                    let m = (k - p) % (s as int);
                    if q == i && m < w {
                        assert(s * q == i * s) by (nonlinear_arith)
                            requires
                                q == i,
                        ;
                    }
                }
            }
        }
        i = i + 1;
    }
    assert(buf@ =~= put(b0, p as int, s as int, w as int, h as int, vals@));
}

} // verus!
