//! Intra prediction: blocks filled in from the samples above and to the left.
use super::dct::{added, clamp, clamp255, coeffs_ok, idct_add};
use super::plane::{put, put_rect};
use vstd::prelude::*;
use vstd::slice::slice_subrange;

verus! {

// Modes of whole blocks.
pub const DC_PRED: i32 = 0;

pub const V_PRED: i32 = 1;

pub const H_PRED: i32 = 2;

pub const TM_PRED: i32 = 3;

/// Luma predicted subblock by subblock.
pub const B_PRED: i32 = 4;

// Modes of four by four subblocks.
pub const B_DC_PRED: u8 = 0;

pub const B_TM_PRED: u8 = 1;

pub const B_VE_PRED: u8 = 2;

pub const B_HE_PRED: u8 = 3;

pub const B_LD_PRED: u8 = 4;

pub const B_RD_PRED: u8 = 5;

pub const B_VR_PRED: u8 = 6;

pub const B_VL_PRED: u8 = 7;

pub const B_HD_PRED: u8 = 8;

pub const B_HU_PRED: u8 = 9;

// ── whole blocks ────────────────────────────────────────────────────────────

/// Sample `k` of the row above the block at `p`; `-1` is the corner.
pub open spec fn above(buf: Seq<u8>, p: int, s: int, k: int) -> int {
    buf[p - s + k] as int
}

/// Sample `k` of the column left of the block at `p`.
pub open spec fn left(buf: Seq<u8>, p: int, s: int, k: int) -> int {
    buf[p + k * s - 1] as int
}

/// The sum of the first `n` samples above and to the left.
pub open spec fn edge_sum(buf: Seq<u8>, p: int, s: int, n: int) -> int
    decreases n,
{
    if n <= 0 {
        0
    } else {
        edge_sum(buf, p, s, n - 1) + left(buf, p, s, n - 1) + above(buf, p, s, n - 1)
    }
}

/// The mean of the samples above and to the left, rounded.
pub open spec fn edge_mean(buf: Seq<u8>, p: int, s: int, n: int) -> u8 {
    ((edge_sum(buf, p, s, n) + n) / (2 * n)) as u8
}

/// The prediction of an `n` by `n` block.
pub open spec fn block_prediction(buf: Seq<u8>, p: int, s: int, n: int, mode: int) -> Seq<u8> {
    Seq::new(
        (n * n) as nat,
        |k: int|
            if mode == V_PRED {
                above(buf, p, s, k % n) as u8
            } else if mode == H_PRED {
                left(buf, p, s, k / n) as u8
            } else if mode == TM_PRED {
                clamp(left(buf, p, s, k / n) + above(buf, p, s, k % n) - above(buf, p, s, -1))
            } else {
                edge_mean(buf, p, s, n)
            },
    )
}

/// The block and the samples around it lie in the plane.
pub open spec fn block_ok(len: nat, p: int, s: int, n: int) -> bool {
    &&& s > n
    &&& p > s
    &&& p + (n - 1) * s + n <= len
}

fn sum_edges(buf: &Vec<u8>, p: usize, s: usize, n: usize) -> (dc: u32)
    requires
        block_ok(buf@.len(), p as int, s as int, n as int),
        1 <= n <= 16,
    ensures
        dc == edge_sum(buf@, p as int, s as int, n as int),
        dc <= 510 * n,
{
    let len: usize = buf.len();
    let mut dc: u32 = 0;
    let mut i: usize = 0;
    while i < n
        invariant
            i <= n <= 16,
            len == buf@.len(),
            block_ok(buf@.len(), p as int, s as int, n as int),
            dc == edge_sum(buf@, p as int, s as int, i as int),
            dc <= 510 * i,
        decreases n - i,
    {
        proof {
            assert(0 <= i * s <= (n - 1) * s) by (nonlinear_arith)
                requires
                    i <= n - 1,
            ;
        }
        dc = dc + buf[p + i * s - 1] as u32 + buf[p - s + i] as u32;
        i = i + 1;
    }
    dc
}

/// Predict the `n` by `n` block at `p`.
pub fn predict_block(buf: &mut Vec<u8>, p: usize, s: usize, n: usize, mode: i32)
    requires
        block_ok(old(buf)@.len(), p as int, s as int, n as int),
        n == 4 || n == 8 || n == 16,
    ensures
        final(buf)@ == put(
            old(buf)@,
            p as int,
            s as int,
            n as int,
            n as int,
            block_prediction(old(buf)@, p as int, s as int, n as int, mode as int),
        ),
{
    let mut vals: Vec<u8> = Vec::new();
    let mean: u8 = {
        let dc: u32 = sum_edges(buf, p, s, n);
        ((dc + n as u32) / (2 * n as u32)) as u8
    };
    let corner: i32 = buf[p - s - 1] as i32;
    let len: usize = buf.len();
    let mut i: usize = 0;
    while i < n
        invariant
            i <= n,
            n == 4 || n == 8 || n == 16,
            buf@ == old(buf)@,
            len == buf@.len(),
            block_ok(buf@.len(), p as int, s as int, n as int),
            mean == edge_mean(buf@, p as int, s as int, n as int),
            corner == above(buf@, p as int, s as int, -1),
            vals@.len() == i * n,
            forall|k: int|
                0 <= k < i * n ==> #[trigger] vals@[k] == block_prediction(
                    buf@,
                    p as int,
                    s as int,
                    n as int,
                    mode as int,
                )[k],
        decreases n - i,
    {
        proof {
            assert(0 <= i * s <= (n - 1) * s) by (nonlinear_arith)
                requires
                    i <= n - 1,
            ;
            assert(i * n + n <= n * n) by (nonlinear_arith)
                requires
                    i + 1 <= n,
            ;
        }
        let l: u8 = buf[p + i * s - 1];
        let mut j: usize = 0;
        while j < n
            invariant
                i < n,
                j <= n,
                n == 4 || n == 8 || n == 16,
                buf@ == old(buf)@,
                len == buf@.len(),
                block_ok(buf@.len(), p as int, s as int, n as int),
                mean == edge_mean(buf@, p as int, s as int, n as int),
                corner == above(buf@, p as int, s as int, -1),
                l == left(buf@, p as int, s as int, i as int),
                i * n + n <= n * n,
                vals@.len() == i * n + j,
                forall|k: int|
                    0 <= k < i * n + j ==> #[trigger] vals@[k] == block_prediction(
                        buf@,
                        p as int,
                        s as int,
                        n as int,
                        mode as int,
                    )[k],
            decreases n - j,
        {
            let a: u8 = buf[p - s + j];
            let v: u8 = if mode == V_PRED {
                a
            } else if mode == H_PRED {
                l
            } else if mode == TM_PRED {
                clamp255(l as i32 + a as i32 - corner)
            } else {
                mean
            };
            proof {
                vstd::arithmetic::div_mod::lemma_fundamental_div_mod_converse(
                    i * n + j,
                    n as int,
                    i as int,
                    j as int,
                );
            }
            vals.push(v);
            j = j + 1;
        }
        assert(i * n + n == (i + 1) * n) by (nonlinear_arith);
        i = i + 1;
    }
    assert(vals@ =~= block_prediction(buf@, p as int, s as int, n as int, mode as int));
    put_rect(buf, p, s, n, n, &vals);
}

fn repeated(v: u8, n: usize) -> (r: Vec<u8>)
    ensures
        r@ == Seq::new(n as nat, |k: int| v),
{
    let r: Vec<u8> = vec![v; n];
    assert(r@ =~= Seq::new(n as nat, |k: int| v));
    r
}

/// A plane with the column left of a block at the image's left edge filled in.
pub open spec fn left_fixed(buf: Seq<u8>, p: int, s: int, n: int, row: int, mode: int) -> Seq<u8> {
    if mode == DC_PRED && row > 0 {
        put(buf, p - 1, s, 1, n, Seq::new(n as nat, |i: int| buf[p - s + i]))
    } else {
        put(buf, p - 1 - s, s, 1, n + 1, Seq::new((n + 1) as nat, |i: int| 129u8))
    }
}

/// Fill in the column left of a block at the image's left edge: the row above
/// it for a mean that has one, else a constant that takes in the corner.
pub fn fixup_left(buf: &mut Vec<u8>, p: usize, s: usize, width: usize, row: usize, mode: i32)
    requires
        block_ok(old(buf)@.len(), p as int, s as int, width as int),
        1 <= width <= 16,
    ensures
        final(buf)@ == left_fixed(
            old(buf)@,
            p as int,
            s as int,
            width as int,
            row as int,
            mode as int,
        ),
{
    if mode == DC_PRED && row > 0 {
        let mut vals: Vec<u8> = Vec::new();
        let mut i: usize = 0;
        while i < width
            invariant
                i <= width,
                buf@ == old(buf)@,
                block_ok(buf@.len(), p as int, s as int, width as int),
                vals@.len() == i,
                forall|k: int| 0 <= k < i ==> #[trigger] vals@[k] == buf@[p - s + k],
            decreases width - i,
        {
            assert((width - 1) * s >= 0) by (nonlinear_arith)
                requires
                    width > 0,
            ;
            vals.push(buf[p - s + i]);
            i = i + 1;
        }
        assert(vals@ =~= Seq::new(width as nat, |i: int| buf@[p - s + i]));
        put_rect(buf, p - 1, s, 1, width, &vals);
    } else {
        let vals: Vec<u8> = repeated(129, width + 1);
        assert(width * s == (width - 1) * s + s) by (nonlinear_arith);
        put_rect(buf, p - 1 - s, s, 1, width + 1, &vals);
    }
}

/// A plane with the row above a block at the image's top edge filled in.
pub open spec fn above_fixed(buf: Seq<u8>, p: int, s: int, n: int, col: int, mode: int) -> Seq<u8> {
    let b = if mode == DC_PRED && col > 0 {
        put(buf, p - s, s, n, 1, Seq::new(n as nat, |i: int| buf[p - 1 + i * s]))
    } else {
        put(buf, p - s - 1, s, n + 1, 1, Seq::new((n + 1) as nat, |i: int| 127u8))
    };
    put(b, p - s + n, s, 4, 1, Seq::new(4, |i: int| 127u8))
}

/// Fill in the row above a block at the image's top edge: the column to its
/// left for a mean that has one, else a constant that takes in the corner; and
/// a constant in the four samples beyond it.
pub fn fixup_above(buf: &mut Vec<u8>, p: usize, s: usize, width: usize, col: usize, mode: i32)
    requires
        block_ok(old(buf)@.len(), p as int, s as int, width as int),
        4 <= width <= 16,
        s >= 4,
    ensures
        final(buf)@ == above_fixed(
            old(buf)@,
            p as int,
            s as int,
            width as int,
            col as int,
            mode as int,
        ),
{
    let len: usize = buf.len();
    proof {
        assert((width - 1) * s >= s) by (nonlinear_arith)
            requires
                width >= 2,
        ;
    }
    if mode == DC_PRED && col > 0 {
        let mut vals: Vec<u8> = Vec::new();
        let mut i: usize = 0;
        while i < width
            invariant
                i <= width,
                buf@ == old(buf)@,
                len == buf@.len(),
                block_ok(buf@.len(), p as int, s as int, width as int),
                vals@.len() == i,
                forall|k: int| 0 <= k < i ==> #[trigger] vals@[k] == buf@[p - 1 + k * s],
            decreases width - i,
        {
            assert(0 <= i * s <= (width - 1) * s) by (nonlinear_arith)
                requires
                    i <= width - 1,
            ;
            vals.push(buf[p - 1 + i * s]);
            i = i + 1;
        }
        assert(vals@ =~= Seq::new(width as nat, |i: int| buf@[p - 1 + i * s]));
        put_rect(buf, p - s, s, width, 1, &vals);
    } else {
        let vals: Vec<u8> = repeated(127, width + 1);
        put_rect(buf, p - s - 1, s, width + 1, 1, &vals);
    }
    let vals: Vec<u8> = repeated(127, 4);
    put_rect(buf, p - s + width, s, 4, 1, &vals);
}

// ── subblocks ───────────────────────────────────────────────────────────────

/// The samples around a subblock: four to the left from the bottom up, the
/// corner, eight above.
pub open spec fn edge_of(buf: Seq<u8>, p: int, s: int) -> Seq<u8> {
    Seq::new(
        13,
        |k: int|
            if k < 4 {
                buf[p + (3 - k) * s - 1]
            } else {
                buf[p - s + (k - 5)]
            },
    )
}

/// The rounded mean of two samples of the edge.
pub open spec fn mean2(e: Seq<u8>, k: int) -> u8 {
    ((e[k] + e[k + 1] + 1) / 2) as u8
}

/// The rounded mean of three samples of the edge, the middle one twice.
pub open spec fn mean3(e: Seq<u8>, k: int) -> u8 {
    ((e[k] + 2 * e[k + 1] + e[k + 2] + 2) / 4) as u8
}

/// Vertical, smoothed.
pub open spec fn grid_ve(e: Seq<u8>) -> Seq<u8> {
    Seq::new(16, |k: int| mean3(e, 4 + k % 4))
}

/// Horizontal, smoothed.
pub open spec fn grid_he(e: Seq<u8>) -> Seq<u8> {
    Seq::new(
        16,
        |k: int|
            if k / 4 == 3 {
                ((e[1] + 2 * e[0] + e[0] + 2) / 4) as u8
            } else {
                mean3(e, 2 - k / 4)
            },
    )
}

/// Down and to the left, from the row above.
pub open spec fn grid_ld(e: Seq<u8>) -> Seq<u8> {
    Seq::new(
        16,
        |k: int|
            if k == 15 {
                ((e[11] + 2 * e[12] + e[12] + 2) / 4) as u8
            } else {
                mean3(e, 5 + k / 4 + k % 4)
            },
    )
}

/// Down and to the right, along the edge.
pub open spec fn grid_rd(e: Seq<u8>) -> Seq<u8> {
    Seq::new(16, |k: int| mean3(e, 3 - k / 4 + k % 4))
}

/// Steeply down and to the right.
pub open spec fn grid_vr(e: Seq<u8>) -> Seq<u8> {
    seq![mean2(e, 4), mean2(e, 5), mean2(e, 6), mean2(e, 7)] + seq![
        mean3(e, 3),
        mean3(e, 4),
        mean3(e, 5),
        mean3(e, 6),
    ] + seq![mean3(e, 2), mean2(e, 4), mean2(e, 5), mean2(e, 6)] + seq![
        mean3(e, 1),
        mean3(e, 3),
        mean3(e, 4),
        mean3(e, 5),
    ]
}

/// Steeply down and to the left.
pub open spec fn grid_vl(e: Seq<u8>) -> Seq<u8> {
    seq![mean2(e, 5), mean2(e, 6), mean2(e, 7), mean2(e, 8)] + seq![
        mean3(e, 5),
        mean3(e, 6),
        mean3(e, 7),
        mean3(e, 8),
    ] + seq![mean2(e, 6), mean2(e, 7), mean2(e, 8), mean3(e, 9)] + seq![
        mean3(e, 6),
        mean3(e, 7),
        mean3(e, 8),
        mean3(e, 10),
    ]
}

/// Shallowly down and to the right.
pub open spec fn grid_hd(e: Seq<u8>) -> Seq<u8> {
    seq![mean2(e, 3), mean3(e, 3), mean3(e, 4), mean3(e, 5)] + seq![
        mean2(e, 2),
        mean3(e, 2),
        mean2(e, 3),
        mean3(e, 3),
    ] + seq![mean2(e, 1), mean3(e, 1), mean2(e, 2), mean3(e, 2)] + seq![
        mean2(e, 0),
        mean3(e, 0),
        mean2(e, 1),
        mean3(e, 1),
    ]
}

/// Shallowly up and to the right, from the left column.
pub open spec fn grid_hu(e: Seq<u8>) -> Seq<u8> {
    let last = ((e[1] + 2 * e[0] + e[0] + 2) / 4) as u8;
    seq![mean2(e, 2), mean3(e, 1), mean2(e, 1), mean3(e, 0)] + seq![
        mean2(e, 1),
        mean3(e, 0),
        mean2(e, 0),
        last,
    ] + seq![mean2(e, 0), last, e[0], e[0]] + seq![e[0], e[0], e[0], e[0]]
}

/// The prediction of a subblock.
pub open spec fn subblock_prediction(buf: Seq<u8>, p: int, s: int, mode: u8) -> Seq<u8> {
    let e = edge_of(buf, p, s);
    if mode == B_DC_PRED {
        block_prediction(buf, p, s, 4, DC_PRED as int)
    } else if mode == B_TM_PRED {
        block_prediction(buf, p, s, 4, TM_PRED as int)
    } else if mode == B_VE_PRED {
        grid_ve(e)
    } else if mode == B_HE_PRED {
        grid_he(e)
    } else if mode == B_LD_PRED {
        grid_ld(e)
    } else if mode == B_RD_PRED {
        grid_rd(e)
    } else if mode == B_VR_PRED {
        grid_vr(e)
    } else if mode == B_VL_PRED {
        grid_vl(e)
    } else if mode == B_HD_PRED {
        grid_hd(e)
    } else {
        grid_hu(e)
    }
}

/// The rounded mean of three numbers, the middle one twice.
pub fn avg3(a: u8, b: u8, c: u8) -> (r: u8)
    ensures
        r == ((a + 2 * b + c + 2) / 4) as u8,
{
    ((a as u32 + 2 * b as u32 + c as u32 + 2) / 4) as u8
}

/// The rounded mean of two numbers.
pub fn avg2(a: u8, b: u8) -> (r: u8)
    ensures
        r == ((a + b + 1) / 2) as u8,
{
    ((a as u32 + b as u32 + 1) / 2) as u8
}

fn read_edge(buf: &Vec<u8>, p: usize, s: usize) -> (e: Vec<u8>)
    requires
        block_ok(buf@.len(), p as int, s as int, 4),
    ensures
        e@ == edge_of(buf@, p as int, s as int),
{
    let len: usize = buf.len();
    let mut e: Vec<u8> = Vec::new();
    e.push(buf[p + 3 * s - 1]);
    e.push(buf[p + 2 * s - 1]);
    e.push(buf[p + s - 1]);
    e.push(buf[p - 1]);
    let mut k: usize = 0;
    proof {
        let t = edge_of(buf@, p as int, s as int);
        assert((3 - 0) * s == 3 * s && (3 - 1) * s == 2 * s && (3 - 2) * s == s && (3 - 3) * s
            == 0);
        assert(t[0] == e@[0] && t[1] == e@[1] && t[2] == e@[2] && t[3] == e@[3]);
    }
    while k < 9
        invariant
            k <= 9,
            len == buf@.len(),
            block_ok(buf@.len(), p as int, s as int, 4),
            e@.len() == 4 + k,
            forall|j: int|
                0 <= j < 4 + k ==> #[trigger] e@[j] == edge_of(buf@, p as int, s as int)[j],
        decreases 9 - k,
    {
        e.push(buf[p - s - 1 + k]);
        k = k + 1;
    }
    assert(e@ =~= edge_of(buf@, p as int, s as int));
    e
}

fn mean_of_3(e: &Vec<u8>, k: usize) -> (r: u8)
    requires
        e@.len() == 13,
        k <= 10,
    ensures
        r == mean3(e@, k as int),
{
    avg3(e[k], e[k + 1], e[k + 2])
}

fn mean_of_2(e: &Vec<u8>, k: usize) -> (r: u8)
    requires
        e@.len() == 13,
        k <= 11,
    ensures
        r == mean2(e@, k as int),
{
    avg2(e[k], e[k + 1])
}

fn rows(a: [u8; 4], b: [u8; 4], c: [u8; 4], d: [u8; 4]) -> (v: Vec<u8>)
    ensures
        v@ == a@ + b@ + c@ + d@,
{
    let mut v: Vec<u8> = Vec::new();
    let mut k: usize = 0;
    while k < 16
        invariant
            k <= 16,
            v@.len() == k,
            forall|j: int| 0 <= j < k ==> #[trigger] v@[j] == (a@ + b@ + c@ + d@)[j],
        decreases 16 - k,
    {
        v.push(
            if k < 4 {
                a[k]
            } else if k < 8 {
                b[k - 4]
            } else if k < 12 {
                c[k - 8]
            } else {
                d[k - 12]
            },
        );
        k = k + 1;
    }
    assert(v@ =~= a@ + b@ + c@ + d@);
    v
}

/// Predict a subblock by the mean of its edge.
pub fn pred4_dc(buf: &mut Vec<u8>, p: usize, s: usize)
    requires
        block_ok(old(buf)@.len(), p as int, s as int, 4),
    ensures
        final(buf)@ == put(
            old(buf)@,
            p as int,
            s as int,
            4,
            4,
            subblock_prediction(old(buf)@, p as int, s as int, B_DC_PRED),
        ),
{
    predict_block(buf, p, s, 4, DC_PRED);
}

/// Predict a subblock by the gradient of its edge.
pub fn pred4_tm(buf: &mut Vec<u8>, p: usize, s: usize)
    requires
        block_ok(old(buf)@.len(), p as int, s as int, 4),
    ensures
        final(buf)@ == put(
            old(buf)@,
            p as int,
            s as int,
            4,
            4,
            subblock_prediction(old(buf)@, p as int, s as int, B_TM_PRED),
        ),
{
    predict_block(buf, p, s, 4, TM_PRED);
}

/// Predict a subblock by the smoothed row above.
pub fn pred4_ve(buf: &mut Vec<u8>, p: usize, s: usize)
    requires
        block_ok(old(buf)@.len(), p as int, s as int, 4),
    ensures
        final(buf)@ == put(
            old(buf)@,
            p as int,
            s as int,
            4,
            4,
            subblock_prediction(old(buf)@, p as int, s as int, B_VE_PRED),
        ),
{
    let e: Vec<u8> = read_edge(buf, p, s);
    let r: [u8; 4] = [mean_of_3(&e, 4), mean_of_3(&e, 5), mean_of_3(&e, 6), mean_of_3(&e, 7)];
    let vals: Vec<u8> = rows(r, r, r, r);
    assert(vals@ =~= grid_ve(e@));
    put_rect(buf, p, s, 4, 4, &vals);
}

/// Predict a subblock by the smoothed column to the left.
pub fn pred4_he(buf: &mut Vec<u8>, p: usize, s: usize)
    requires
        block_ok(old(buf)@.len(), p as int, s as int, 4),
    ensures
        final(buf)@ == put(
            old(buf)@,
            p as int,
            s as int,
            4,
            4,
            subblock_prediction(old(buf)@, p as int, s as int, B_HE_PRED),
        ),
{
    let e: Vec<u8> = read_edge(buf, p, s);
    let v0: u8 = mean_of_3(&e, 2);
    let v1: u8 = mean_of_3(&e, 1);
    let v2: u8 = mean_of_3(&e, 0);
    let v3: u8 = avg3(e[1], e[0], e[0]);
    let vals: Vec<u8> = rows(
        [v0, v0, v0, v0],
        [v1, v1, v1, v1],
        [v2, v2, v2, v2],
        [v3, v3, v3, v3],
    );
    assert(vals@ =~= grid_he(e@));
    put_rect(buf, p, s, 4, 4, &vals);
}

/// Predict a subblock along the diagonal down to the left.
pub fn pred4_ld(buf: &mut Vec<u8>, p: usize, s: usize)
    requires
        block_ok(old(buf)@.len(), p as int, s as int, 4),
    ensures
        final(buf)@ == put(
            old(buf)@,
            p as int,
            s as int,
            4,
            4,
            subblock_prediction(old(buf)@, p as int, s as int, B_LD_PRED),
        ),
{
    let e: Vec<u8> = read_edge(buf, p, s);
    let p0: u8 = mean_of_3(&e, 5);
    let p1: u8 = mean_of_3(&e, 6);
    let p2: u8 = mean_of_3(&e, 7);
    let p3: u8 = mean_of_3(&e, 8);
    let p4: u8 = mean_of_3(&e, 9);
    let p5: u8 = mean_of_3(&e, 10);
    let p6: u8 = avg3(e[11], e[12], e[12]);
    let vals: Vec<u8> = rows([p0, p1, p2, p3], [p1, p2, p3, p4], [p2, p3, p4, p5], [p3, p4, p5, p6]);
    assert(vals@ =~= grid_ld(e@));
    put_rect(buf, p, s, 4, 4, &vals);
}

/// Predict a subblock along the diagonal down to the right.
pub fn pred4_rd(buf: &mut Vec<u8>, p: usize, s: usize)
    requires
        block_ok(old(buf)@.len(), p as int, s as int, 4),
    ensures
        final(buf)@ == put(
            old(buf)@,
            p as int,
            s as int,
            4,
            4,
            subblock_prediction(old(buf)@, p as int, s as int, B_RD_PRED),
        ),
{
    let e: Vec<u8> = read_edge(buf, p, s);
    let p0: u8 = mean_of_3(&e, 0);
    let p1: u8 = mean_of_3(&e, 1);
    let p2: u8 = mean_of_3(&e, 2);
    let p3: u8 = mean_of_3(&e, 3);
    let p4: u8 = mean_of_3(&e, 4);
    let p5: u8 = mean_of_3(&e, 5);
    let p6: u8 = mean_of_3(&e, 6);
    let vals: Vec<u8> = rows([p3, p4, p5, p6], [p2, p3, p4, p5], [p1, p2, p3, p4], [p0, p1, p2, p3]);
    assert(vals@ =~= grid_rd(e@));
    put_rect(buf, p, s, 4, 4, &vals);
}

/// Predict a subblock steeply down to the right.
pub fn pred4_vr(buf: &mut Vec<u8>, p: usize, s: usize)
    requires
        block_ok(old(buf)@.len(), p as int, s as int, 4),
    ensures
        final(buf)@ == put(
            old(buf)@,
            p as int,
            s as int,
            4,
            4,
            subblock_prediction(old(buf)@, p as int, s as int, B_VR_PRED),
        ),
{
    let e: Vec<u8> = read_edge(buf, p, s);
    let p0: u8 = mean_of_2(&e, 4);
    let p1: u8 = mean_of_2(&e, 5);
    let p2: u8 = mean_of_2(&e, 6);
    let p3: u8 = mean_of_2(&e, 7);
    let p4: u8 = mean_of_3(&e, 3);
    let p5: u8 = mean_of_3(&e, 4);
    let p6: u8 = mean_of_3(&e, 5);
    let p7: u8 = mean_of_3(&e, 6);
    let p8: u8 = mean_of_3(&e, 2);
    let p9: u8 = mean_of_3(&e, 1);
    let vals: Vec<u8> = rows([p0, p1, p2, p3], [p4, p5, p6, p7], [p8, p0, p1, p2], [p9, p4, p5, p6]);
    assert(vals@ =~= grid_vr(e@));
    put_rect(buf, p, s, 4, 4, &vals);
}

/// Predict a subblock steeply down to the left.
pub fn pred4_vl(buf: &mut Vec<u8>, p: usize, s: usize)
    requires
        block_ok(old(buf)@.len(), p as int, s as int, 4),
    ensures
        final(buf)@ == put(
            old(buf)@,
            p as int,
            s as int,
            4,
            4,
            subblock_prediction(old(buf)@, p as int, s as int, B_VL_PRED),
        ),
{
    let e: Vec<u8> = read_edge(buf, p, s);
    let p0: u8 = mean_of_2(&e, 5);
    let p1: u8 = mean_of_2(&e, 6);
    let p2: u8 = mean_of_2(&e, 7);
    let p3: u8 = mean_of_2(&e, 8);
    let p4: u8 = mean_of_3(&e, 5);
    let p5: u8 = mean_of_3(&e, 6);
    let p6: u8 = mean_of_3(&e, 7);
    let p7: u8 = mean_of_3(&e, 8);
    let p8: u8 = mean_of_3(&e, 9);
    let p9: u8 = mean_of_3(&e, 10);
    let vals: Vec<u8> = rows([p0, p1, p2, p3], [p4, p5, p6, p7], [p1, p2, p3, p8], [p5, p6, p7, p9]);
    assert(vals@ =~= grid_vl(e@));
    put_rect(buf, p, s, 4, 4, &vals);
}

/// Predict a subblock shallowly down to the right.
pub fn pred4_hd(buf: &mut Vec<u8>, p: usize, s: usize)
    requires
        block_ok(old(buf)@.len(), p as int, s as int, 4),
    ensures
        final(buf)@ == put(
            old(buf)@,
            p as int,
            s as int,
            4,
            4,
            subblock_prediction(old(buf)@, p as int, s as int, B_HD_PRED),
        ),
{
    let e: Vec<u8> = read_edge(buf, p, s);
    let p0: u8 = mean_of_2(&e, 3);
    let p1: u8 = mean_of_3(&e, 3);
    let p2: u8 = mean_of_3(&e, 4);
    let p3: u8 = mean_of_3(&e, 5);
    let p4: u8 = mean_of_2(&e, 2);
    let p5: u8 = mean_of_3(&e, 2);
    let p6: u8 = mean_of_2(&e, 1);
    let p7: u8 = mean_of_3(&e, 1);
    let p8: u8 = mean_of_2(&e, 0);
    let p9: u8 = mean_of_3(&e, 0);
    let vals: Vec<u8> = rows([p0, p1, p2, p3], [p4, p5, p0, p1], [p6, p7, p4, p5], [p8, p9, p6, p7]);
    assert(vals@ =~= grid_hd(e@));
    put_rect(buf, p, s, 4, 4, &vals);
}

/// Predict a subblock shallowly up to the right.
pub fn pred4_hu(buf: &mut Vec<u8>, p: usize, s: usize)
    requires
        block_ok(old(buf)@.len(), p as int, s as int, 4),
    ensures
        final(buf)@ == put(
            old(buf)@,
            p as int,
            s as int,
            4,
            4,
            subblock_prediction(old(buf)@, p as int, s as int, B_HU_PRED),
        ),
{
    let e: Vec<u8> = read_edge(buf, p, s);
    let p0: u8 = mean_of_2(&e, 2);
    let p1: u8 = mean_of_3(&e, 1);
    let p2: u8 = mean_of_2(&e, 1);
    let p3: u8 = mean_of_3(&e, 0);
    let p4: u8 = mean_of_2(&e, 0);
    let p5: u8 = avg3(e[1], e[0], e[0]);
    let p6: u8 = e[0];
    let vals: Vec<u8> = rows([p0, p1, p2, p3], [p2, p3, p4, p5], [p4, p5, p6, p6], [p6, p6, p6, p6]);
    assert(vals@ =~= grid_hu(e@));
    put_rect(buf, p, s, 4, 4, &vals);
}

// ── a macroblock, subblock by subblock ──────────────────────────────────────

/// The first sample of subblock `i` of the macroblock at `p`.
pub open spec fn subblock_at(p: int, s: int, i: int) -> int {
    p + (i / 4) * (4 * s) + (i % 4) * 4
}

/// The row above and to the right of a macroblock, repeated beside the lower
/// rows of its subblocks.
pub open spec fn carried_down(buf: Seq<u8>, p: int, s: int) -> Seq<u8> {
    let v = Seq::new(4, |k: int| buf[p - s + 16 + k]);
    let b1 = put(buf, p + 3 * s + 16, s, 4, 1, v);
    let b2 = put(b1, p + 7 * s + 16, s, 4, 1, v);
    put(b2, p + 11 * s + 16, s, 4, 1, v)
}

/// The plane once the first `n` subblocks are predicted and their residues
/// added.
pub open spec fn subblocks_done(
    buf: Seq<u8>,
    p: int,
    s: int,
    modes: Seq<u8>,
    coeffs: Seq<i32>,
    n: int,
) -> Seq<u8>
    decreases n,
{
    if n <= 0 {
        carried_down(buf, p, s)
    } else {
        let b = subblocks_done(buf, p, s, modes, coeffs, n - 1);
        let q = subblock_at(p, s, n - 1);
        let b1 = put(b, q, s, 4, 4, subblock_prediction(b, q, s, modes[n - 1]));
        added(b1, q, s, coeffs.subrange(16 * (n - 1), 16 * n))
    }
}

fn predict_subblock(buf: &mut Vec<u8>, p: usize, s: usize, mode: u8)
    requires
        block_ok(old(buf)@.len(), p as int, s as int, 4),
    ensures
        final(buf)@ == put(
            old(buf)@,
            p as int,
            s as int,
            4,
            4,
            subblock_prediction(old(buf)@, p as int, s as int, mode),
        ),
{
    match mode {
        0 => pred4_dc(buf, p, s),
        1 => pred4_tm(buf, p, s),
        2 => pred4_ve(buf, p, s),
        3 => pred4_he(buf, p, s),
        4 => pred4_ld(buf, p, s),
        5 => pred4_rd(buf, p, s),
        6 => pred4_vr(buf, p, s),
        7 => pred4_vl(buf, p, s),
        8 => pred4_hd(buf, p, s),
        _ => {
            assert(subblock_prediction(buf@, p as int, s as int, mode) == subblock_prediction(
                buf@,
                p as int,
                s as int,
                B_HU_PRED,
            ));
            pred4_hu(buf, p, s)
        },
    }
}

/// Predict and reconstruct a macroblock subblock by subblock.
pub fn b_pred(buf: &mut Vec<u8>, p: usize, s: usize, modes: &[u8; 16], coeffs: &[i32])
    requires
        s >= 21,
        p > s,
        p + 15 * s + 20 <= old(buf)@.len(),
        coeffs@.len() >= 256,
        coeffs_ok(coeffs@),
    ensures
        final(buf)@ == subblocks_done(old(buf)@, p as int, s as int, modes@, coeffs@, 16),
        final(buf)@.len() == old(buf)@.len(),
{
    let ghost b0 = buf@;
    let len: usize = buf.len();
    let mut vals: Vec<u8> = Vec::new();
    vals.push(buf[p - s + 16]);
    vals.push(buf[p - s + 17]);
    vals.push(buf[p - s + 18]);
    vals.push(buf[p - s + 19]);
    assert(vals@ =~= Seq::new(4, |k: int| b0[p - s + 16 + k]));
    put_rect(buf, p + 3 * s + 16, s, 4, 1, &vals);
    put_rect(buf, p + 7 * s + 16, s, 4, 1, &vals);
    put_rect(buf, p + 11 * s + 16, s, 4, 1, &vals);
    let mut i: usize = 0;
    while i < 16
        invariant
            i <= 16,
            s >= 21,
            p > s,
            p + 15 * s + 20 <= len,
            len == buf@.len(),
            coeffs@.len() >= 256,
            coeffs_ok(coeffs@),
            buf@ == subblocks_done(b0, p as int, s as int, modes@, coeffs@, i as int),
        decreases 16 - i,
    {
        proof {
            let r = (i / 4) as int;
            assert(0 <= r * (4 * s) <= 12 * s) by (nonlinear_arith)
                requires
                    0 <= r <= 3,
            ;
        }
        let q: usize = p + (i / 4) * (4 * s) + (i % 4) * 4;
        predict_subblock(buf, q, s, modes[i]);
        let c: &[i32] = slice_subrange(coeffs, 16 * i, 16 * i + 16);
        assert(coeffs_ok(c@)) by {
            assert forall|k: int| 0 <= k < c@.len() implies -super::dct::MAX_COEFF <= #[trigger] c@[k]
                <= super::dct::MAX_COEFF by {
                assert(c@[k] == coeffs@[16 * i + k]);
            }
        }
        idct_add(buf, q, s, c);
        i = i + 1;
    }
}

/// Predicting a subblock changes no sample outside it.
pub proof fn law_prediction_stays_inside(buf: Seq<u8>, p: int, s: int, mode: u8, k: int)
    requires
        block_ok(buf.len(), p, s, 4),
        0 <= k < buf.len(),
        !super::plane::in_rect(k, p, s, 4, 4),
    ensures
        put(buf, p, s, 4, 4, subblock_prediction(buf, p, s, mode))[k] == buf[k],
{
}

} // verus!
