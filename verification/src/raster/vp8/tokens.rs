//! The coefficients of macroblocks.
use super::arith::{bit, Arith, Bool};
use super::dct::{coeffs_ok, iwht, wht, MAX_AVERAGE, MAX_COEFF};
use super::predict::B_PRED;
use vstd::prelude::*;
use vstd::slice::slice_subrange;

verus! {

/// Coefficient scan order.
pub const ZIGZAG: [usize; 16] = [0, 1, 4, 8, 5, 2, 3, 6, 9, 12, 13, 10, 7, 11, 14, 15];

/// The probability band of each scan position.
pub const COEFF_BANDS: [usize; 16] = [0, 1, 2, 3, 6, 4, 5, 6, 6, 6, 6, 6, 6, 6, 6, 7];

/// The smallest value of each category of large values.
pub const CAT_BASE: [i32; 6] = [5, 7, 11, 19, 35, 67];

/// Where the extra bits of each category stand in `CAT_PROBS`.
pub const CAT_START: [usize; 6] = [0, 1, 3, 6, 10, 15];

/// How many extra bits each category has.
pub const CAT_BITS: [usize; 6] = [1, 2, 3, 4, 5, 11];

/// The probabilities of the extra bits, from the low bit of each category up.
pub const CAT_PROBS: [u8; 26] = [
    159, 145, 165, 140, 148, 173, 135, 140, 155, 176, 130, 134, 141, 157, 180, 129, 130, 133, 140,
    153, 177, 196, 230, 243, 254, 254,
];

/// Which left context each of the 25 blocks of a macroblock uses.
pub const LEFT_CTX: [usize; 25] = [
    0, 0, 0, 0, 1, 1, 1, 1, 2, 2, 2, 2, 3, 3, 3, 3, 4, 4, 5, 5, 6, 6, 7, 7, 8,
];

/// Which context above each block uses.
pub const ABOVE_CTX: [usize; 25] = [
    0, 1, 2, 3, 0, 1, 2, 3, 0, 1, 2, 3, 0, 1, 2, 3, 4, 5, 4, 5, 6, 7, 6, 7, 8,
];

/// The factors that coefficients are multiplied by.
#[derive(Clone, Copy)]
pub struct Dequant {
    pub y1_dc: i32,
    pub y1_ac: i32,
    pub y2_dc: i32,
    pub y2_ac: i32,
    pub uv_dc: i32,
    pub uv_ac: i32,
}

pub open spec fn factor_ok(v: i32) -> bool {
    0 <= v <= 480
}

pub open spec fn dequant_ok(d: Dequant) -> bool {
    &&& factor_ok(d.y1_dc)
    &&& factor_ok(d.y1_ac)
    &&& factor_ok(d.y2_dc)
    &&& factor_ok(d.y2_ac)
    &&& factor_ok(d.uv_dc)
    &&& factor_ok(d.uv_ac)
}

// ── values ──────────────────────────────────────────────────────────────────

pub open spec fn as_int(b: bool) -> int {
    if b {
        1
    } else {
        0
    }
}

/// The `n` extra bits of a category, high bit first.
pub open spec fn extra(a: Arith, cat: int, n: nat) -> (int, Arith)
    decreases n,
{
    if n == 0 {
        (0, a)
    } else {
        let (b, a1) = bit(a, CAT_PROBS@[CAT_START@[cat] + n - 1]);
        let (v, a2) = extra(a1, cat, (n - 1) as nat);
        (as_int(b) * vstd::arithmetic::power2::pow2((n - 1) as nat) + v, a2)
    }
}

/// A value of a category.
pub open spec fn category(a: Arith, cat: int) -> (int, Arith) {
    let (v, a1) = extra(a, cat, CAT_BITS@[cat] as nat);
    (CAT_BASE@[cat] + v, a1)
}

/// A value above one; `p` is where the probabilities of its tree start.
pub open spec fn large_value(a: Arith, probs: Seq<u8>, p: int) -> (int, Arith) {
    let (b3, a3) = bit(a, probs[p + 3]);
    if !b3 {
        let (b4, a4) = bit(a3, probs[p + 4]);
        if !b4 {
            (2, a4)
        } else {
            let (b5, a5) = bit(a4, probs[p + 5]);
            (3 + as_int(b5), a5)
        }
    } else {
        let (b6, a6) = bit(a3, probs[p + 6]);
        if !b6 {
            let (b7, a7) = bit(a6, probs[p + 7]);
            category(a7, as_int(b7))
        } else {
            let (b8, a8) = bit(a6, probs[p + 8]);
            if !b8 {
                let (b9, a9) = bit(a8, probs[p + 9]);
                category(a9, 2 + as_int(b9))
            } else {
                let (b10, a10) = bit(a8, probs[p + 10]);
                category(a10, 4 + as_int(b10))
            }
        }
    }
}

/// A value that is not zero, with its sign; and whether it is above one.
pub open spec fn signed_value(a: Arith, probs: Seq<u8>, p: int) -> (int, bool, Arith) {
    let (b2, a2) = bit(a, probs[p + 2]);
    let (v, a3) = if !b2 {
        (1, a2)
    } else {
        large_value(a2, probs, p)
    };
    let (neg, a4) = bit(a3, 128);
    (if neg {
        -v
    } else {
        v
    }, b2, a4)
}

/// Where the probabilities of a block type, band and context start.
pub open spec fn node(typ: int, band: int, ctx: int) -> int {
    ((typ * 8 + band) * 3 + ctx) * 11
}

/// A block that was read: the decoder, the coefficients, and whether one that is
/// not zero was written.
pub ghost struct BlockState {
    pub a: Arith,
    pub coeffs: Seq<i32>,
    pub wrote: bool,
}

/// Read the coefficients of a block from scan position `c` on. `at` is where
/// they go; `more` says that an end of block cannot come next.
pub open spec fn block_from(
    a: Arith,
    probs: Seq<u8>,
    typ: int,
    ctx: int,
    c: int,
    more: bool,
    dc: int,
    ac: int,
    coeffs: Seq<i32>,
    at: int,
) -> BlockState
    decreases 16 - c,
{
    if c < 0 || c >= 16 {
        BlockState { a, coeffs, wrote: false }
    } else {
        let p = node(typ, COEFF_BANDS@[c] as int, ctx);
        let (b0, a0) = if more {
            (true, a)
        } else {
            bit(a, probs[p])
        };
        if !b0 {
            BlockState { a: a0, coeffs, wrote: false }
        } else {
            let (b1, a1) = bit(a0, probs[p + 1]);
            if !b1 {
                block_from(a1, probs, typ, 0, c + 1, true, dc, ac, coeffs, at)
            } else {
                let (v, large, a2) = signed_value(a1, probs, p);
                let w = v * (if c == 0 {
                    dc
                } else {
                    ac
                });
                let r = block_from(
                    a2,
                    probs,
                    typ,
                    1 + as_int(large),
                    c + 1,
                    false,
                    dc,
                    ac,
                    coeffs.update(at + ZIGZAG@[c], w as i32),
                    at,
                );
                BlockState { wrote: w != 0 || r.wrote, ..r }
            }
        }
    }
}

proof fn lemma_large_value(a: Arith, probs: Seq<u8>, p: int)
    ensures
        1 <= large_value(a, probs, p).0 <= 2114,
{
    let (b3, a3) = bit(a, probs[p + 3]);
    if b3 {
        let (b6, a6) = bit(a3, probs[p + 6]);
        let (b7, a7) = bit(a6, probs[p + 7]);
        lemma_category(a7, as_int(b7));
        let (b8, a8) = bit(a6, probs[p + 8]);
        let (b9, a9) = bit(a8, probs[p + 9]);
        lemma_category(a9, 2 + as_int(b9));
        let (b10, a10) = bit(a8, probs[p + 10]);
        lemma_category(a10, 4 + as_int(b10));
    }
}

proof fn lemma_category(a: Arith, cat: int)
    requires
        0 <= cat < 6,
    ensures
        1 <= category(a, cat).0 <= 2114,
{
    lemma_extra(a, cat, CAT_BITS@[cat] as nat);
    vstd::arithmetic::power2::lemma2_to64();
}

/// What a block writes: it lies at scan positions from `c` on, and the flag says
/// whether something there is not zero.
proof fn lemma_block(
    a: Arith,
    probs: Seq<u8>,
    typ: int,
    ctx: int,
    c: int,
    more: bool,
    dc: int,
    ac: int,
    coeffs: Seq<i32>,
    at: int,
)
    requires
        0 <= c <= 16,
        1 <= dc <= 480,
        1 <= ac <= 480,
        0 <= at,
        at + 16 <= coeffs.len(),
        forall|j: int| c <= j < 16 ==> coeffs[at + #[trigger] ZIGZAG@[j]] == 0,
    ensures
        ({
            let r = block_from(a, probs, typ, ctx, c, more, dc, ac, coeffs, at);
            &&& r.coeffs.len() == coeffs.len()
            &&& forall|j: int|
                0 <= j < c && j < 16 ==> r.coeffs[at + #[trigger] ZIGZAG@[j]] == coeffs[at
                    + ZIGZAG@[j]]
            &&& r.wrote <==> exists|j: int|
                c <= j < 16 && r.coeffs[at + #[trigger] ZIGZAG@[j]] != 0
        }),
    decreases 16 - c,
{
    if c < 16 {
        let r = block_from(a, probs, typ, ctx, c, more, dc, ac, coeffs, at);
        let p = node(typ, COEFF_BANDS@[c] as int, ctx);
        let (b0, a0) = if more {
            (true, a)
        } else {
            bit(a, probs[p])
        };
        let (b1, a1) = bit(a0, probs[p + 1]);
        if b0 && !b1 {
            lemma_block(a1, probs, typ, 0, c + 1, true, dc, ac, coeffs, at);
            assert(r.coeffs[at + ZIGZAG@[c]] == 0);
        } else if b0 {
            let (b2, a2) = bit(a1, probs[p + 2]);
            lemma_large_value(a2, probs, p);
            let (v, large, a3) = signed_value(a1, probs, p);
            let f = if c == 0 {
                dc
            } else {
                ac
            };
            assert(v * f != 0 && -(2114 * 480) <= v * f <= 2114 * 480) by (nonlinear_arith)
                requires
                    v != 0,
                    -2114 <= v <= 2114,
                    1 <= f <= 480,
            ;
            let z = at + ZIGZAG@[c];
            lemma_scan(c);
            let next = coeffs.update(z, (v * f) as i32);
            assert forall|j: int| 0 <= j < 16 && j != c implies next[at + #[trigger] ZIGZAG@[j]]
                == coeffs[at + ZIGZAG@[j]] by {
                lemma_scan(j);
            }
            lemma_block(a3, probs, typ, 1 + as_int(large), c + 1, false, dc, ac, next, at);
            assert(r.coeffs[at + ZIGZAG@[c]] == (v * f) as i32);
        } else {
            assert(r.coeffs == coeffs);
        }
    }
}

/// The scan position of each place in a block.
spec fn scan_of(k: int) -> int {
    seq![0int, 1, 5, 6, 2, 4, 7, 12, 3, 8, 11, 13, 9, 10, 14, 15][k]
}

/// The scan goes to each place once.
proof fn lemma_scan(j: int)
    requires
        0 <= j < 16,
    ensures
        0 <= ZIGZAG@[j] < 16,
        scan_of(ZIGZAG@[j] as int) == j,
        0 <= scan_of(j) < 16,
        ZIGZAG@[scan_of(j)] == j,
{
}

proof fn lemma_extra(a: Arith, cat: int, n: nat)
    ensures
        0 <= extra(a, cat, n).0 < vstd::arithmetic::power2::pow2(n),
    decreases n,
{
    vstd::arithmetic::power2::lemma_pow2_pos(n);
    if n > 0 {
        let (b, a1) = bit(a, CAT_PROBS@[CAT_START@[cat] + n - 1]);
        lemma_extra(a1, cat, (n - 1) as nat);
        vstd::arithmetic::power2::lemma_pow2_unfold(n);
        let p = vstd::arithmetic::power2::pow2((n - 1) as nat);
        assert(as_int(b) * p == if b {
            p as int
        } else {
            0
        }) by (nonlinear_arith)
            requires
                as_int(b) == if b {
                    1int
                } else {
                    0int
                },
        ;
    }
}

/// Read a value of a category.
pub fn read_cat(b: &mut Bool, cat: usize) -> (v: i32)
    requires
        old(b).wf(),
        cat < 6,
    ensures
        final(b).wf(),
        v == category(old(b)@, cat as int).0,
        final(b)@ == category(old(b)@, cat as int).1,
        1 <= v <= 2114,
{
    let ghost a = b@;
    let n: usize = CAT_BITS[cat];
    let start: usize = CAT_START[cat];
    proof {
        assert(start + n <= 26 && n <= 11);
        lemma_extra(a, cat as int, n as nat);
        vstd::arithmetic::power2::lemma2_to64();
    }
    let mut v: i32 = 0;
    let mut k: usize = n;
    while k > 0
        invariant
            k <= n <= 11,
            cat < 6,
            b.wf(),
            start == CAT_START@[cat as int],
            start + n <= 26,
            0 <= v,
            v + vstd::arithmetic::power2::pow2(k as nat) <= 2048,
            extra(a, cat as int, n as nat).0 == v + extra(b@, cat as int, k as nat).0,
            extra(a, cat as int, n as nat).1 == extra(b@, cat as int, k as nat).1,
        decreases k,
    {
        proof {
            vstd::arithmetic::power2::lemma2_to64();
            vstd::arithmetic::power2::lemma_pow2_unfold(k as nat);
            vstd::arithmetic::power2::lemma_pow2_pos((k - 1) as nat);
            vstd::arithmetic::power2::lemma_pow2_strictly_increases((k - 1) as nat, 11);
            vstd::bits::lemma_u32_shl_is_mul(1u32, (k - 1) as u32);
        }
        if b.get(CAT_PROBS[start + k - 1]) != 0 {
            v = v + (1u32 << (k - 1)) as i32;
        }
        k = k - 1;
    }
    CAT_BASE[cat] + v
}

fn read_large(b: &mut Bool, probs: &Vec<u8>, p: usize) -> (v: i32)
    requires
        old(b).wf(),
        p + 11 <= probs@.len(),
    ensures
        final(b).wf(),
        v == large_value(old(b)@, probs@, p as int).0,
        final(b)@ == large_value(old(b)@, probs@, p as int).1,
        1 <= v <= 2114,
{
    let len: usize = probs.len();
    if b.get(probs[p + 3]) == 0 {
        if b.get(probs[p + 4]) == 0 {
            2
        } else if b.get(probs[p + 5]) == 0 {
            3
        } else {
            4
        }
    } else if b.get(probs[p + 6]) == 0 {
        if b.get(probs[p + 7]) == 0 {
            read_cat(b, 0)
        } else {
            read_cat(b, 1)
        }
    } else if b.get(probs[p + 8]) == 0 {
        if b.get(probs[p + 9]) == 0 {
            read_cat(b, 2)
        } else {
            read_cat(b, 3)
        }
    } else if b.get(probs[p + 10]) == 0 {
        read_cat(b, 4)
    } else {
        read_cat(b, 5)
    }
}

fn read_value(b: &mut Bool, probs: &Vec<u8>, p: usize) -> (r: (i32, bool))
    requires
        old(b).wf(),
        p + 11 <= probs@.len(),
    ensures
        final(b).wf(),
        (r.0 as int, r.1, final(b)@) == signed_value(old(b)@, probs@, p as int),
        -2114 <= r.0 <= 2114,
{
    let len: usize = probs.len();
    let large: bool = b.get(probs[p + 2]) != 0;
    let v: i32 = if large {
        read_large(b, probs, p)
    } else {
        1
    };
    if b.flag() {
        (-v, large)
    } else {
        (v, large)
    }
}

/// Every coefficient lies within the bound.
pub open spec fn within(c: Seq<i32>, m: int) -> bool {
    forall|k: int| 0 <= k < c.len() ==> -m <= #[trigger] c[k] <= m
}

/// Read the coefficients of the block that starts at `at` in `coeffs`, from
/// scan position `first` on, and say whether one that is not zero was written.
pub fn decode_block(
    b: &mut Bool,
    probs: &Vec<u8>,
    typ: usize,
    ctx: usize,
    first: usize,
    dc: i32,
    ac: i32,
    coeffs: &mut Vec<i32>,
    at: usize,
) -> (nonzero: bool)
    requires
        old(b).wf(),
        probs@.len() == 1056,
        typ < 4,
        ctx < 3,
        first < 16,
        factor_ok(dc),
        factor_ok(ac),
        at + 16 <= old(coeffs)@.len(),
        within(old(coeffs)@, MAX_AVERAGE as int),
    ensures
        final(b).wf(),
        ({
            let r = block_from(
                old(b)@,
                probs@,
                typ as int,
                ctx as int,
                first as int,
                false,
                dc as int,
                ac as int,
                old(coeffs)@,
                at as int,
            );
            &&& final(b)@ == r.a
            &&& final(coeffs)@ == r.coeffs
            &&& nonzero == r.wrote
        }),
        final(coeffs)@.len() == old(coeffs)@.len(),
        within(final(coeffs)@, MAX_AVERAGE as int),
{
    let ghost goal = block_from(
        b@,
        probs@,
        typ as int,
        ctx as int,
        first as int,
        false,
        dc as int,
        ac as int,
        coeffs@,
        at as int,
    );
    let len: usize = coeffs.len();
    let mut cx: usize = ctx;
    let mut c: usize = first;
    let mut more: bool = false;
    let mut wrote: bool = false;
    while c < 16
        invariant
            first <= c <= 16,
            cx < 3,
            typ < 4,
            b.wf(),
            probs@.len() == 1056,
            factor_ok(dc),
            factor_ok(ac),
            len == old(coeffs)@.len(),
            at + 16 <= len,
            coeffs@.len() == len,
            within(coeffs@, MAX_AVERAGE as int),
            goal == block_from(
                old(b)@,
                probs@,
                typ as int,
                ctx as int,
                first as int,
                false,
                dc as int,
                ac as int,
                old(coeffs)@,
                at as int,
            ),
            ({
                let r = block_from(
                    b@,
                    probs@,
                    typ as int,
                    cx as int,
                    c as int,
                    more,
                    dc as int,
                    ac as int,
                    coeffs@,
                    at as int,
                );
                &&& goal.a == r.a
                &&& goal.coeffs == r.coeffs
                &&& goal.wrote == (wrote || r.wrote)
            }),
        decreases 16 - c,
    {
        let band: usize = COEFF_BANDS[c];
        assert(band < 8);
        let p: usize = ((typ * 8 + band) * 3 + cx) * 11;
        assert(p == node(typ as int, band as int, cx as int));
        if !more {
            if b.get(probs[p]) == 0 {
                return wrote;
            }
        }
        if b.get(probs[p + 1]) == 0 {
            cx = 0;
            more = true;
        } else {
            let (v, large): (i32, bool) = read_value(b, probs, p);
            let f: i32 = if c == 0 {
                dc
            } else {
                ac
            };
            proof {
                assert(-(2114 * 480) <= v * f <= 2114 * 480) by (nonlinear_arith)
                    requires
                        -2114 <= v <= 2114,
                        0 <= f <= 480,
                ;
            }
            let z: usize = ZIGZAG[c];
            assert(z < 16);
            let w: i32 = v * f;
            coeffs.set(at + z, w);
            wrote = wrote || w != 0;
            cx = if large {
                2
            } else {
                1
            };
            more = false;
        }
        c = c + 1;
    }
    wrote
}

/// The flag of a block says what its coefficients are: of a block that was
/// clear, with factors above zero, it is set just where one is not zero. What
/// stands before the first scan position stays clear.
pub proof fn law_flag_tells_coefficients(
    a: Arith,
    probs: Seq<u8>,
    typ: int,
    ctx: int,
    first: int,
    dc: int,
    ac: int,
    coeffs: Seq<i32>,
    at: int,
)
    requires
        0 <= first < 16,
        1 <= dc <= 480,
        1 <= ac <= 480,
        0 <= at,
        at + 16 <= coeffs.len(),
        forall|k: int| at <= k < at + 16 ==> #[trigger] coeffs[k] == 0,
    ensures
        ({
            let r = block_from(a, probs, typ, ctx, first, false, dc, ac, coeffs, at);
            &&& r.wrote <==> exists|k: int| at <= k < at + 16 && #[trigger] r.coeffs[k] != 0
            &&& first >= 1 ==> r.coeffs[at] == 0
        }),
{
    assert forall|j: int| first <= j < 16 implies coeffs[at + #[trigger] ZIGZAG@[j]] == 0 by {
        lemma_scan(j);
    }
    lemma_block(a, probs, typ, ctx, first, false, dc, ac, coeffs, at);
    let r = block_from(a, probs, typ, ctx, first, false, dc, ac, coeffs, at);
    if r.wrote {
        let j = choose|j: int| first <= j < 16 && r.coeffs[at + #[trigger] ZIGZAG@[j]] != 0;
        lemma_scan(j);
        assert(r.coeffs[at + ZIGZAG@[j]] != 0);
    }
    if exists|k: int| at <= k < at + 16 && #[trigger] r.coeffs[k] != 0 {
        let k = choose|k: int| at <= k < at + 16 && #[trigger] r.coeffs[k] != 0;
        lemma_scan(k - at);
        let j = scan_of(k - at);
        assert(ZIGZAG@[j] == k - at);
        if j < first {
            assert(coeffs[at + ZIGZAG@[j]] == 0);
        }
    }
    assert(ZIGZAG@[0] == 0);
}

// ── macroblocks ─────────────────────────────────────────────────────────────

/// Contexts are flags.
pub open spec fn flags_ok(c: Seq<u8>) -> bool {
    &&& c.len() == 9
    &&& forall|k: int| 0 <= k < 9 ==> #[trigger] c[k] <= 1
}

/// The contexts that a macroblock without coefficients leaves: all clear, but
/// for that of the averages where it has none.
pub open spec fn cleared(c: Seq<u8>, y_mode: int) -> Seq<u8> {
    Seq::new(9, |k: int| if k < 8 || y_mode != B_PRED {
        0
    } else {
        c[k]
    })
}

/// Clear the contexts after a macroblock without coefficients.
pub fn reset_mb_ctx(left: &mut [u8; 9], above: &mut [u8; 9], y_mode: i32)
    ensures
        final(left)@ == cleared(old(left)@, y_mode as int),
        final(above)@ == cleared(old(above)@, y_mode as int),
{
    let keep_left: u8 = left[8];
    let keep_above: u8 = above[8];
    *left = [0;9];
    *above = [0;9];
    if y_mode == B_PRED {
        left[8] = keep_left;
        above[8] = keep_above;
    }
    proof {
        assert(left@ =~= cleared(old(left)@, y_mode as int));
        assert(above@ =~= cleared(old(above)@, y_mode as int));
    }
}

/// Block `n` in reading order, and its type: the averages first where there
/// are any, then luma, then chroma.
pub open spec fn nth_block(has_y2: bool, n: int) -> (int, int) {
    if has_y2 {
        if n == 0 {
            (24, 1)
        } else if n <= 16 {
            (n - 1, 0)
        } else {
            (n - 1, 2)
        }
    } else if n < 16 {
        (n, 3)
    } else {
        (n, 2)
    }
}

pub open spec fn block_count(has_y2: bool) -> int {
    if has_y2 {
        25
    } else {
        24
    }
}

/// A macroblock being read.
pub ghost struct MbState {
    pub a: Arith,
    pub left: Seq<u8>,
    pub above: Seq<u8>,
    pub coeffs: Seq<i32>,
    pub any: bool,
}

pub open spec fn dc_factor(d: Dequant, typ: int) -> int {
    if typ == 1 {
        d.y2_dc as int
    } else if typ == 2 {
        d.uv_dc as int
    } else {
        d.y1_dc as int
    }
}

pub open spec fn ac_factor(d: Dequant, typ: int) -> int {
    if typ == 1 {
        d.y2_ac as int
    } else if typ == 2 {
        d.uv_ac as int
    } else {
        d.y1_ac as int
    }
}

/// Read one block of a macroblock.
pub open spec fn with_block(m: MbState, blk: int, typ: int, probs: Seq<u8>, d: Dequant) -> MbState {
    let l = LEFT_CTX@[blk] as int;
    let u = ABOVE_CTX@[blk] as int;
    let first = if typ == 0 {
        1int
    } else {
        0int
    };
    let r = block_from(
        m.a,
        probs,
        typ,
        m.left[l] + m.above[u],
        first,
        false,
        dc_factor(d, typ),
        ac_factor(d, typ),
        m.coeffs,
        16 * blk,
    );
    let flag = if r.wrote {
        1u8
    } else {
        0u8
    };
    MbState {
        a: r.a,
        left: m.left.update(l, flag),
        above: m.above.update(u, flag),
        coeffs: r.coeffs,
        any: m.any || r.wrote,
    }
}

/// Read the first `n` blocks of a macroblock.
pub open spec fn with_blocks(m: MbState, has_y2: bool, probs: Seq<u8>, d: Dequant, n: int) -> MbState
    decreases n,
{
    if n <= 0 {
        m
    } else {
        let (blk, typ) = nth_block(has_y2, n - 1);
        with_block(with_blocks(m, has_y2, probs, d, n - 1), blk, typ, probs, d)
    }
}

/// The averages transformed and handed to the luma blocks.
pub open spec fn spread(coeffs: Seq<i32>) -> Seq<i32> {
    Seq::new(
        coeffs.len(),
        |k: int|
            if k < 256 && k % 16 == 0 {
                wht(coeffs.subrange(384, 400), k / 16) as i32
            } else {
                coeffs[k]
            },
    )
}

/// A whole macroblock.
#[verifier::opaque]
pub open spec fn macroblock(m: MbState, y_mode: int, probs: Seq<u8>, d: Dequant) -> MbState {
    let has_y2 = y_mode != B_PRED;
    let r = with_blocks(m, has_y2, probs, d, block_count(has_y2));
    if has_y2 {
        MbState { coeffs: spread(r.coeffs), ..r }
    } else {
        r
    }
}

fn spread_averages(coeffs: &mut Vec<i32>)
    requires
        old(coeffs)@.len() == 400,
        within(old(coeffs)@, MAX_AVERAGE as int),
    ensures
        final(coeffs)@ == spread(old(coeffs)@),
        within(final(coeffs)@, MAX_COEFF as int),
{
    let ghost c0 = coeffs@;
    let y2: Vec<i32>;
    {
        let s: &[i32] = slice_subrange(coeffs.as_slice(), 384, 400);
        assert forall|k: int| 0 <= k < 16 implies -MAX_AVERAGE <= #[trigger] s@[k]
            <= MAX_AVERAGE by {
            assert(s@[k] == c0[384 + k]);
        }
        y2 = iwht(s);
    }
    let mut i: usize = 0;
    while i < 16
        invariant
            i <= 16,
            c0.len() == 400,
            coeffs@.len() == 400,
            y2@.len() == 16,
            within(c0, MAX_AVERAGE as int),
            forall|k: int|
                0 <= k < 16 ==> #[trigger] y2@[k] == wht(c0.subrange(384, 400), k),
            forall|k: int| 0 <= k < 16 ==> -MAX_COEFF <= #[trigger] y2@[k] <= MAX_COEFF,
            forall|k: int|
                0 <= k < 400 ==> #[trigger] coeffs@[k] == (if k < 16 * i && k % 16 == 0 {
                    y2@[k / 16]
                } else {
                    c0[k]
                }),
        decreases 16 - i,
    {
        coeffs.set(16 * i, y2[i]);
        i = i + 1;
    }
    assert(coeffs@ =~= spread(c0));
}

fn block_order(has_y2: bool, n: usize) -> (r: (usize, usize))
    requires
        n < block_count(has_y2),
    ensures
        (r.0 as int, r.1 as int) == nth_block(has_y2, n as int),
        r.0 < 25,
        r.1 < 4,
{
    if has_y2 {
        if n == 0 {
            (24, 1)
        } else if n <= 16 {
            (n - 1, 0)
        } else {
            (n - 1, 2)
        }
    } else if n < 16 {
        (n, 3)
    } else {
        (n, 2)
    }
}

/// Read the coefficients of a macroblock and say whether there were any.
pub fn decode_mb_tokens(
    b: &mut Bool,
    left: &mut [u8; 9],
    above: &mut [u8; 9],
    coeffs: &mut Vec<i32>,
    y_mode: i32,
    probs: &Vec<u8>,
    dq: &Dequant,
) -> (any: bool)
    requires
        old(b).wf(),
        flags_ok(old(left)@),
        flags_ok(old(above)@),
        old(coeffs)@.len() == 400,
        within(old(coeffs)@, MAX_AVERAGE as int),
        probs@.len() == 1056,
        dequant_ok(*dq),
    ensures
        final(b).wf(),
        ({
            let m = MbState {
                a: old(b)@,
                left: old(left)@,
                above: old(above)@,
                coeffs: old(coeffs)@,
                any: false,
            };
            let r = macroblock(m, y_mode as int, probs@, *dq);
            &&& final(b)@ == r.a
            &&& final(left)@ == r.left
            &&& final(above)@ == r.above
            &&& final(coeffs)@ == r.coeffs
            &&& any == r.any
        }),
        flags_ok(final(left)@),
        flags_ok(final(above)@),
        final(coeffs)@.len() == 400,
        coeffs_ok(final(coeffs)@),
{
    let ghost m = MbState {
        a: b@,
        left: left@,
        above: above@,
        coeffs: coeffs@,
        any: false,
    };
    proof {
        reveal(macroblock);
    }
    let has_y2: bool = y_mode != B_PRED;
    let count: usize = if has_y2 {
        25
    } else {
        24
    };
    let mut any: bool = false;
    let mut n: usize = 0;
    while n < count
        invariant
            n <= count,
            count == block_count(has_y2),
            b.wf(),
            flags_ok(left@),
            flags_ok(above@),
            coeffs@.len() == 400,
            within(coeffs@, MAX_AVERAGE as int),
            probs@.len() == 1056,
            dequant_ok(*dq),
            with_blocks(m, has_y2, probs@, *dq, n as int) == (MbState {
                a: b@,
                left: left@,
                above: above@,
                coeffs: coeffs@,
                any,
            }),
        decreases count - n,
    {
        let (blk, typ): (usize, usize) = block_order(has_y2, n);
        let (dc, ac): (i32, i32) = if typ == 1 {
            (dq.y2_dc, dq.y2_ac)
        } else if typ == 2 {
            (dq.uv_dc, dq.uv_ac)
        } else {
            (dq.y1_dc, dq.y1_ac)
        };
        let first: usize = if typ == 0 {
            1
        } else {
            0
        };
        let l: usize = LEFT_CTX[blk];
        let u: usize = ABOVE_CTX[blk];
        assert(l < 9 && u < 9);
        let t: usize = left[l] as usize + above[u] as usize;
        let ghost prior = MbState {
            a: b@,
            left: left@,
            above: above@,
            coeffs: coeffs@,
            any,
        };
        let nonzero: bool = decode_block(b, probs, typ, t, first, dc, ac, coeffs, 16 * blk);
        let flag: u8 = if nonzero {
            1
        } else {
            0
        };
        any = any || nonzero;
        left[l] = flag;
        above[u] = flag;
        proof {
            let next = with_block(prior, blk as int, typ as int, probs@, *dq);
            assert(left@ =~= next.left);
            assert(above@ =~= next.above);
        }
        n = n + 1;
    }
    if has_y2 {
        spread_averages(coeffs);
    }
    any
}

// ── laws of values ──────────────────────────────────────────────────────────

/// The coefficients of a block that starts at `at` are those of another, the
/// first times one factor and the others times another.
pub open spec fn are_scaled(one: Seq<i32>, two: Seq<i32>, at: int, dc: int, ac: int) -> bool {
    &&& one.len() == two.len()
    &&& forall|k: int|
        0 < k < 16 ==> two[at + k] == #[trigger] one[at + k] * ac
    &&& two[at] == one[at] * dc
}

proof fn lemma_scaled_block(
    a: Arith,
    probs: Seq<u8>,
    typ: int,
    ctx: int,
    c: int,
    more: bool,
    dc: int,
    ac: int,
    one: Seq<i32>,
    two: Seq<i32>,
    at: int,
)
    requires
        0 <= c <= 16,
        0 <= dc <= 480,
        0 <= ac <= 480,
        0 <= at,
        at + 16 <= one.len(),
        are_scaled(one, two, at, dc, ac),
    ensures
        ({
            let x = block_from(a, probs, typ, ctx, c, more, 1, 1, one, at);
            let y = block_from(a, probs, typ, ctx, c, more, dc, ac, two, at);
            x.a == y.a && are_scaled(x.coeffs, y.coeffs, at, dc, ac)
        }),
    decreases 16 - c,
{
    if c < 16 {
        let p = node(typ, COEFF_BANDS@[c] as int, ctx);
        let (b0, a0) = if more {
            (true, a)
        } else {
            bit(a, probs[p])
        };
        if b0 {
            let (b1, a1) = bit(a0, probs[p + 1]);
            if !b1 {
                lemma_scaled_block(a1, probs, typ, 0, c + 1, true, dc, ac, one, two, at);
            } else {
                let (v, large, a2) = signed_value(a1, probs, p);
                let (_, a3) = bit(a1, probs[p + 2]);
                lemma_large_value(a3, probs, p);
                assert(-2114 <= v <= 2114);
                let f = if c == 0 {
                    dc
                } else {
                    ac
                };
                let w = v * f;
                assert(-2000000 <= w <= 2000000) by (nonlinear_arith)
                    requires
                        w == v * f,
                        -2114 <= v <= 2114,
                        0 <= f <= 480,
                ;
                assert(v * 1 == v);
                lemma_scan(c);
                lemma_scan(0);
                let z = ZIGZAG@[c] as int;
                let next = one.update(at + z, v as i32);
                let next2 = two.update(at + z, w as i32);
                assert(c == 0 <==> z == 0);
                assert(are_scaled(next, next2, at, dc, ac)) by {
                    assert forall|k: int| 0 < k < 16 implies next2[at + k] == #[trigger] next[at + k]
                        * ac by {
                        if k != z {
                            assert(next[at + k] == one[at + k]);
                        }
                    }
                }
                lemma_scaled_block(
                    a2,
                    probs,
                    typ,
                    1 + as_int(large),
                    c + 1,
                    false,
                    dc,
                    ac,
                    next,
                    next2,
                    at,
                );
            }
        }
    }
}

/// Factors scale what is read: a block read with factors holds the values that
/// are read without, the first times the factor for it and all others times the
/// factor for them. How much is read does not depend on the factors.
pub proof fn law_factors_scale_coefficients(
    a: Arith,
    probs: Seq<u8>,
    typ: int,
    ctx: int,
    first: int,
    dc: int,
    ac: int,
    coeffs: Seq<i32>,
    at: int,
)
    requires
        0 <= first < 16,
        0 <= dc <= 480,
        0 <= ac <= 480,
        0 <= at,
        at + 16 <= coeffs.len(),
        forall|k: int| at <= k < at + 16 ==> #[trigger] coeffs[k] == 0,
    ensures
        ({
            let x = block_from(a, probs, typ, ctx, first, false, 1, 1, coeffs, at);
            let y = block_from(a, probs, typ, ctx, first, false, dc, ac, coeffs, at);
            x.a == y.a && are_scaled(x.coeffs, y.coeffs, at, dc, ac)
        }),
{
    assert forall|k: int| 0 < k < 16 implies coeffs[at + k] == #[trigger] coeffs[at + k] * ac by {
        assert(coeffs[at + k] == 0);
        assert(0 * ac == 0);
    }
    assert(0 * dc == 0);
    lemma_scaled_block(a, probs, typ, ctx, first, false, dc, ac, coeffs, coeffs, at);
}

/// The scan goes to each place once, along one diagonal after the other: down on
/// those of odd number, up on those of even number.
pub proof fn law_scan_goes_along_diagonals(i: int, j: int)
    requires
        0 <= i < 15,
        0 <= j < 16,
        i != j,
    ensures
        ({
            let a = ZIGZAG@[i] as int;
            let b = ZIGZAG@[i + 1] as int;
            let d = a / 4 + a % 4;
            let e = b / 4 + b % 4;
            &&& ZIGZAG@[i] != ZIGZAG@[j]
            &&& e == d || e == d + 1
            &&& e == d && d % 2 == 1 ==> b / 4 == a / 4 + 1
            &&& e == d && d % 2 == 0 ==> b / 4 == a / 4 - 1
        }),
{
    lemma_scan(i);
    lemma_scan(j);
}

/// The categories of large values follow each other without a gap, from five on:
/// each has as many values as its extra bits count, and the next starts behind
/// them.
pub proof fn law_categories_leave_no_gap(a: Arith, cat: int)
    requires
        0 <= cat < 6,
    ensures
        CAT_BASE@[0] == 5,
        CAT_BASE@[cat] <= category(a, cat).0,
        cat < 5 ==> category(a, cat).0 < CAT_BASE@[cat + 1],
        cat < 5 ==> CAT_BASE@[cat + 1] - CAT_BASE@[cat] == vstd::arithmetic::power2::pow2(
            CAT_BITS@[cat] as nat,
        ),
        category(a, 5).0 < 67 + 2048,
{
    lemma_extra(a, cat, CAT_BITS@[cat] as nat);
    lemma_extra(a, 5, 11);
    vstd::arithmetic::power2::lemma2_to64();
}

} // verus!
