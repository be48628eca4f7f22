//! The inverse transforms: Walsh-Hadamard for block averages, cosine for
//! blocks.
use super::plane::{put, put_rect, rect_ok};
use vstd::prelude::*;

verus! {

/// `sqrt(2) * cos(pi / 8) - 1`, in units of 2^-16.
pub const COS: i32 = 20091;

/// `sqrt(2) * sin(pi / 8)`, in units of 2^-16.
pub const SIN: i32 = 35468;

/// The largest coefficient of a block, and of a block of averages.
pub const MAX_COEFF: i32 = 0x20_0000;

pub const MAX_AVERAGE: i32 = 0x10_0000;

/// A sample value, clamped to a byte.
pub open spec fn clamp(v: int) -> u8 {
    if v < 0 {
        0
    } else if v > 255 {
        255
    } else {
        v as u8
    }
}

/// Clamp to a byte.
pub fn clamp255(v: i32) -> (r: u8)
    ensures
        r == clamp(v as int),
{
    if v < 0 {
        0
    } else if v > 255 {
        255
    } else {
        v as u8
    }
}

/// The high half of a product, taken as a number of 32 bits.
pub open spec fn mul_high(x: int, k: int) -> int {
    ((x * k + 0x8000_0000) % 0x1_0000_0000) / 0x10000 - 0x8000
}

fn mul16(x: i32, k: i32) -> (r: i32)
    requires
        -0x200_0000 <= x <= 0x200_0000,
        0 <= k <= 0xFFFF,
    ensures
        r == mul_high(x as int, k as int),
        -0x8000 <= r < 0x8000,
{
    proof {
        assert(-0x200_0000 * 0xFFFF <= x * k <= 0x200_0000 * 0xFFFF) by (nonlinear_arith)
            requires
                -0x200_0000 <= x <= 0x200_0000,
                0 <= k <= 0xFFFF,
        ;
    }
    let t: u64 = (x as i64 * k as i64 + 0x8000_0000 + 0x400_0000_0000) as u64;
    let m: u64 = t % 0x1_0000_0000;
    (m / 0x10000) as i32 - 0x8000
}

/// Divide by eight, rounding down.
fn eighth(v: i32) -> (r: i32)
    requires
        -0x1000_0000 <= v <= 0x1000_0000,
    ensures
        r == v as int / 8,
{
    ((v + 0x1000_0000) as u32 / 8) as i32 - 0x200_0000
}

// ── block averages ──────────────────────────────────────────────────────────

/// Entry `k` after the vertical pass over four columns.
pub open spec fn wht_column(c: Seq<i32>, k: int) -> int {
    let i = k % 4;
    let a = c[i] + c[12 + i];
    let b = c[4 + i] + c[8 + i];
    let d = c[4 + i] - c[8 + i];
    let e = c[i] - c[12 + i];
    if k < 4 {
        a + b
    } else if k < 8 {
        d + e
    } else if k < 12 {
        a - b
    } else {
        e - d
    }
}

/// Entry `k` after both passes.
pub open spec fn wht(c: Seq<i32>, k: int) -> int {
    let r = 4 * (k / 4);
    let a = wht_column(c, r) + wht_column(c, r + 3);
    let b = wht_column(c, r + 1) + wht_column(c, r + 2);
    let d = wht_column(c, r + 1) - wht_column(c, r + 2);
    let e = wht_column(c, r) - wht_column(c, r + 3);
    if k % 4 == 0 {
        (a + b + 3) / 8
    } else if k % 4 == 1 {
        (d + e + 3) / 8
    } else if k % 4 == 2 {
        (a - b + 3) / 8
    } else {
        (e - d + 3) / 8
    }
}

/// Inverse Walsh-Hadamard transform.
pub fn iwht(input: &[i32]) -> (output: Vec<i32>)
    requires
        input@.len() == 16,
        forall|k: int| 0 <= k < 16 ==> -MAX_AVERAGE <= #[trigger] input@[k] <= MAX_AVERAGE,
    ensures
        output@.len() == 16,
        forall|k: int| 0 <= k < 16 ==> #[trigger] output@[k] == wht(input@, k),
        forall|k: int| 0 <= k < 16 ==> -MAX_COEFF <= #[trigger] output@[k] <= MAX_COEFF,
{
    let mut tmp: [i32; 16] = [0;16];
    let mut i: usize = 0;
    while i < 4
        invariant
            i <= 4,
            input@.len() == 16,
            forall|k: int| 0 <= k < 16 ==> -MAX_AVERAGE <= #[trigger] input@[k] <= MAX_AVERAGE,
            forall|k: int|
                0 <= k < 16 && k % 4 < i ==> #[trigger] tmp@[k] == wht_column(input@, k),
            forall|k: int|
                0 <= k < 16 && k % 4 < i ==> -4 * MAX_AVERAGE <= #[trigger] tmp@[k] <= 4
                    * MAX_AVERAGE,
        decreases 4 - i,
    {
        let a1: i32 = input[i] + input[12 + i];
        let b1: i32 = input[4 + i] + input[8 + i];
        let c1: i32 = input[4 + i] - input[8 + i];
        let d1: i32 = input[i] - input[12 + i];
        tmp[i] = a1 + b1;
        tmp[4 + i] = c1 + d1;
        tmp[8 + i] = a1 - b1;
        tmp[12 + i] = d1 - c1;
        i = i + 1;
    }
    let mut output: Vec<i32> = Vec::new();
    let mut i: usize = 0;
    while i < 4
        invariant
            i <= 4,
            input@.len() == 16,
            forall|k: int| 0 <= k < 16 ==> #[trigger] tmp@[k] == wht_column(input@, k),
            forall|k: int|
                0 <= k < 16 ==> -4 * MAX_AVERAGE <= #[trigger] tmp@[k] <= 4 * MAX_AVERAGE,
            output@.len() == 4 * i,
            forall|k: int| 0 <= k < 4 * i ==> #[trigger] output@[k] == wht(input@, k),
            forall|k: int|
                0 <= k < 4 * i ==> -MAX_COEFF <= #[trigger] output@[k] <= MAX_COEFF,
        decreases 4 - i,
    {
        let ip: usize = 4 * i;
        let a1: i32 = tmp[ip] + tmp[ip + 3];
        let b1: i32 = tmp[ip + 1] + tmp[ip + 2];
        let c1: i32 = tmp[ip + 1] - tmp[ip + 2];
        let d1: i32 = tmp[ip] - tmp[ip + 3];
        let v0: i32 = eighth(a1 + b1 + 3);
        let v1: i32 = eighth(c1 + d1 + 3);
        let v2: i32 = eighth(a1 - b1 + 3);
        let v3: i32 = eighth(d1 - c1 + 3);
        proof {
            let k = ip as int;
            assert((k + 1) / 4 == i && (k + 2) / 4 == i && (k + 3) / 4 == i && k / 4 == i);
            assert(v0 == wht(input@, k));
            assert(v1 == wht(input@, k + 1));
            assert(v2 == wht(input@, k + 2));
            assert(v3 == wht(input@, k + 3));
        }
        output.push(v0);
        output.push(v1);
        output.push(v2);
        output.push(v3);
        i = i + 1;
    }
    output
}

// ── blocks ──────────────────────────────────────────────────────────────────

/// One output of the four-point transform of `x0..x3`.
pub open spec fn dct4(x0: int, x1: int, x2: int, x3: int, k: int) -> int {
    let a = x0 + x2;
    let b = x0 - x2;
    let c = mul_high(x1, SIN as int) - (x3 + mul_high(x3, COS as int));
    let d = x1 + mul_high(x1, COS as int) + mul_high(x3, SIN as int);
    if k == 0 {
        a + d
    } else if k == 1 {
        b + c
    } else if k == 2 {
        b - c
    } else {
        a - d
    }
}

/// Entry `k` after the vertical pass.
pub open spec fn dct_column(c: Seq<i32>, k: int) -> int {
    let i = k % 4;
    dct4(c[i] as int, c[4 + i] as int, c[8 + i] as int, c[12 + i] as int, k / 4)
}

/// Entry `k` of the residue of a block.
pub open spec fn residue(c: Seq<i32>, k: int) -> int {
    let r = 4 * (k / 4);
    (dct4(
        dct_column(c, r),
        dct_column(c, r + 1),
        dct_column(c, r + 2),
        dct_column(c, r + 3),
        k % 4,
    ) + 4) / 8
}

/// The samples of a four by four block with a residue added.
pub open spec fn block_sum(buf: Seq<u8>, p: int, s: int, c: Seq<i32>) -> Seq<u8> {
    Seq::new(16, |k: int| clamp(buf[p + (k / 4) * s + k % 4] + residue(c, k)))
}

/// A plane with a residue added to the block at `p`.
pub open spec fn added(buf: Seq<u8>, p: int, s: int, c: Seq<i32>) -> Seq<u8> {
    put(buf, p, s, 4, 4, block_sum(buf, p, s, c))
}

pub open spec fn coeffs_ok(c: Seq<i32>) -> bool {
    forall|k: int| 0 <= k < c.len() ==> -MAX_COEFF <= #[trigger] c[k] <= MAX_COEFF
}

fn four_point(x0: i32, x1: i32, x2: i32, x3: i32, Ghost(b): Ghost<int>) -> (r: (
    i32,
    i32,
    i32,
    i32,
))
    requires
        0 <= b <= 0x80_0000,
        -b <= x0 <= b,
        -b <= x1 <= b,
        -b <= x2 <= b,
        -b <= x3 <= b,
    ensures
        r.0 == dct4(x0 as int, x1 as int, x2 as int, x3 as int, 0),
        r.1 == dct4(x0 as int, x1 as int, x2 as int, x3 as int, 1),
        r.2 == dct4(x0 as int, x1 as int, x2 as int, x3 as int, 2),
        r.3 == dct4(x0 as int, x1 as int, x2 as int, x3 as int, 3),
        bounded4(r, 3 * b + 0x10000),
{
    let a1: i32 = x0 + x2;
    let b1: i32 = x0 - x2;
    let c1: i32 = mul16(x1, SIN) - (x3 + mul16(x3, COS));
    let d1: i32 = x1 + mul16(x1, COS) + mul16(x3, SIN);
    (a1 + d1, b1 + c1, b1 - c1, a1 - d1)
}

spec fn bounded4(r: (i32, i32, i32, i32), b: int) -> bool {
    &&& -b <= r.0 <= b
    &&& -b <= r.1 <= b
    &&& -b <= r.2 <= b
    &&& -b <= r.3 <= b
}

fn column_pass(c: &[i32]) -> (tmp: [i32; 16])
    requires
        c@.len() == 16,
        coeffs_ok(c@),
    ensures
        forall|k: int| 0 <= k < 16 ==> #[trigger] tmp@[k] == dct_column(c@, k),
        forall|k: int| 0 <= k < 16 ==> -0x80_0000 <= #[trigger] tmp@[k] <= 0x80_0000,
{
    let mut tmp: [i32; 16] = [0;16];
    let mut i: usize = 0;
    while i < 4
        invariant
            i <= 4,
            c@.len() == 16,
            coeffs_ok(c@),
            forall|k: int| 0 <= k < 16 && k % 4 < i ==> #[trigger] tmp@[k] == dct_column(c@, k),
            forall|k: int|
                0 <= k < 16 && k % 4 < i ==> -0x80_0000 <= #[trigger] tmp@[k] <= 0x80_0000,
        decreases 4 - i,
    {
        let r: (i32, i32, i32, i32) = four_point(
            c[i],
            c[4 + i],
            c[8 + i],
            c[12 + i],
            Ghost(MAX_COEFF as int),
        );
        tmp[i] = r.0;
        tmp[4 + i] = r.1;
        tmp[8 + i] = r.2;
        tmp[12 + i] = r.3;
        i = i + 1;
    }
    tmp
}

/// The residue of a block.
fn row_pass(c: &[i32]) -> (res: Vec<i32>)
    requires
        c@.len() == 16,
        coeffs_ok(c@),
    ensures
        res@.len() == 16,
        forall|k: int| 0 <= k < 16 ==> #[trigger] res@[k] == residue(c@, k),
        forall|k: int| 0 <= k < 16 ==> -0x40_0000 <= #[trigger] res@[k] <= 0x40_0000,
{
    let tmp: [i32; 16] = column_pass(c);
    let mut res: Vec<i32> = Vec::new();
    let mut i: usize = 0;
    while i < 4
        invariant
            i <= 4,
            forall|k: int| 0 <= k < 16 ==> #[trigger] tmp@[k] == dct_column(c@, k),
            forall|k: int| 0 <= k < 16 ==> -0x80_0000 <= #[trigger] tmp@[k] <= 0x80_0000,
            res@.len() == 4 * i,
            forall|k: int| 0 <= k < 4 * i ==> #[trigger] res@[k] == residue(c@, k),
            forall|k: int| 0 <= k < 4 * i ==> -0x40_0000 <= #[trigger] res@[k] <= 0x40_0000,
        decreases 4 - i,
    {
        let ip: usize = 4 * i;
        let ghost k = ip as int;
        let t: (i32, i32, i32, i32) = four_point(
            tmp[ip],
            tmp[ip + 1],
            tmp[ip + 2],
            tmp[ip + 3],
            Ghost(0x80_0000),
        );
        assert(k / 4 == i && (k + 1) / 4 == i && (k + 2) / 4 == i && (k + 3) / 4 == i);
        assert(k % 4 == 0 && (k + 1) % 4 == 1 && (k + 2) % 4 == 2 && (k + 3) % 4 == 3);
        let v0: i32 = eighth(t.0 + 4);
        assert(v0 == residue(c@, k));
        let v1: i32 = eighth(t.1 + 4);
        assert(v1 == residue(c@, k + 1));
        let v2: i32 = eighth(t.2 + 4);
        assert(v2 == residue(c@, k + 2));
        let v3: i32 = eighth(t.3 + 4);
        assert(v3 == residue(c@, k + 3));
        res.push(v0);
        res.push(v1);
        res.push(v2);
        res.push(v3);
        i = i + 1;
    }
    res
}

/// Add the inverse cosine transform of `coeffs` to the block at `pos`, clamped.
pub fn idct_add(buf: &mut Vec<u8>, pos: usize, stride: usize, coeffs: &[i32])
    requires
        rect_ok(old(buf)@.len(), pos as int, stride as int, 4, 4),
        coeffs@.len() == 16,
        coeffs_ok(coeffs@),
    ensures
        final(buf)@ == added(old(buf)@, pos as int, stride as int, coeffs@),
{
    let res: Vec<i32> = row_pass(coeffs);
    let mut vals: Vec<u8> = Vec::new();
    let len: usize = buf.len();
    let mut k: usize = 0;
    while k < 16
        invariant
            k <= 16,
            buf@ == old(buf)@,
            len == buf@.len(),
            rect_ok(buf@.len(), pos as int, stride as int, 4, 4),
            res@.len() == 16,
            forall|j: int| 0 <= j < 16 ==> #[trigger] res@[j] == residue(coeffs@, j),
            forall|j: int| 0 <= j < 16 ==> -0x40_0000 <= #[trigger] res@[j] <= 0x40_0000,
            vals@.len() == k,
            forall|j: int|
                0 <= j < k ==> #[trigger] vals@[j] == clamp(
                    buf@[pos + (j / 4) * stride + j % 4] + residue(coeffs@, j),
                ),
        decreases 16 - k,
    {
        proof {
            let i = (k / 4) as int;
            assert(0 <= i * stride <= 3 * stride) by (nonlinear_arith)
                requires
                    0 <= i <= 3,
            ;
        }
        let r: usize = pos + (k / 4) * stride + k % 4;
        vals.push(clamp255(buf[r] as i32 + res[k]));
        k = k + 1;
    }
    assert(vals@ =~= block_sum(buf@, pos as int, stride as int, coeffs@));
    put_rect(buf, pos, stride, 4, 4, &vals);
}

} // verus!
