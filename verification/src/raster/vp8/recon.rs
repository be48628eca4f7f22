//! Reconstruction of macroblocks: prediction plus residue.
use super::dct::{added, coeffs_ok, idct_add, MAX_COEFF};
use super::modes::{Macro, Mb};
use super::plane::{put, put_rect};
use super::predict::{
    above_fixed, b_pred, block_prediction, fixup_above, fixup_left, left_fixed, predict_block,
    subblocks_done, B_PRED,
};
use vstd::prelude::*;
use vstd::slice::slice_subrange;

verus! {

/// A plane once the residues of `n` subblocks are added, `per` to a row, the
/// first one from block `first` of the coefficients.
pub open spec fn residues(
    buf: Seq<u8>,
    p: int,
    s: int,
    per: int,
    coeffs: Seq<i32>,
    first: int,
    n: int,
) -> Seq<u8>
    decreases n,
{
    if n <= 0 {
        buf
    } else {
        let i = n - 1;
        added(
            residues(buf, p, s, per, coeffs, first, i),
            p + (i / per) * (4 * s) + (i % per) * 4,
            s,
            coeffs.subrange(16 * (first + i), 16 * (first + i) + 16),
        )
    }
}

/// The luma plane with the macroblock at `p` reconstructed.
#[verifier::opaque]
pub open spec fn luma_done(
    y: Seq<u8>,
    p: int,
    s: int,
    row: int,
    col: int,
    last: bool,
    m: Macro,
    coeffs: Seq<i32>,
) -> Seq<u8> {
    let y1 = if col == 0 {
        left_fixed(y, p, s, 16, row, m.y_mode)
    } else {
        y
    };
    let y2 = if col == 0 && row == 0 {
        y1.update(p - s - 1, 127)
    } else {
        y1
    };
    let y3 = if row == 0 {
        above_fixed(y2, p, s, 16, col, m.y_mode)
    } else {
        y2
    };
    let y4 = if m.y_mode == B_PRED {
        subblocks_done(y3, p, s, m.b_modes, coeffs, 16)
    } else {
        residues(
            put(y3, p, s, 16, 16, block_prediction(y3, p, s, 16, m.y_mode)),
            p,
            s,
            4,
            coeffs,
            0,
            16,
        )
    };
    if last {
        put(y4, p + 15 * s + 16, s, 4, 1, Seq::new(4, |k: int| y4[p + 15 * s + 15]))
    } else {
        y4
    }
}

/// A chroma plane with the block at `p` reconstructed, from block `first` of
/// the coefficients on.
#[verifier::opaque]
pub open spec fn chroma_done(
    c: Seq<u8>,
    p: int,
    s: int,
    row: int,
    col: int,
    mode: int,
    coeffs: Seq<i32>,
    first: int,
) -> Seq<u8> {
    let c1 = if col == 0 {
        left_fixed(c, p, s, 8, row, mode)
    } else {
        c
    };
    let c2 = if row == 0 {
        above_fixed(c1, p, s, 8, col, mode)
    } else {
        c1
    };
    residues(
        put(c2, p, s, 8, 8, block_prediction(c2, p, s, 8, mode)),
        p,
        s,
        2,
        coeffs,
        first,
        4,
    )
}

fn add_residues(
    buf: &mut Vec<u8>,
    p: usize,
    s: usize,
    per: usize,
    coeffs: &Vec<i32>,
    first: usize,
    n: usize,
)
    requires
        (per == 2 && n == 4) || (per == 4 && n == 16),
        coeffs@.len() == 400,
        coeffs_ok(coeffs@),
        first + n <= 24,
        s >= 4 * per,
        p + (4 * per - 1) * s + 4 * per <= old(buf)@.len(),
    ensures
        final(buf)@ == residues(
            old(buf)@,
            p as int,
            s as int,
            per as int,
            coeffs@,
            first as int,
            n as int,
        ),
        final(buf)@.len() == old(buf)@.len(),
{
    let ghost b0 = buf@;
    let len: usize = buf.len();
    let mut i: usize = 0;
    while i < n
        invariant
            i <= n,
            (per == 2 && n == 4) || (per == 4 && n == 16),
            coeffs@.len() == 400,
            coeffs_ok(coeffs@),
            first + n <= 24,
            s >= 4 * per,
            len == buf@.len(),
            p + (4 * per - 1) * s + 4 * per <= len,
            buf@ == residues(
                b0,
                p as int,
                s as int,
                per as int,
                coeffs@,
                first as int,
                i as int,
            ),
        decreases n - i,
    {
        let r: usize = i / per;
        let c: usize = i % per;
        proof {
            if per == 2 {
                assert(r == i / 2 && c == i % 2);
            } else {
                assert(r == i / 4 && c == i % 4);
            }
            assert(r * (4 * s) + 3 * s <= (4 * per - 1) * s) by (nonlinear_arith)
                requires
                    r <= per - 1,
            ;
            assert(r * (4 * s) >= 0) by (nonlinear_arith);
            assert((4 * per - 1) * s >= 4 * s) by (nonlinear_arith)
                requires
                    per >= 2,
            ;
        }
        let q: usize = p + r * (4 * s) + c * 4;
        let at: usize = 16 * (first + i);
        let block: &[i32] = slice_subrange(coeffs.as_slice(), at, at + 16);
        assert(coeffs_ok(block@)) by {
            assert forall|k: int| 0 <= k < block@.len() implies -MAX_COEFF <= #[trigger] block@[k]
                <= MAX_COEFF by {
                assert(block@[k] == coeffs@[at + k]);
            }
        }
        idct_add(buf, q, s, block);
        i = i + 1;
    }
}

/// Reconstruct the luma of a macroblock.
pub fn reconstruct_luma(
    y: &mut Vec<u8>,
    p: usize,
    s: usize,
    row: usize,
    col: usize,
    last: bool,
    m: &Mb,
    coeffs: &Vec<i32>,
)
    requires
        s >= 24,
        p > s,
        p + 15 * s + 20 <= old(y)@.len(),
        coeffs@.len() == 400,
        coeffs_ok(coeffs@),
    ensures
        final(y)@ == luma_done(
            old(y)@,
            p as int,
            s as int,
            row as int,
            col as int,
            last,
            m@,
            coeffs@,
        ),
        final(y)@.len() == old(y)@.len(),
{
    proof {
        reveal(luma_done);
    }
    let len: usize = y.len();
    if col == 0 {
        fixup_left(y, p, s, 16, row, m.y_mode);
        if row == 0 {
            y.set(p - s - 1, 127);
        }
    }
    if row == 0 {
        fixup_above(y, p, s, 16, col, m.y_mode);
    }
    if m.y_mode == B_PRED {
        b_pred(y, p, s, &m.b_modes, coeffs.as_slice());
    } else {
        predict_block(y, p, s, 16, m.y_mode);
        add_residues(y, p, s, 4, coeffs, 0, 16);
    }
    if last {
        let v: u8 = y[p + 15 * s + 15];
        let vals: Vec<u8> = vec![v; 4];
        assert(vals@ =~= Seq::new(4, |k: int| v));
        put_rect(y, p + 15 * s + 16, s, 4, 1, &vals);
    }
}

/// Reconstruct one chroma plane of a macroblock.
pub fn reconstruct_chroma(
    c: &mut Vec<u8>,
    p: usize,
    s: usize,
    row: usize,
    col: usize,
    mode: i32,
    coeffs: &Vec<i32>,
    first: usize,
)
    requires
        s >= 24,
        p > s,
        p + 7 * s + 12 <= old(c)@.len(),
        coeffs@.len() == 400,
        coeffs_ok(coeffs@),
        first + 4 <= 24,
    ensures
        final(c)@ == chroma_done(
            old(c)@,
            p as int,
            s as int,
            row as int,
            col as int,
            mode as int,
            coeffs@,
            first as int,
        ),
        final(c)@.len() == old(c)@.len(),
{
    proof {
        reveal(chroma_done);
    }
    if col == 0 {
        fixup_left(c, p, s, 8, row, mode);
    }
    if row == 0 {
        fixup_above(c, p, s, 8, col, mode);
    }
    predict_block(c, p, s, 8, mode);
    add_residues(c, p, s, 2, coeffs, first, 4);
}

} // verus!
