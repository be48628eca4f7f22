//! What the parts of the lossy decoder do to samples.
use super::dct::{added, block_sum, dct4, dct_column, mul_high, residue, wht};
use super::filter::{
    common, edge_ok, filtered_at, filtered_block, interior_limit, mb_level, px, variance_limit,
    wide, Limits, Settings,
};
use super::frame::{
    filtered_mb, mb_done, next_mb, next_row, row_modes, Frame, FrameState, RowState,
};
use super::header::{ac_step, dc_step, factors, Header, Quant, Segments};
use super::modes::Macro;
use super::plane::{in_rect, put, rect_ok};
use super::predict::{
    above_fixed, block_ok, block_prediction, carried_down, edge_sum, left_fixed, subblocks_done, B_PRED, DC_PRED, H_PRED,
    TM_PRED, V_PRED,
};
use super::recon::{chroma_done, luma_done, residues};
use super::tokens::{spread, with_block, Dequant, MbState, ABOVE_CTX, LEFT_CTX};
use vstd::prelude::*;

verus! {

// ── block averages ──────────────────────────────────────────────────────────

/// Whether the wave that changes its sign `j` times is positive at place `i` of
/// four.
pub open spec fn wave_is_up(j: int, i: int) -> bool {
    if j == 0 {
        true
    } else if j == 1 {
        i < 2
    } else if j == 2 {
        i == 0 || i == 3
    } else {
        i == 0 || i == 2
    }
}

/// The first `n` coefficients, each with the sign that its two waves, one across
/// and one down, have at place `k`.
pub open spec fn signed_sum(c: Seq<i32>, k: int, n: int) -> int
    decreases n,
{
    if n <= 0 {
        0
    } else {
        let j = n - 1;
        signed_sum(c, k, n - 1) + (if wave_is_up(j % 4, k % 4) == wave_is_up(j / 4, k / 4) {
            c[j] as int
        } else {
            -c[j]
        })
    }
}

proof fn lemma_signed_sum(c: Seq<i32>, k: int)
    requires
        0 <= k < 16,
        c.len() == 16,
    ensures
        wht(c, k) == (signed_sum(c, k, 16) + 3) / 8,
{
    reveal_with_fuel(signed_sum, 17);
    let r = k / 4;
    assert(4 * r / 4 == r && (4 * r + 1) / 4 == r && (4 * r + 2) / 4 == r && (4 * r + 3) / 4 == r);
    assert((4 * r) % 4 == 0 && (4 * r + 1) % 4 == 1 && (4 * r + 2) % 4 == 2 && (4 * r + 3) % 4
        == 3);
}

/// The average of a block is an eighth, rounded, of the sum of all coefficients,
/// each taken up or down as the waves that it stands for are at that block.
pub proof fn law_averages_are_sums_of_waves(c: Seq<i32>, k: int)
    requires
        0 <= k < 16,
        c.len() == 16,
    ensures
        ({
            let whole = signed_sum(c, k, 16);
            -4 <= 8 * wht(c, k) - whole <= 3
        }),
{
    lemma_signed_sum(c, k);
}

/// One coefficient alone, the first, gives all blocks the same average.
pub proof fn law_first_average_is_flat(c: Seq<i32>, k: int)
    requires
        0 <= k < 16,
        c.len() == 16,
        forall|j: int| 1 <= j < 16 ==> c[j] == 0,
    ensures
        wht(c, k) == (c[0] + 3) / 8,
{
}

// ── residues ────────────────────────────────────────────────────────────────

/// One output of the cosine transform of four values, in millionths: the first
/// value, the second by the cosine of an eighth turn and a half at four places,
/// and so on.
pub open spec fn cosines(x0: int, x1: int, x2: int, x3: int, k: int) -> int {
    if k == 0 {
        1000000 * x0 + 1306563 * x1 + 1000000 * x2 + 541196 * x3
    } else if k == 1 {
        1000000 * x0 + 541196 * x1 - 1000000 * x2 - 1306563 * x3
    } else if k == 2 {
        1000000 * x0 - 541196 * x1 - 1000000 * x2 + 1306563 * x3
    } else {
        1000000 * x0 - 1306563 * x1 + 1000000 * x2 - 541196 * x3
    }
}

proof fn lemma_four_point(x0: int, x1: int, x2: int, x3: int, k: int)
    requires
        -40000 <= x0 <= 40000,
        -40000 <= x1 <= 40000,
        -40000 <= x2 <= 40000,
        -40000 <= x3 <= 40000,
        0 <= k < 4,
    ensures
        -2200000 <= 1000000 * dct4(x0, x1, x2, x3, k) - cosines(x0, x1, x2, x3, k) <= 2200000,
{
    assert(mul_high(x1, 20091) == (x1 * 20091) / 65536);
    assert(mul_high(x3, 20091) == (x3 * 20091) / 65536);
    assert(mul_high(x1, 35468) == (x1 * 35468) / 65536);
    assert(mul_high(x3, 35468) == (x3 * 35468) / 65536);
}

/// What a place of a block comes to by the cosine transform, down and across, in
/// units of a millionth of a millionth of an eighth.
pub open spec fn cosine_sum(c: Seq<i32>, k: int) -> int {
    let r = k / 4;
    let t = |j: int| cosines(c[j] as int, c[4 + j] as int, c[8 + j] as int, c[12 + j] as int, r);
    cosines(t(0), t(1), t(2), t(3), k % 4)
}

proof fn lemma_column_near(c: Seq<i32>, k: int)
    requires
        c.len() == 16,
        forall|i: int| 0 <= i < 16 ==> -8192 <= #[trigger] c[i] <= 8192,
        0 <= k < 16,
    ensures
        ({
            let i = k % 4;
            let near = cosines(
                c[i] as int,
                c[4 + i] as int,
                c[8 + i] as int,
                c[12 + i] as int,
                k / 4,
            );
            -2200000 <= 1000000 * dct_column(c, k) - near <= 2200000
        }),
        -40000 <= dct_column(c, k) <= 40000,
{
    let i = k % 4;
    assert(-8192 <= c[i] <= 8192 && -8192 <= c[4 + i] <= 8192);
    assert(-8192 <= c[8 + i] <= 8192 && -8192 <= c[12 + i] <= 8192);
    lemma_four_point(c[i] as int, c[4 + i] as int, c[8 + i] as int, c[12 + i] as int, k / 4);
}

/// The residue of a block is the cosine transform of its coefficients, to within
/// two levels.
pub proof fn law_residue_is_the_cosine_transform(c: Seq<i32>, k: int)
    requires
        c.len() == 16,
        forall|i: int| 0 <= i < 16 ==> -8192 <= #[trigger] c[i] <= 8192,
        0 <= k < 16,
    ensures
        -16_000_000_000_000 <= 8_000_000_000_000 * residue(c, k) - cosine_sum(c, k)
            <= 16_000_000_000_000,
{
    let r = k / 4;
    let q = 4 * r;
    assert(q / 4 == r && (q + 1) / 4 == r && (q + 2) / 4 == r && (q + 3) / 4 == r);
    assert(q % 4 == 0 && (q + 1) % 4 == 1 && (q + 2) % 4 == 2 && (q + 3) % 4 == 3);
    lemma_column_near(c, q);
    lemma_column_near(c, q + 1);
    lemma_column_near(c, q + 2);
    lemma_column_near(c, q + 3);
    lemma_four_point(
        dct_column(c, q),
        dct_column(c, q + 1),
        dct_column(c, q + 2),
        dct_column(c, q + 3),
        k % 4,
    );
}

/// The first coefficient alone shifts a whole block by an eighth of it, rounded.
pub proof fn law_first_coefficient_is_flat(c: Seq<i32>, k: int)
    requires
        c.len() == 16,
        forall|i: int| 1 <= i < 16 ==> c[i] == 0,
        0 <= k < 16,
    ensures
        residue(c, k) == (c[0] + 4) / 8,
{
    let r = k / 4;
    let q = 4 * r;
    assert(q / 4 == r && (q + 1) / 4 == r && (q + 2) / 4 == r && (q + 3) / 4 == r);
    assert(q % 4 == 0 && (q + 1) % 4 == 1 && (q + 2) % 4 == 2 && (q + 3) % 4 == 3);
    assert(mul_high(0, 20091) == 0);
    assert(mul_high(0, 35468) == 0);
    assert(dct_column(c, q) == c[0]);
    assert(dct_column(c, q + 1) == 0);
    assert(dct_column(c, q + 2) == 0);
    assert(dct_column(c, q + 3) == 0);
}

/// Coefficients of the first row alone give four equal rows, and coefficients of
/// the first column alone four equal columns.
pub proof fn law_rows_and_columns_keep_their_way(c: Seq<i32>, k: int)
    requires
        c.len() == 16,
        0 <= k < 16,
    ensures
        (forall|i: int| 4 <= i < 16 ==> c[i] == 0) ==> residue(c, k) == residue(c, k % 4),
        (forall|i: int| 0 <= i < 16 && i % 4 != 0 ==> c[i] == 0) ==> residue(c, k) == residue(
            c,
            4 * (k / 4),
        ),
{
    let r = k / 4;
    let q = 4 * r;
    assert(q / 4 == r && (q + 1) / 4 == r && (q + 2) / 4 == r && (q + 3) / 4 == r);
    assert(q % 4 == 0 && (q + 1) % 4 == 1 && (q + 2) % 4 == 2 && (q + 3) % 4 == 3);
    assert(mul_high(0, 20091) == 0);
    assert(mul_high(0, 35468) == 0);
    if forall|i: int| 4 <= i < 16 ==> c[i] == 0 {
        assert(dct_column(c, q) == c[0] && dct_column(c, 0) == c[0]);
        assert(dct_column(c, q + 1) == c[1] && dct_column(c, 1) == c[1]);
        assert(dct_column(c, q + 2) == c[2] && dct_column(c, 2) == c[2]);
        assert(dct_column(c, q + 3) == c[3] && dct_column(c, 3) == c[3]);
    }
    if forall|i: int| 0 <= i < 16 && i % 4 != 0 ==> c[i] == 0 {
        assert(dct_column(c, q + 1) == 0);
        assert(dct_column(c, q + 2) == 0);
        assert(dct_column(c, q + 3) == 0);
    }
}

/// A residue is added sample by sample, row by row, and clamped to a byte;
/// samples outside the block stay.
pub proof fn law_residues_are_added(buf: Seq<u8>, p: int, s: int, c: Seq<i32>, i: int, j: int, x: int)
    requires
        rect_ok(buf.len(), p, s, 4, 4),
        0 <= i < 4,
        0 <= j < 4,
        0 <= x < buf.len(),
    ensures
        ({
            let out = added(buf, p, s, c);
            let at = p + i * s + j;
            let sum = buf[at] + residue(c, 4 * i + j);
            &&& out.len() == buf.len()
            &&& 0 <= sum <= 255 ==> out[at] == sum
            &&& sum < 0 ==> out[at] == 0
            &&& sum > 255 ==> out[at] == 255
            &&& (forall|a: int, b: int|
                0 <= a < 4 && 0 <= b < 4 ==> x != #[trigger] (p + a * s + b)) ==> out[x] == buf[x]
        }),
{
    super::plane::law_put(buf, p, s, 4, 4, block_sum(buf, p, s, c), i, j);
    let k = i * 4 + j;
    assert(k / 4 == i && k % 4 == j);
    if forall|a: int, b: int| 0 <= a < 4 && 0 <= b < 4 ==> x != #[trigger] (p + a * s + b) {
        if in_rect(x, p, s, 4, 4) {
            let a = (x - p) / s;
            let b = (x - p) % s;
            assert(x - p == a * s + b && 0 <= b && 0 <= a) by (nonlinear_arith)
                requires
                    a == (x - p) / s,
                    b == (x - p) % s,
                    s >= 1,
                    x - p >= 0,
            ;
            assert(x == p + a * s + b);
        }
    }
}

proof fn lemma_no_residue(buf: Seq<u8>, p: int, s: int, c: Seq<i32>)
    requires
        rect_ok(buf.len(), p, s, 4, 4),
        c.len() == 16,
        forall|i: int| 0 <= i < 16 ==> c[i] == 0,
    ensures
        added(buf, p, s, c) == buf,
{
    let out = added(buf, p, s, c);
    assert forall|x: int| 0 <= x < buf.len() implies out[x] == buf[x] by {
        if in_rect(x, p, s, 4, 4) {
            let a = (x - p) / s;
            let b = (x - p) % s;
            assert(x - p == a * s + b && 0 <= b && 0 <= a) by (nonlinear_arith)
                requires
                    a == (x - p) / s,
                    b == (x - p) % s,
                    s >= 1,
                    x - p >= 0,
            ;
            law_residues_are_added(buf, p, s, c, a, b, x);
            law_first_coefficient_is_flat(c, 4 * a + b);
        }
    }
    assert(out =~= buf);
}

/// A block without coefficients leaves all samples as they were predicted.
pub proof fn law_no_coefficients_no_change(buf: Seq<u8>, p: int, s: int, c: Seq<i32>)
    requires
        rect_ok(buf.len(), p, s, 4, 4),
        c.len() == 16,
        forall|i: int| 0 <= i < 16 ==> c[i] == 0,
    ensures
        added(buf, p, s, c) == buf,
{
    lemma_no_residue(buf, p, s, c);
}

// ── where residues go ───────────────────────────────────────────────────────

/// All coefficients of block `i` are zero.
pub open spec fn is_blank(coeffs: Seq<i32>, i: int) -> bool {
    forall|k: int| 16 * i <= k < 16 * i + 16 ==> #[trigger] coeffs[k] == 0
}

proof fn lemma_subblock_place(p: int, s: int, per: int, i: int, len: nat)
    requires
        per == 2 || per == 4,
        0 <= i < per * per,
        0 <= p,
        4 * per <= s,
        p + (4 * per - 1) * s + 4 * per <= len,
    ensures
        rect_ok(len, p + (i / per) * (4 * s) + (i % per) * 4, s, 4, 4),
{
    let a = i / per;
    let b = i % per;
    assert(0 <= a < per && 0 <= b < per) by {
        if per == 2 {
        } else {
        }
    }
    assert(0 <= a * (4 * s) && a * (4 * s) + 3 * s <= (4 * per - 1) * s) by (nonlinear_arith)
        requires
            0 <= a <= per - 1,
            s >= 1,
    ;
}

proof fn lemma_residues_alone(
    buf: Seq<u8>,
    p: int,
    s: int,
    per: int,
    coeffs: Seq<i32>,
    first: int,
    n: int,
    j: int,
)
    requires
        per == 2 || per == 4,
        0 <= n <= per * per,
        0 <= j < per * per,
        0 <= p,
        4 * per <= s,
        p + (4 * per - 1) * s + 4 * per <= buf.len(),
        0 <= first,
        16 * (first + per * per) <= coeffs.len(),
        forall|i: int| 0 <= i < per * per && i != j ==> is_blank(coeffs, #[trigger] (first + i)),
    ensures
        residues(buf, p, s, per, coeffs, first, n) == (if n <= j {
            buf
        } else {
            added(
                buf,
                p + (j / per) * (4 * s) + (j % per) * 4,
                s,
                coeffs.subrange(16 * (first + j), 16 * (first + j) + 16),
            )
        }),
    decreases n,
{
    if n > 0 {
        lemma_residues_alone(buf, p, s, per, coeffs, first, n - 1, j);
        let i = n - 1;
        if i != j {
            let b = residues(buf, p, s, per, coeffs, first, i);
            let c = coeffs.subrange(16 * (first + i), 16 * (first + i) + 16);
            assert(is_blank(coeffs, first + i));
            assert forall|k: int| 0 <= k < 16 implies c[k] == 0 by {
                assert(c[k] == coeffs[16 * (first + i) + k]);
            }
            lemma_subblock_place(p, s, per, i, buf.len());
            assert(b.len() == buf.len());
            lemma_no_residue(b, p + (i / per) * (4 * s) + (i % per) * 4, s, c);
        }
    }
}

/// The residue of a block goes to its own four by four samples, blocks being
/// counted row by row: where only one block has coefficients, only those
/// samples change.
pub proof fn law_residues_land_in_their_blocks(
    buf: Seq<u8>,
    p: int,
    s: int,
    per: int,
    coeffs: Seq<i32>,
    first: int,
    row: int,
    col: int,
)
    requires
        per == 2 || per == 4,
        0 <= row < per,
        0 <= col < per,
        0 <= p,
        4 * per <= s,
        p + (4 * per - 1) * s + 4 * per <= buf.len(),
        0 <= first,
        16 * (first + per * per) <= coeffs.len(),
        forall|i: int|
            0 <= i < per * per && i != row * per + col ==> is_blank(
                coeffs,
                #[trigger] (first + i),
            ),
    ensures
        ({
            let j = first + row * per + col;
            residues(buf, p, s, per, coeffs, first, per * per) == added(
                buf,
                p + 4 * row * s + 4 * col,
                s,
                coeffs.subrange(16 * j, 16 * j + 16),
            )
        }),
{
    let j = row * per + col;
    assert(j / per == row && j % per == col && 0 <= j < per * per) by {
        if per == 2 {
        } else {
        }
    }
    lemma_residues_alone(buf, p, s, per, coeffs, first, per * per, j);
    assert(row * (4 * s) == 4 * row * s) by (nonlinear_arith);
}

proof fn lemma_residues_same(
    buf: Seq<u8>,
    p: int,
    s: int,
    per: int,
    a: Seq<i32>,
    b: Seq<i32>,
    first: int,
    n: int,
)
    requires
        0 <= first,
        0 <= n,
        16 * (first + n) <= a.len(),
        a.len() == b.len(),
        forall|k: int| 16 * first <= k < 16 * (first + n) ==> a[k] == b[k],
    ensures
        residues(buf, p, s, per, a, first, n) == residues(buf, p, s, per, b, first, n),
    decreases n,
{
    if n > 0 {
        lemma_residues_same(buf, p, s, per, a, b, first, n - 1);
        let i = first + n - 1;
        assert(a.subrange(16 * i, 16 * i + 16) =~= b.subrange(16 * i, 16 * i + 16));
    }
}

proof fn lemma_subblocks_same(
    buf: Seq<u8>,
    p: int,
    s: int,
    modes: Seq<u8>,
    a: Seq<i32>,
    b: Seq<i32>,
    n: int,
)
    requires
        0 <= n <= 16,
        256 <= a.len(),
        a.len() == b.len(),
        forall|k: int| 0 <= k < 256 ==> a[k] == b[k],
    ensures
        subblocks_done(buf, p, s, modes, a, n) == subblocks_done(buf, p, s, modes, b, n),
    decreases n,
{
    if n > 0 {
        lemma_subblocks_same(buf, p, s, modes, a, b, n - 1);
        let i = n - 1;
        assert(a.subrange(16 * i, 16 * n) =~= b.subrange(16 * i, 16 * n));
    }
}

/// Each plane takes its own coefficients: the first sixteen blocks are luma, the
/// four after them the first chroma plane and the next four the second. Others
/// make no difference to it.
pub proof fn law_planes_take_their_own_coefficients(
    f: Frame,
    cols: int,
    row: int,
    col: int,
    m: Macro,
    a: Seq<i32>,
    b: Seq<i32>,
)
    requires
        a.len() == 400,
        b.len() == 400,
    ensures
        (forall|k: int| 0 <= k < 256 ==> a[k] == b[k]) ==> mb_done(f, cols, row, col, m, a).y
            == mb_done(f, cols, row, col, m, b).y,
        (forall|k: int| 256 <= k < 320 ==> a[k] == b[k]) ==> mb_done(f, cols, row, col, m, a).u
            == mb_done(f, cols, row, col, m, b).u,
        (forall|k: int| 320 <= k < 384 ==> a[k] == b[k]) ==> mb_done(f, cols, row, col, m, a).v
            == mb_done(f, cols, row, col, m, b).v,
{
    reveal(mb_done);
    let ys = super::frame::stride(cols, 16);
    let cs = super::frame::stride(cols, 8);
    let yp = super::frame::block_at(cols, 16, row, col);
    let cp = super::frame::block_at(cols, 8, row, col);
    if forall|k: int| 0 <= k < 256 ==> a[k] == b[k] {
        lemma_luma_same(f.y, yp, ys, row, col, col == cols - 1, m, a, b);
    }
    if forall|k: int| 256 <= k < 320 ==> a[k] == b[k] {
        lemma_chroma_same(f.u, cp, cs, row, col, m.uv_mode, a, b, 16);
    }
    if forall|k: int| 320 <= k < 384 ==> a[k] == b[k] {
        lemma_chroma_same(f.v, cp, cs, row, col, m.uv_mode, a, b, 20);
    }
}

proof fn lemma_luma_same(
    y: Seq<u8>,
    p: int,
    s: int,
    row: int,
    col: int,
    last: bool,
    m: Macro,
    a: Seq<i32>,
    b: Seq<i32>,
)
    requires
        256 <= a.len(),
        a.len() == b.len(),
        forall|k: int| 0 <= k < 256 ==> a[k] == b[k],
    ensures
        luma_done(y, p, s, row, col, last, m, a) == luma_done(y, p, s, row, col, last, m, b),
{
    reveal(luma_done);
    let y1 = if col == 0 {
        left_fixed(y, p, s, 16, row, m.y_mode)
    } else {
        y
    };
    let y2 = if col == 0 && row == 0 {
        y1.update(p - s - 1, 127)
    } else {
        y1
    };
    let y3 = if row == 0 {
        above_fixed(y2, p, s, 16, col, m.y_mode)
    } else {
        y2
    };
    lemma_subblocks_same(y3, p, s, m.b_modes, a, b, 16);
    let whole = put(y3, p, s, 16, 16, block_prediction(y3, p, s, 16, m.y_mode));
    lemma_residues_same(whole, p, s, 4, a, b, 0, 16);
}

proof fn lemma_chroma_same(
    c: Seq<u8>,
    p: int,
    s: int,
    row: int,
    col: int,
    mode: int,
    a: Seq<i32>,
    b: Seq<i32>,
    first: int,
)
    requires
        0 <= first,
        16 * (first + 4) <= a.len(),
        a.len() == b.len(),
        forall|k: int| 16 * first <= k < 16 * (first + 4) ==> a[k] == b[k],
    ensures
        chroma_done(c, p, s, row, col, mode, a, first) == chroma_done(
            c,
            p,
            s,
            row,
            col,
            mode,
            b,
            first,
        ),
{
    reveal(chroma_done);
    let c1 = if col == 0 {
        left_fixed(c, p, s, 8, row, mode)
    } else {
        c
    };
    let c2 = if row == 0 {
        above_fixed(c1, p, s, 8, col, mode)
    } else {
        c1
    };
    let whole = put(c2, p, s, 8, 8, block_prediction(c2, p, s, 8, mode));
    lemma_residues_same(whole, p, s, 2, a, b, first, 4);
}

// ── prediction ──────────────────────────────────────────────────────────────

/// The sum of `n` samples, `step` apart.
pub open spec fn run_sum(buf: Seq<u8>, from: int, step: int, n: int) -> int
    decreases n,
{
    if n <= 0 {
        0
    } else {
        run_sum(buf, from, step, n - 1) + buf[from + (n - 1) * step]
    }
}

proof fn lemma_edge_sum(buf: Seq<u8>, p: int, s: int, n: int)
    ensures
        edge_sum(buf, p, s, n) == run_sum(buf, p - s, 1, n) + run_sum(buf, p - 1, s, n),
        n >= 0 ==> 0 <= edge_sum(buf, p, s, n) <= 510 * n,
    decreases n,
{
    if n > 0 {
        lemma_edge_sum(buf, p, s, n - 1);
        assert(p - s + (n - 1) * 1 == p - s + (n - 1));
        assert(p + (n - 1) * s - 1 == p - 1 + (n - 1) * s);
    }
}

/// A block is predicted from the samples around it: down each column from the
/// sample above it, along each row from the sample to its left, as the mean of
/// both edges, or so that each sample differs from the one to the left as the
/// one above differs from the corner, as far as bytes go.
pub proof fn law_blocks_go_on_from_their_edges(
    buf: Seq<u8>,
    p: int,
    s: int,
    n: int,
    mode: int,
    i: int,
    j: int,
)
    requires
        n == 4 || n == 8 || n == 16,
        block_ok(buf.len(), p, s, n),
        0 <= i < n,
        0 <= j < n,
    ensures
        ({
            let out = put(buf, p, s, n, n, block_prediction(buf, p, s, n, mode));
            let v = out[p + i * s + j] as int;
            let up = buf[p - s + j] as int;
            let left = buf[p + i * s - 1] as int;
            let corner = buf[p - s - 1] as int;
            let sum = run_sum(buf, p - s, 1, n) + run_sum(buf, p - 1, s, n);
            &&& mode == V_PRED ==> v == up
            &&& mode == H_PRED ==> v == left
            &&& mode == TM_PRED && 0 <= left + up - corner <= 255 ==> v - left == up - corner
            &&& mode == TM_PRED && left + up - corner < 0 ==> v == 0
            &&& mode == TM_PRED && left + up - corner > 255 ==> v == 255
            &&& mode == DC_PRED ==> -n < 2 * n * v - sum <= n
        }),
{
    lemma_edge_sum(buf, p, s, n);
    super::plane::law_put(buf, p, s, n, n, block_prediction(buf, p, s, n, mode), i, j);
    let k = i * n + j;
    assert(k / n == i && k % n == j && 0 <= k < n * n) by (nonlinear_arith)
        requires
            k == i * n + j,
            0 <= i < n,
            0 <= j < n,
    ;
    let sum = edge_sum(buf, p, s, n);
    if n == 4 {
        assert(2 * n == 8);
    } else if n == 8 {
        assert(2 * n == 16);
    } else {
        assert(2 * n == 32);
    }
    let v = ((sum + n) / (2 * n)) as int;
    assert(0 <= v <= 255 && 2 * n * v <= sum + n < 2 * n * v + 2 * n) by (nonlinear_arith)
        requires
            v == (sum + n) / (2 * n),
            0 <= sum <= 510 * n,
            n >= 1,
    ;
}

// ── the loop filter ─────────────────────────────────────────────────────────

/// Where the samples across an edge are all alike, filtering changes nothing.
pub proof fn law_flat_edges_stay(buf: Seq<u8>, pos: int, step: int, l: Limits, between: bool)
    requires
        edge_ok(buf.len(), pos, step),
        forall|k: int| -4 <= k <= 3 ==> #[trigger] px(buf, pos, step, k) == px(buf, pos, step, 0),
    ensures
        filtered_at(buf, pos, step, l, between) == buf,
{
    let v = px(buf, pos, step, 0);
    assert(px(buf, pos, step, -3) == v && px(buf, pos, step, -2) == v && px(buf, pos, step, -1)
        == v);
    assert(px(buf, pos, step, 1) == v && px(buf, pos, step, 2) == v);
    assert(-1 * step == -step && 0 * step == 0 && 1 * step == step);
    assert(-2 * step == -(2 * step) && -3 * step == -(3 * step));
    assert(common(buf, pos, step, true) =~= buf);
    assert(common(buf, pos, step, false) =~= buf);
    assert(wide(buf, pos, step) =~= buf);
}

/// The filter inside a macroblock, where the samples vary little: the two at the
/// edge come closer to each other and do not pass each other, and the two behind
/// them follow half as far.
pub proof fn law_edges_close(buf: Seq<u8>, pos: int, step: int)
    requires
        edge_ok(buf.len(), pos, step),
    ensures
        ({
            let out = common(buf, pos, step, false);
            let p1 = px(buf, pos, step, -2);
            let p0 = px(buf, pos, step, -1);
            let q0 = px(buf, pos, step, 0);
            let q1 = px(buf, pos, step, 1);
            let r1 = px(out, pos, step, -2);
            let r0 = px(out, pos, step, -1);
            let s0 = px(out, pos, step, 0);
            let s1 = px(out, pos, step, 1);
            &&& p0 <= q0 ==> p0 <= r0 <= s0 <= q0
            &&& p0 >= q0 ==> p0 >= r0 >= s0 >= q0
            &&& q0 - p0 >= 2 ==> r0 > p0 && s0 < q0
            &&& p0 - q0 >= 2 ==> r0 < p0 && s0 > q0
            &&& 20 <= p1 <= 235 && 20 <= q1 <= 235 ==> r1 - p1 == q1 - s1 && 0 <= 2 * (r1 - p1) - (
            q0 - s0) <= 1
            &&& 0 <= (q0 - s0) - (r0 - p0) <= 1
            &&& q0 - p0 <= 41 && p0 - q0 <= 41 ==> -4 <= 8 * (q0 - s0) - 3 * (q0 - p0) <= 4
        }),
{
    assert(-1 * step == -step && 0 * step == 0 && 1 * step == step && -2 * step == -(2 * step));
}

/// Where the samples vary much, only the two at the edge move. With equal samples
/// behind the edge they move as far as where the samples vary little.
pub proof fn law_rough_edges_move_two_samples(buf: Seq<u8>, pos: int, step: int)
    requires
        edge_ok(buf.len(), pos, step),
    ensures
        ({
            let out = common(buf, pos, step, true);
            let calm = common(buf, pos, step, false);
            &&& out.len() == buf.len()
            &&& px(out, pos, step, -2) == px(buf, pos, step, -2)
            &&& px(out, pos, step, 1) == px(buf, pos, step, 1)
            &&& px(buf, pos, step, -2) == px(buf, pos, step, 1) ==> px(out, pos, step, -1) == px(
                calm,
                pos,
                step,
                -1,
            ) && px(out, pos, step, 0) == px(calm, pos, step, 0)
        }),
{
    assert(-1 * step == -step && 0 * step == 0 && 1 * step == step && -2 * step == -(2 * step));
}

/// The filter between macroblocks moves three samples on either side, by about
/// 27, 18 and 9 parts in 128 of three times the step, the same way on both
/// sides.
pub proof fn law_wide_filter_fades(buf: Seq<u8>, pos: int, step: int)
    requires
        edge_ok(buf.len(), pos, step),
        px(buf, pos, step, -2) == px(buf, pos, step, 1),
        -42 <= px(buf, pos, step, 0) - px(buf, pos, step, -1) <= 42,
        forall|k: int| -3 <= k <= 2 ==> 30 <= #[trigger] px(buf, pos, step, k) <= 225,
    ensures
        ({
            let out = wide(buf, pos, step);
            let d = px(buf, pos, step, 0) - px(buf, pos, step, -1);
            let m = |k: int| px(out, pos, step, k) - px(buf, pos, step, k);
            &&& m(0) == -m(-1) && m(1) == -m(-2) && m(2) == -m(-3)
            &&& -64 <= 128 * m(-1) - 81 * d <= 64
            &&& -64 <= 128 * m(-2) - 54 * d <= 64
            &&& -64 <= 128 * m(-3) - 27 * d <= 64
        }),
{
    assert(-1 * step == -step && 0 * step == 0 && 1 * step == step && 2 * step == step + step);
    assert(-2 * step == -(2 * step) && -3 * step == -(3 * step));
    assert(30 <= px(buf, pos, step, -3) <= 225);
    assert(30 <= px(buf, pos, step, -2) <= 225);
    assert(30 <= px(buf, pos, step, -1) <= 225);
    assert(30 <= px(buf, pos, step, 0) <= 225);
    assert(30 <= px(buf, pos, step, 1) <= 225);
    assert(30 <= px(buf, pos, step, 2) <= 225);
}

/// The edges of a macroblock are filtered one kind after the other: the one to
/// the left before the one above, and before the inner ones.
pub proof fn law_left_edge_comes_first(
    buf: Seq<u8>,
    p: int,
    s: int,
    n: int,
    has_above: bool,
    inner: bool,
    l: Limits,
)
    requires
        !has_above || !inner,
    ensures
        filtered_block(buf, p, s, n, true, has_above, inner, l) == filtered_block(
            filtered_block(buf, p, s, n, true, false, false, l),
            p,
            s,
            n,
            false,
            has_above,
            inner,
            l,
        ),
        filtered_block(buf, p, s, n, false, false, false, l) == buf,
{
}

/// The level of the filter is never lower than zero or above sixty-three. The
/// interior limit is at least one, grows with the level and shrinks with the
/// sharpness, and is the level itself where there is none; the threshold of
/// variance grows with the level.
pub proof fn law_filter_limits(level: int, more: int, sharpness: int)
    requires
        0 <= level <= more <= 63,
        0 <= sharpness < 8,
    ensures
        1 <= interior_limit(level, sharpness) <= interior_limit(more, sharpness) <= 63,
        sharpness < 7 ==> interior_limit(level, sharpness + 1) <= interior_limit(level, sharpness),
        level >= 1 ==> interior_limit(level, 0) == level,
        sharpness > 0 ==> interior_limit(level, sharpness) <= 9 - sharpness,
        sharpness > 4 ==> interior_limit(level, sharpness) <= 1 + level / 4,
        0 < sharpness <= 4 && level / 2 <= 9 - sharpness && level >= 2 ==> interior_limit(
            level,
            sharpness,
        ) == level / 2,
        sharpness > 4 && level / 4 <= 9 - sharpness && level >= 4 ==> interior_limit(
            level,
            sharpness,
        ) == level / 4,
        variance_limit(level) <= variance_limit(more),
        variance_limit(14) == 0 && variance_limit(15) == 1,
        variance_limit(39) == 1 && variance_limit(40) == 2,
{
}

/// The level of a macroblock adds up: the level of its segment, alone or on top
/// of that of the frame, then the adjustment of the frame kind, and that of the
/// mode only where it is predicted subblock by subblock.
pub proof fn law_filter_levels_add_up(lf: Settings, m: Macro)
    requires
        super::filter::settings_ok(lf),
        0 <= m.segment < 4,
    ensures
        0 <= mb_level(lf, m) <= 63,
        ({
            let own = lf.seg_lf[m.segment] as int;
            let base = if !lf.seg_enabled {
                lf.level
            } else if lf.seg_abs {
                own
            } else {
                lf.level + own
            };
            let shift = if lf.delta_enabled {
                lf.ref_delta[0] as int
            } else {
                0
            };
            let extra = if lf.delta_enabled && m.y_mode == B_PRED {
                lf.mode_delta[0] as int
            } else {
                0
            };
            0 <= base <= 63 && 0 <= base + shift + extra <= 63 ==> mb_level(lf, m) == base + shift
                + extra
        }),
        !lf.seg_enabled ==> forall|s: int|
            0 <= s < 4 ==> mb_level(lf, #[trigger] with_segment(m, s)) == mb_level(lf, m),
        lf.seg_enabled && lf.seg_abs ==> forall|v: int|
            mb_level(#[trigger] with_level(lf, v), m) == mb_level(lf, m),
{
}

pub open spec fn with_segment(m: Macro, s: int) -> Macro {
    Macro { segment: s, ..m }
}

pub open spec fn with_level(lf: Settings, v: int) -> Settings {
    Settings { level: v, ..lf }
}

/// Filtering a macroblock leaves all as it is where its level is zero. The
/// simple filter leaves colour alone. A first macroblock without edges inside,
/// having no residue and one mode, stays as it is.
pub proof fn law_what_the_filter_leaves(
    f: Frame,
    cols: int,
    row: int,
    col: int,
    m: Macro,
    lf: Settings,
)
    ensures
        mb_level(lf, m) == 0 ==> filtered_mb(f, cols, row, col, m, lf) == f,
        lf.simple ==> filtered_mb(f, cols, row, col, m, lf).u == f.u && filtered_mb(
            f,
            cols,
            row,
            col,
            m,
            lf,
        ).v == f.v,
        row == 0 && col == 0 && !m.eob && m.y_mode != B_PRED ==> filtered_mb(
            f,
            cols,
            row,
            col,
            m,
            lf,
        ) == f,
{
    reveal(filtered_mb);
}

/// Colour is filtered as both colour planes are, the one like the other.
pub proof fn law_colour_planes_are_filtered_alike(
    f: Frame,
    cols: int,
    row: int,
    col: int,
    m: Macro,
    lf: Settings,
)
    requires
        f.u == f.v,
    ensures
        filtered_mb(f, cols, row, col, m, lf).u == filtered_mb(f, cols, row, col, m, lf).v,
{
    reveal(filtered_mb);
}

// ── factors ─────────────────────────────────────────────────────────────────

/// No segments.
pub open spec fn no_segments(seg: Segments) -> Segments {
    Segments { enabled: false, ..seg }
}

/// A segment shifts the quantizer index, or sets it: its factors are those of a
/// frame without segments at that index.
pub proof fn law_segments_shift_the_index(q: Quant, seg: Segments, s: int, r: Quant)
    requires
        seg.enabled,
        0 <= s < seg.quant.len(),
        r.index == (if seg.abs {
            seg.quant[s] as int
        } else {
            q.index + seg.quant[s]
        }),
        r.y1_dc == q.y1_dc,
        r.y2_dc == q.y2_dc,
        r.y2_ac == q.y2_ac,
        r.uv_dc == q.uv_dc,
        r.uv_ac == q.uv_ac,
    ensures
        factors(q, seg, s) == factors(r, no_segments(seg), s),
{
    reveal(factors);
}

/// Each offset of the quantizer shifts one factor and no other, and the first
/// luma factor for all but the first coefficient has none.
pub proof fn law_offsets_shift_their_own_factor(q: Quant, r: Quant, seg: Segments, s: int)
    requires
        q.index == r.index,
    ensures
        ({
            let a = factors(q, seg, s);
            let b = factors(r, seg, s);
            &&& q.y1_dc == r.y1_dc ==> a.y1_dc == b.y1_dc
            &&& q.y2_dc == r.y2_dc ==> a.y2_dc == b.y2_dc
            &&& q.y2_ac == r.y2_ac ==> a.y2_ac == b.y2_ac
            &&& q.uv_dc == r.uv_dc ==> a.uv_dc == b.uv_dc
            &&& q.uv_ac == r.uv_ac ==> a.uv_ac == b.uv_ac
            &&& a.y1_ac == b.y1_ac
        }),
{
    reveal(factors);
}

/// Without offsets the factors of one index hang together: those of averages are
/// twice the first one, and one and a half times and a twentieth the other, at
/// least eight; those of colour are those of luma, the first at most 132.
pub proof fn law_factors_hang_together(q: Quant, seg: Segments, s: int)
    requires
        q.y1_dc == 0,
        q.y2_dc == 0,
        q.y2_ac == 0,
        q.uv_dc == 0,
        q.uv_ac == 0,
        super::tokens::dequant_ok(factors(q, seg, s)),
        !seg.enabled,
    ensures
        ({
            let d = factors(q, seg, s);
            &&& d.y1_dc == dc_step(q.index as int)
            &&& d.y1_ac == ac_step(q.index as int)
            &&& d.y2_dc == 2 * d.y1_dc
            &&& d.y2_ac >= 8
            &&& d.y2_ac > 8 ==> 100 * d.y2_ac <= 155 * d.y1_ac < 100 * d.y2_ac + 100
            &&& d.uv_ac == d.y1_ac
            &&& d.uv_dc <= 132
            &&& d.y1_dc <= 132 ==> d.uv_dc == d.y1_dc
            &&& d.y1_dc > 132 ==> d.uv_dc == 132
        }),
{
    reveal(factors);
    super::header::lemma_steps(q.index as int);
}

// ── coefficients ────────────────────────────────────────────────────────────

/// A block is read in the light of its neighbours: that to the left in the same
/// row of blocks and that above in the same column, of the same plane. Blocks
/// of averages look at blocks of averages.
pub proof fn law_contexts_are_those_of_neighbours(blk: int)
    requires
        0 <= blk < 25,
    ensures
        blk < 16 ==> LEFT_CTX@[blk] == blk / 4 && ABOVE_CTX@[blk] == blk % 4,
        16 <= blk < 20 ==> LEFT_CTX@[blk] == 4 + (blk - 16) / 2 && ABOVE_CTX@[blk] == 4 + (blk - 16)
            % 2,
        20 <= blk < 24 ==> LEFT_CTX@[blk] == 6 + (blk - 20) / 2 && ABOVE_CTX@[blk] == 6 + (blk - 20)
            % 2,
        blk == 24 ==> LEFT_CTX@[blk] == 8 && ABOVE_CTX@[blk] == 8,
{
}

/// Coefficients of averages are scaled by the factors for averages, those of
/// colour by the factors for colour and those of luma by the factors for luma:
/// the others make no difference to them.
pub proof fn law_blocks_use_their_own_factors(
    m: MbState,
    blk: int,
    typ: int,
    probs: Seq<u8>,
    d: Dequant,
    e: Dequant,
)
    requires
        0 <= typ < 4,
        typ == 1 ==> d.y2_dc == e.y2_dc && d.y2_ac == e.y2_ac,
        typ == 2 ==> d.uv_dc == e.uv_dc && d.uv_ac == e.uv_ac,
        typ == 0 || typ == 3 ==> d.y1_dc == e.y1_dc && d.y1_ac == e.y1_ac,
    ensures
        with_block(m, blk, typ, probs, d) == with_block(m, blk, typ, probs, e),
{
}

/// The averages go to the first coefficients of the luma blocks, each to its
/// own block; all other coefficients stay.
pub proof fn law_averages_are_spread(coeffs: Seq<i32>, k: int)
    requires
        coeffs.len() == 400,
        0 <= k < 400,
        forall|j: int| 0 <= j < 16 ==> i32::MIN <= #[trigger] wht(coeffs.subrange(384, 400), j)
            <= i32::MAX,
    ensures
        spread(coeffs).len() == 400,
        k < 16 ==> spread(coeffs)[16 * k] == wht(coeffs.subrange(384, 400), k),
        k >= 256 || k % 16 != 0 ==> spread(coeffs)[k] == coeffs[k],
{
    if k < 16 {
        assert((16 * k) / 16 == k && (16 * k) % 16 == 0);
    }
}

// ── rows and edges ──────────────────────────────────────────────────────────

/// Rows take the partitions in turn: a row reads the partition whose number is
/// its own, counted round, and leaves the others as they are. What they hold
/// makes no difference to it.
pub proof fn law_rows_take_partitions_in_turn(
    h: Header,
    cols: int,
    row: int,
    s: FrameState,
    t: FrameState,
    j: int,
)
    requires
        h.num_parts > 0,
        0 <= row,
        s.parts.len() == h.num_parts,
        0 <= j < h.num_parts,
        j != row % (h.num_parts as int),
        t == (FrameState { parts: s.parts.update(j, t.parts[j]), ..s }),
    ensures
        next_row(h, cols, row, s).parts[j] == s.parts[j],
        next_row(h, cols, row, t).frame == next_row(h, cols, row, s).frame,
        next_row(h, cols, row, t).mbs == next_row(h, cols, row, s).mbs,
        next_row(h, cols, row, s).mbs.len() == s.mbs.len() + row_modes(
            h,
            s.a,
            s.modes,
            cols,
        ).mbs.len(),
{
    reveal(next_row);
    let k = row % h.num_parts as int;
    assert(t.parts[k] == s.parts[k]);
}

/// A macroblock that is skipped takes nothing from its partition and has no
/// residue: it is reconstructed as one whose coefficients are all zero.
pub proof fn law_skipped_macroblocks_read_nothing(
    h: Header,
    cols: int,
    row: int,
    mbs: Seq<Macro>,
    r: RowState,
)
    requires
        r.eobs.len() < mbs.len(),
        mbs[r.eobs.len() as int].skip,
    ensures
        ({
            let n = next_mb(h, cols, row, mbs, r);
            let col = r.eobs.len() as int;
            &&& n.part == r.part
            &&& n.eobs == r.eobs.push(false)
            &&& n.frame == mb_done(
                r.frame,
                cols,
                row,
                col,
                mbs[col],
                Seq::new(400, |i: int| 0i32),
            )
        }),
{
    reveal(next_mb);
}

/// The samples above and to the right of a macroblock stand beside each of its
/// lower rows of subblocks too; no other sample changes.
pub proof fn law_upper_right_is_carried_down(buf: Seq<u8>, p: int, s: int, r: int, k: int, x: int)
    requires
        s >= 21,
        p > s,
        p + 15 * s + 20 <= buf.len(),
        1 <= r <= 3,
        0 <= k < 4,
        0 <= x < buf.len(),
        forall|a: int, b: int|
            1 <= a <= 3 && 0 <= b < 4 ==> x != #[trigger] (p + (4 * a - 1) * s + 16 + b),
    ensures
        ({
            let out = carried_down(buf, p, s);
            &&& out.len() == buf.len()
            &&& out[p + (4 * r - 1) * s + 16 + k] == buf[p - s + 16 + k]
            &&& out[x] == buf[x]
        }),
{
    let v = Seq::new(4, |k: int| buf[p - s + 16 + k]);
    let b1 = put(buf, p + 3 * s + 16, s, 4, 1, v);
    let b2 = put(b1, p + 7 * s + 16, s, 4, 1, v);
    let out = put(b2, p + 11 * s + 16, s, 4, 1, v);
    assert((4 * 1 - 1) * s == 3 * s && (4 * 2 - 1) * s == 7 * s && (4 * 3 - 1) * s == 11 * s);
    let y = p + (4 * r - 1) * s + 16 + k;
    lemma_row_put(buf, p + 3 * s + 16, s, v, y);
    lemma_row_put(b1, p + 7 * s + 16, s, v, y);
    lemma_row_put(b2, p + 11 * s + 16, s, v, y);
    lemma_row_put(buf, p + 3 * s + 16, s, v, x);
    lemma_row_put(b1, p + 7 * s + 16, s, v, x);
    lemma_row_put(b2, p + 11 * s + 16, s, v, x);
    if r == 1 {
        assert(y == p + 3 * s + 16 + k);
    } else if r == 2 {
        assert(y == p + 7 * s + 16 + k);
    } else {
        assert(y == p + 11 * s + 16 + k);
    }
    assert forall|c: int, q: int|
        (q == 3 || q == 7 || q == 11) && 0 <= c < 4 implies x != #[trigger] (p + q * s + 16 + c) by {
        if q == 3 {
            assert(x != p + (4 * 1 - 1) * s + 16 + c);
        } else if q == 7 {
            assert(x != p + (4 * 2 - 1) * s + 16 + c);
        } else {
            assert(x != p + (4 * 3 - 1) * s + 16 + c);
        }
    }
    if p + 3 * s + 16 <= x < p + 3 * s + 20 {
        assert(x != p + 3 * s + 16 + (x - (p + 3 * s + 16)));
    }
    if p + 7 * s + 16 <= x < p + 7 * s + 20 {
        assert(x != p + 7 * s + 16 + (x - (p + 7 * s + 16)));
    }
    if p + 11 * s + 16 <= x < p + 11 * s + 20 {
        assert(x != p + 11 * s + 16 + (x - (p + 11 * s + 16)));
    }
}

proof fn lemma_row_put(buf: Seq<u8>, q: int, s: int, v: Seq<u8>, x: int)
    requires
        s >= 4,
        0 <= q,
        q + 4 <= buf.len(),
        v.len() == 4,
        0 <= x < buf.len(),
    ensures
        put(buf, q, s, 4, 1, v).len() == buf.len(),
        put(buf, q, s, 4, 1, v)[x] == (if q <= x < q + 4 {
            v[x - q]
        } else {
            buf[x]
        }),
{
    if x >= q {
        let d = x - q;
        if d < s {
            assert(d / s == 0 && d % s == d) by (nonlinear_arith)
                requires
                    0 <= d < s,
            ;
        } else {
            assert(d / s >= 1) by (nonlinear_arith)
                requires
                    d >= s,
                    s >= 1,
            ;
        }
        assert((d / s) * 4 + d % s == d % s || d >= s);
    }
}

/// At the left edge of the image there is nothing to go by: the column there is
/// 129, with the corner above it; a mean that has a row above goes by that row
/// on both sides.
pub proof fn law_left_of_the_image(buf: Seq<u8>, p: int, s: int, n: int, row: int, mode: int, i: int)
    requires
        n == 8 || n == 16,
        block_ok(buf.len(), p, s, n),
        0 <= i < n,
    ensures
        ({
            let out = left_fixed(buf, p, s, n, row, mode);
            let at = p + i * s - 1;
            &&& mode == DC_PRED && row > 0 ==> out[at] == buf[p - s + i]
            &&& mode != DC_PRED || row <= 0 ==> out[at] == 129 && out[p - s - 1] == 129
        }),
{
    if mode == DC_PRED && row > 0 {
        let vals = Seq::new(n as nat, |i: int| buf[p - s + i]);
        super::plane::law_put(buf, p - 1, s, 1, n, vals, i, 0);
        assert(p - 1 + i * s + 0 == p + i * s - 1);
        assert(i * 1 + 0 == i);
    } else {
        let vals = Seq::new((n + 1) as nat, |i: int| 129u8);
        assert(n * s == (n - 1) * s + s) by (nonlinear_arith);
        super::plane::law_put(buf, p - 1 - s, s, 1, n + 1, vals, i + 1, 0);
        super::plane::law_put(buf, p - 1 - s, s, 1, n + 1, vals, 0, 0);
        assert((i + 1) * s == i * s + s) by (nonlinear_arith);
        assert(0 * s == 0);
        assert(p - 1 - s + (i + 1) * s + 0 == p + i * s - 1);
        assert((i + 1) * 1 + 0 == i + 1);
    }
}

/// At the top edge of the image the row above is 127, with the corner to its
/// left; a mean that has a column to the left goes by that column on both sides.
/// The four samples beyond are 127 in any case.
pub proof fn law_above_the_image(buf: Seq<u8>, p: int, s: int, n: int, col: int, mode: int, i: int)
    requires
        n == 8 || n == 16,
        block_ok(buf.len(), p, s, n),
        n + 4 <= s,
        0 <= i < n,
    ensures
        ({
            let out = above_fixed(buf, p, s, n, col, mode);
            let at = p - s + i;
            &&& mode == DC_PRED && col > 0 ==> out[at] == buf[p + i * s - 1]
            &&& mode != DC_PRED || col <= 0 ==> out[at] == 127 && out[p - s - 1] == 127
            &&& i < 4 ==> out[p - s + n + i] == 127
        }),
{
    let last = Seq::new(4, |i: int| 127u8);
    let b = if mode == DC_PRED && col > 0 {
        put(buf, p - s, s, n, 1, Seq::new(n as nat, |i: int| buf[p - 1 + i * s]))
    } else {
        put(buf, p - s - 1, s, n + 1, 1, Seq::new((n + 1) as nat, |i: int| 127u8))
    };
    let out = above_fixed(buf, p, s, n, col, mode);
    assert(out == put(b, p - s + n, s, 4, 1, last));
    assert((n - 1) * s >= 0) by (nonlinear_arith)
        requires
            n >= 1,
            s >= 1,
    ;
    lemma_row_put(b, p - s + n, s, last, p - s + i);
    lemma_row_put(b, p - s + n, s, last, p - s - 1);
    if i < 4 {
        lemma_row_put(b, p - s + n, s, last, p - s + n + i);
    }
    if mode == DC_PRED && col > 0 {
        let vals = Seq::new(n as nat, |i: int| buf[p - 1 + i * s]);
        super::plane::law_put(buf, p - s, s, n, 1, vals, 0, i);
        assert(0 * s == 0 && 0 * n == 0);
        assert(p - 1 + i * s == p + i * s - 1);
    } else {
        let vals = Seq::new((n + 1) as nat, |i: int| 127u8);
        super::plane::law_put(buf, p - s - 1, s, n + 1, 1, vals, 0, i + 1);
        super::plane::law_put(buf, p - s - 1, s, n + 1, 1, vals, 0, 0);
        assert(0 * s == 0 && 0 * (n + 1) == 0);
    }
}

/// A step between two flat sides is smoothed exactly where it is small enough:
/// two and a half times it is at most twice the level and the interior limit.
/// Between macroblocks the level counts for two more.
pub proof fn law_small_steps_are_smoothed(buf: Seq<u8>, p: int, s: int, l: Limits, a: int, b: int)
    requires
        edge_ok(buf.len(), p, 1),
        0 <= l.interior,
        0 <= l.variance,
        forall|k: int| -4 <= k < 0 ==> #[trigger] px(buf, p, 1, k) == a,
        forall|k: int| 0 <= k < 4 ==> #[trigger] px(buf, p, 1, k) == b,
        a - b >= 2 || b - a >= 2,
    ensures
        ({
            let d = if a < b {
                b - a
            } else {
                a - b
            };
            let size = 2 * d + d / 2;
            &&& size <= 2 * l.edge + l.interior <==> filtered_at(buf, p, 1, l, true) != buf
            &&& size <= 2 * (l.edge + 2) + l.interior <==> filtered_block(
                buf,
                p,
                s,
                1,
                true,
                false,
                false,
                l,
            ) != buf
        }),
{
    let wider = Limits { edge: l.edge + 2, ..l };
    lemma_small_step(buf, p, l, a, b);
    lemma_small_step(buf, p, wider, a, b);
    assert(super::filter::filtered_edge(buf, p, 1, s, 0, wider, true) == buf);
    assert(p + (1 - 1) * s == p);
    assert(super::filter::filtered_edge(buf, p, 1, s, 1, wider, true) == filtered_at(
        buf,
        p,
        1,
        wider,
        true,
    ));
}

proof fn lemma_small_step(buf: Seq<u8>, p: int, l: Limits, a: int, b: int)
    requires
        edge_ok(buf.len(), p, 1),
        0 <= l.interior,
        0 <= l.variance,
        forall|k: int| -4 <= k < 0 ==> #[trigger] px(buf, p, 1, k) == a,
        forall|k: int| 0 <= k < 4 ==> #[trigger] px(buf, p, 1, k) == b,
        a - b >= 2 || b - a >= 2,
    ensures
        ({
            let d = if a < b {
                b - a
            } else {
                a - b
            };
            2 * d + d / 2 <= 2 * l.edge + l.interior <==> filtered_at(buf, p, 1, l, true) != buf
        }),
{
    assert(px(buf, p, 1, -4) == a && px(buf, p, 1, -3) == a && px(buf, p, 1, -2) == a && px(
        buf,
        p,
        1,
        -1,
    ) == a);
    assert(px(buf, p, 1, 0) == b && px(buf, p, 1, 1) == b && px(buf, p, 1, 2) == b && px(
        buf,
        p,
        1,
        3,
    ) == b);
    let out = wide(buf, p, 1);
    assert(out[p] != buf[p]);
}

} // verus!
