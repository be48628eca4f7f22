//! A whole keyframe: macroblocks row by row, the loop filter, colour
//! conversion.
//!
//! Planes carry a border of 32 samples on every side, so that prediction and
//! filtering find neighbours everywhere.
use super::arith::{bit, start, Arith, Bool};
use super::dct::{clamp, clamp255, coeffs_ok, MAX_AVERAGE};
use super::filter::{
    filter_block, filter_block_simple, filter_params, filtered_block, interior_limit, mb_level,
    settings_ok, simple_block, variance_limit, Lf, Limits, Settings,
};
use super::header::{
    dequant_of, factors, header_ok, le24, parse_header, partitions, read_header, split_partitions,
    FrameHeader, Header,
};
use super::modes::{
    parse_modes, read_kf_modes, read_segment_id, replaced, segment_id, submodes_ok, Macro, Mb,
};
use super::predict::B_PRED;
use super::recon::{chroma_done, luma_done, reconstruct_chroma, reconstruct_luma};
use super::tokens::{
    cleared, decode_mb_tokens, flags_ok, macroblock, reset_mb_ctx, within, Dequant, MbState,
};
use vstd::prelude::*;
use vstd::slice::slice_subrange;

verus! {

/// The border around a plane.
pub const BORDER: usize = 32;

// ── planes ──────────────────────────────────────────────────────────────────

/// A frame in three planes.
pub struct Planes {
    pub w: usize,
    pub h: usize,
    pub y: Vec<u8>,
    pub u: Vec<u8>,
    pub v: Vec<u8>,
    /// Luma stride.
    pub ys: usize,
    /// Chroma stride.
    pub cs: usize,
    /// The first luma sample of the image.
    pub y0: usize,
    /// The first chroma sample of the image.
    pub c0: usize,
}

/// The samples of a frame.
pub ghost struct Frame {
    pub y: Seq<u8>,
    pub u: Seq<u8>,
    pub v: Seq<u8>,
}

impl View for Planes {
    type V = Frame;

    open spec fn view(&self) -> Frame {
        Frame { y: self.y@, u: self.u@, v: self.v@ }
    }
}

/// The stride of a plane of `cols` blocks of `n` samples.
pub open spec fn stride(cols: int, n: int) -> int {
    cols * n + 64
}

/// The number of samples of a plane of `rows` by `cols` blocks.
pub open spec fn plane_len(rows: int, cols: int, n: int) -> int {
    stride(cols, n) * stride(rows, n)
}

/// The first sample of a block of a plane.
pub open spec fn block_at(cols: int, n: int, row: int, col: int) -> int {
    (32 + row * n) * stride(cols, n) + 32 + col * n
}

pub open spec fn planes_ok(p: Planes, rows: int, cols: int) -> bool {
    &&& p.ys == stride(cols, 16)
    &&& p.cs == stride(cols, 8)
    &&& p.y@.len() == plane_len(rows, cols, 16)
    &&& p.u@.len() == plane_len(rows, cols, 8)
    &&& p.v@.len() == plane_len(rows, cols, 8)
    &&& p.y0 == block_at(cols, 16, 0, 0)
    &&& p.c0 == block_at(cols, 8, 0, 0)
}

/// A block lies well inside its plane.
proof fn lemma_block_inside(rows: int, cols: int, n: int, row: int, col: int)
    requires
        n == 8 || n == 16,
        0 <= row < rows,
        0 <= col < cols,
    ensures
        ({
            let s = stride(cols, n);
            let p = block_at(cols, n, row, col);
            &&& s >= 72
            &&& 4 * s + 4 <= p
            &&& p + (n - 1) * s + n + 4 <= plane_len(rows, cols, n)
            &&& p == block_at(cols, n, 0, 0) + row * n * s + col * n
            &&& 0 <= row * n <= row * n * s
            &&& 0 <= col * n
        }),
{
    let s = stride(cols, n);
    let p = block_at(cols, n, row, col);
    assert(0 <= row * n <= (rows - 1) * n) by (nonlinear_arith)
        requires
            0 <= row <= rows - 1,
            n >= 1,
    ;
    assert(0 <= col * n <= (cols - 1) * n) by (nonlinear_arith)
        requires
            0 <= col <= cols - 1,
            n >= 1,
    ;
    assert((cols - 1) * n == cols * n - n) by (nonlinear_arith);
    assert((rows - 1) * n == rows * n - n) by (nonlinear_arith);
    assert(s >= 64 + n);
    let t = 32 + row * n;
    assert(t * s >= 32 * s) by (nonlinear_arith)
        requires
            t >= 32,
            s >= 1,
    ;
    assert(t * s == 32 * s + row * n * s) by (nonlinear_arith)
        requires
            t == 32 + row * n,
    ;
    assert(row * n * s >= row * n) by (nonlinear_arith)
        requires
            row * n >= 0,
            s >= 1,
    ;
    assert(t * s + (n - 1) * s + s <= s * stride(rows, n)) by (nonlinear_arith)
        requires
            t + n <= stride(rows, n),
            s >= 1,
    ;
    assert((32 + 0 * n) * s == 32 * s) by (nonlinear_arith);
}

fn blank_planes(w: usize, h: usize, rows: usize, cols: usize) -> (p: Planes)
    requires
        1 <= rows <= 1024,
        1 <= cols <= 1024,
    ensures
        planes_ok(p, rows as int, cols as int),
        p.w == w,
        p.h == h,
        p@ == blank_frame(rows as int, cols as int),
{
    let ys: usize = cols * 16 + 2 * BORDER;
    let cs: usize = cols * 8 + 2 * BORDER;
    let yh: usize = rows * 16 + 2 * BORDER;
    let ch: usize = rows * 8 + 2 * BORDER;
    proof {
        assert(ys * yh <= 16448 * 16448) by (nonlinear_arith)
            requires
                ys <= 16448,
                yh <= 16448,
        ;
        assert(cs * ch <= 16448 * 16448) by (nonlinear_arith)
            requires
                cs <= 16448,
                ch <= 16448,
        ;
        assert((32 + 0 * 16) * ys == 32 * ys) by (nonlinear_arith);
        assert((32 + 0 * 8) * cs == 32 * cs) by (nonlinear_arith);
    }
    let p = Planes {
        w,
        h,
        y: vec![0u8; ys * yh],
        u: vec![0u8; cs * ch],
        v: vec![0u8; cs * ch],
        ys,
        cs,
        y0: BORDER * ys + BORDER,
        c0: BORDER * cs + BORDER,
    };
    proof {
        let f = blank_frame(rows as int, cols as int);
        assert(p.y@ =~= f.y);
        assert(p.u@ =~= f.u);
        assert(p.v@ =~= f.v);
    }
    p
}

pub open spec fn blank_frame(rows: int, cols: int) -> Frame {
    Frame {
        y: Seq::new(plane_len(rows, cols, 16) as nat, |i: int| 0u8),
        u: Seq::new(plane_len(rows, cols, 8) as nat, |i: int| 0u8),
        v: Seq::new(plane_len(rows, cols, 8) as nat, |i: int| 0u8),
    }
}

/// The frame with a macroblock reconstructed.
#[verifier::opaque]
pub open spec fn mb_done(f: Frame, cols: int, row: int, col: int, m: Macro, coeffs: Seq<i32>) -> Frame {
    let ys = stride(cols, 16);
    let cs = stride(cols, 8);
    let yp = block_at(cols, 16, row, col);
    let cp = block_at(cols, 8, row, col);
    Frame {
        y: luma_done(f.y, yp, ys, row, col, col == cols - 1, m, coeffs),
        u: chroma_done(f.u, cp, cs, row, col, m.uv_mode, coeffs, 16),
        v: chroma_done(f.v, cp, cs, row, col, m.uv_mode, coeffs, 20),
    }
}

/// Reconstruct a macroblock.
pub fn reconstruct_mb(
    pl: &mut Planes,
    row: usize,
    col: usize,
    mb: &Mb,
    coeffs: &Vec<i32>,
    mb_cols: usize,
    Ghost(rows): Ghost<int>,
)
    requires
        planes_ok(*old(pl), rows, mb_cols as int),
        row < rows,
        col < mb_cols,
        coeffs@.len() == 400,
        coeffs_ok(coeffs@),
    ensures
        planes_ok(*final(pl), rows, mb_cols as int),
        final(pl)@ == mb_done(
            old(pl)@,
            mb_cols as int,
            row as int,
            col as int,
            mb@,
            coeffs@,
        ),
        final(pl).w == old(pl).w,
        final(pl).h == old(pl).h,
{
    let ys: usize = pl.ys;
    let cs: usize = pl.cs;
    let ylen: usize = pl.y.len();
    let clen: usize = pl.u.len();
    proof {
        lemma_block_inside(rows, mb_cols as int, 16, row as int, col as int);
        lemma_block_inside(rows, mb_cols as int, 8, row as int, col as int);
    }
    proof {
        reveal(mb_done);
    }
    let yp: usize = pl.y0 + row * 16 * ys + col * 16;
    let cp: usize = pl.c0 + row * 8 * cs + col * 8;
    reconstruct_luma(&mut pl.y, yp, ys, row, col, col == mb_cols - 1, mb, coeffs);
    reconstruct_chroma(&mut pl.u, cp, cs, row, col, mb.uv_mode, coeffs, 16);
    reconstruct_chroma(&mut pl.v, cp, cs, row, col, mb.uv_mode, coeffs, 20);
}

// ── modes of a row ──────────────────────────────────────────────────────────

/// The modes of a row, as far as they are read.
pub ghost struct RowModes {
    pub a: Arith,
    pub left: Seq<u8>,
    pub above: Seq<u8>,
    pub mbs: Seq<Macro>,
}

/// The segment, skip flag and modes of the next macroblock.
#[verifier::opaque]
pub open spec fn next_modes(h: Header, r: RowModes) -> RowModes {
    let col = r.mbs.len();
    let (segment, a1) = if h.seg.update_map {
        segment_id(r.a, h.seg.probs)
    } else {
        (0, r.a)
    };
    let (skip, a2) = if h.skip_enabled {
        bit(a1, h.skip_prob)
    } else {
        (false, a1)
    };
    let (m, a3) = parse_modes(a2, r.left, r.above.subrange(4 * col as int, 4 * col as int + 4));
    RowModes {
        a: a3,
        left: m.left,
        above: replaced(r.above, 4 * col as int, m.above),
        mbs: r.mbs.push(
            Macro {
                y_mode: m.y_mode,
                uv_mode: m.uv_mode,
                b_modes: m.b_modes,
                skip,
                segment: segment as int,
                eob: false,
            },
        ),
    }
}

/// The modes of the first `n` macroblocks of a row.
pub open spec fn row_modes(h: Header, a: Arith, above: Seq<u8>, n: int) -> RowModes
    decreases n,
{
    if n <= 0 {
        RowModes { a, left: Seq::new(4, |i: int| 0u8), above, mbs: Seq::empty() }
    } else {
        next_modes(h, row_modes(h, a, above, n - 1))
    }
}

pub open spec fn views(m: Seq<Mb>) -> Seq<Macro> {
    m.map_values(|x: Mb| x@)
}

pub open spec fn mb_ok(m: Mb) -> bool {
    m.segment < 4
}

pub open spec fn mbs_ok(m: Seq<Mb>) -> bool {
    forall|k: int| 0 <= k < m.len() ==> mb_ok(#[trigger] m[k])
}

fn read_row_modes(b: &mut Bool, h: &FrameHeader, cols: usize, above: &mut Vec<u8>) -> (mbs: Vec<
    Mb,
>)
    requires
        old(b).wf(),
        header_ok(h@),
        1 <= cols <= 1024,
        old(above)@.len() == 4 * cols,
        submodes_ok(old(above)@),
    ensures
        final(b).wf(),
        ({
            let r = row_modes(h@, old(b)@, old(above)@, cols as int);
            &&& views(mbs@) == r.mbs
            &&& final(b)@ == r.a
            &&& final(above)@ == r.above
        }),
        mbs@.len() == cols,
        mbs_ok(mbs@),
        final(above)@.len() == 4 * cols,
        submodes_ok(final(above)@),
{
    let ghost a = b@;
    let ghost above0 = above@;
    let mut left: [u8; 4] = [0;4];
    let mut mbs: Vec<Mb> = Vec::new();
    let mut col: usize = 0;
    proof {
        assert(left@ =~= Seq::new(4, |i: int| 0u8));
        assert(views(mbs@) =~= Seq::empty());
    }
    while col < cols
        invariant
            col <= cols <= 1024,
            header_ok(h@),
            b.wf(),
            above@.len() == 4 * cols,
            submodes_ok(above@),
            submodes_ok(left@),
            mbs@.len() == col,
            mbs_ok(mbs@),
            row_modes(h@, a, above0, col as int) == (RowModes {
                a: b@,
                left: left@,
                above: above@,
                mbs: views(mbs@),
            }),
        decreases cols - col,
    {
        let ghost done = views(mbs@);
        let ghost prior = RowModes { a: b@, left: left@, above: above@, mbs: done };
        let mut mb: Mb = Mb::blank();
        if h.seg.update_map {
            mb.segment = read_segment_id(b, &h.seg.probs);
        }
        if h.skip_enabled {
            mb.skip = b.get(h.skip_prob) != 0;
        }
        read_kf_modes(b, &mut mb, &mut left, above, col);
        mbs.push(mb);
        proof {
            reveal(next_modes);
            let next = next_modes(h@, prior);
            assert(views(mbs@) =~= done.push(mb@));
            assert(next.mbs =~= views(mbs@));
        }
        col = col + 1;
    }
    mbs
}

// ── coefficients of a row ───────────────────────────────────────────────────

/// A row of macroblocks, as far as it is reconstructed.
pub ghost struct RowState {
    pub part: Arith,
    pub left: Seq<u8>,
    pub above: Seq<Seq<u8>>,
    pub frame: Frame,
    pub eobs: Seq<bool>,
}

pub open spec fn no_coeffs() -> Seq<i32> {
    Seq::new(400, |i: int| 0i32)
}

/// The coefficients and the reconstruction of the next macroblock.
#[verifier::opaque]
pub open spec fn next_mb(h: Header, cols: int, row: int, mbs: Seq<Macro>, r: RowState) -> RowState {
    let col = r.eobs.len() as int;
    let m = mbs[col];
    let t = if m.skip {
        MbState {
            a: r.part,
            left: cleared(r.left, m.y_mode),
            above: cleared(r.above[col], m.y_mode),
            coeffs: no_coeffs(),
            any: false,
        }
    } else {
        macroblock(
            MbState {
                a: r.part,
                left: r.left,
                above: r.above[col],
                coeffs: no_coeffs(),
                any: false,
            },
            m.y_mode,
            h.probs,
            factors(h.quant, h.seg, m.segment),
        )
    };
    RowState {
        part: t.a,
        left: t.left,
        above: r.above.update(col, t.above),
        frame: mb_done(r.frame, cols, row, col, m, t.coeffs),
        eobs: r.eobs.push(t.any),
    }
}

/// The first `n` macroblocks of a row.
pub open spec fn row_done(
    h: Header,
    cols: int,
    row: int,
    mbs: Seq<Macro>,
    part: Arith,
    above: Seq<Seq<u8>>,
    frame: Frame,
    n: int,
) -> RowState
    decreases n,
{
    if n <= 0 {
        RowState {
            part,
            left: Seq::new(9, |i: int| 0u8),
            above,
            frame,
            eobs: Seq::empty(),
        }
    } else {
        next_mb(h, cols, row, mbs, row_done(h, cols, row, mbs, part, above, frame, n - 1))
    }
}

pub open spec fn contexts(c: Seq<[u8; 9]>) -> Seq<Seq<u8>> {
    c.map_values(|x: [u8; 9]| x@)
}

pub open spec fn contexts_ok(c: Seq<[u8; 9]>) -> bool {
    forall|k: int| 0 <= k < c.len() ==> flags_ok((#[trigger] c[k])@)
}

/// The macroblocks of a row with their coefficient flags.
pub open spec fn flagged(mbs: Seq<Macro>, eobs: Seq<bool>) -> Seq<Macro> {
    Seq::new(mbs.len(), |i: int| Macro { eob: eobs[i], ..mbs[i] })
}

fn decode_mb(
    part: &mut Bool,
    h: &FrameHeader,
    mb: &Mb,
    left: &mut [u8; 9],
    above: &mut [u8; 9],
    coeffs: &mut Vec<i32>,
) -> (any: bool)
    requires
        old(part).wf(),
        header_ok(h@),
        mb_ok(*mb),
        flags_ok(old(left)@),
        flags_ok(old(above)@),
        old(coeffs)@ == no_coeffs(),
    ensures
        final(part).wf(),
        flags_ok(final(left)@),
        flags_ok(final(above)@),
        final(coeffs)@.len() == 400,
        coeffs_ok(final(coeffs)@),
        ({
            let t = if mb.skip {
                MbState {
                    a: old(part)@,
                    left: cleared(old(left)@, mb.y_mode as int),
                    above: cleared(old(above)@, mb.y_mode as int),
                    coeffs: no_coeffs(),
                    any: false,
                }
            } else {
                macroblock(
                    MbState {
                        a: old(part)@,
                        left: old(left)@,
                        above: old(above)@,
                        coeffs: no_coeffs(),
                        any: false,
                    },
                    mb.y_mode as int,
                    h.probs@,
                    factors(h.quant, h.seg@, mb.segment as int),
                )
            };
            t == MbState {
                a: final(part)@,
                left: final(left)@,
                above: final(above)@,
                coeffs: final(coeffs)@,
                any,
            }
        }),
{
    if mb.skip {
        reset_mb_ctx(left, above, mb.y_mode);
        false
    } else {
        let d: Dequant = dequant_of(&h.quant, &h.seg, mb.segment);
        assert(within(coeffs@, MAX_AVERAGE as int));
        decode_mb_tokens(part, left, above, coeffs, mb.y_mode, &h.probs, &d)
    }
}

fn decode_row(
    part: &mut Bool,
    h: &FrameHeader,
    pl: &mut Planes,
    row: usize,
    cols: usize,
    mbs: &mut Vec<Mb>,
    above: &mut Vec<[u8; 9]>,
    Ghost(rows): Ghost<int>,
)
    requires
        old(part).wf(),
        header_ok(h@),
        1 <= cols <= 1024,
        row < rows,
        planes_ok(*old(pl), rows, cols as int),
        old(mbs)@.len() == cols,
        mbs_ok(old(mbs)@),
        old(above)@.len() == cols,
        contexts_ok(old(above)@),
    ensures
        final(part).wf(),
        planes_ok(*final(pl), rows, cols as int),
        final(pl).w == old(pl).w,
        final(pl).h == old(pl).h,
        final(mbs)@.len() == cols,
        mbs_ok(final(mbs)@),
        final(above)@.len() == cols,
        contexts_ok(final(above)@),
        ({
            let r = row_done(
                h@,
                cols as int,
                row as int,
                views(old(mbs)@),
                old(part)@,
                contexts(old(above)@),
                old(pl)@,
                cols as int,
            );
            &&& final(part)@ == r.part
            &&& contexts(final(above)@) == r.above
            &&& final(pl)@ == r.frame
            &&& views(final(mbs)@) == flagged(views(old(mbs)@), r.eobs)
        }),
{
    let ghost m0 = views(mbs@);
    let ghost part0 = part@;
    let ghost above0 = contexts(above@);
    let ghost frame0 = pl@;
    let ghost mut eobs: Seq<bool> = Seq::empty();
    let mut left: [u8; 9] = [0;9];
    assert(left@ =~= Seq::new(9, |i: int| 0u8));
    let mut col: usize = 0;
    while col < cols
        invariant
            col <= cols <= 1024,
            row < rows,
            header_ok(h@),
            part.wf(),
            planes_ok(*pl, rows, cols as int),
            pl.w == old(pl).w,
            pl.h == old(pl).h,
            mbs@.len() == cols,
            mbs_ok(mbs@),
            m0.len() == cols,
            above@.len() == cols,
            contexts_ok(above@),
            flags_ok(left@),
            eobs.len() == col,
            forall|k: int|
                0 <= k < cols ==> (#[trigger] mbs@[k])@ == (if k < col {
                    Macro { eob: eobs[k], ..m0[k] }
                } else {
                    m0[k]
                }),
            row_done(
                h@,
                cols as int,
                row as int,
                m0,
                part0,
                above0,
                frame0,
                col as int,
            ) == (RowState {
                part: part@,
                left: left@,
                above: contexts(above@),
                frame: pl@,
                eobs,
            }),
        decreases cols - col,
    {
        let ghost prior = RowState {
            part: part@,
            left: left@,
            above: contexts(above@),
            frame: pl@,
            eobs,
        };
        let mut mb: Mb = mbs[col];
        assert(mb@ == m0[col as int]);
        let mut up: [u8; 9] = above[col];
        assert(prior.above[col as int] == up@);
        let mut coeffs: Vec<i32> = vec![0i32; 400];
        assert(coeffs@ =~= no_coeffs());
        let any: bool = decode_mb(part, h, &mb, &mut left, &mut up, &mut coeffs);
        above.set(col, up);
        assert(contexts(above@) =~= prior.above.update(col as int, up@));
        reconstruct_mb(pl, row, col, &mb, &coeffs, cols, Ghost(rows));
        mb.eob = any;
        mbs.set(col, mb);
        proof {
            eobs = eobs.push(any);
            reveal(next_mb);
            let next = next_mb(h@, cols as int, row as int, m0, prior);
            assert(next.eobs =~= eobs);
        }
        col = col + 1;
    }
    proof {
        assert(views(mbs@) =~= flagged(m0, eobs));
    }
}

// ── rows of a frame ─────────────────────────────────────────────────────────

/// A frame, as far as its rows are reconstructed.
pub ghost struct FrameState {
    pub a: Arith,
    pub modes: Seq<u8>,
    pub parts: Seq<Arith>,
    pub above: Seq<Seq<u8>>,
    pub frame: Frame,
    pub mbs: Seq<Macro>,
}

/// One more row: its modes from the first partition, its coefficients from the
/// partitions in turn.
#[verifier::opaque]
pub open spec fn next_row(h: Header, cols: int, row: int, s: FrameState) -> FrameState {
    let m = row_modes(h, s.a, s.modes, cols);
    let k = row % h.num_parts as int;
    let r = row_done(h, cols, row, m.mbs, s.parts[k], s.above, s.frame, cols);
    FrameState {
        a: m.a,
        modes: m.above,
        parts: s.parts.update(k, r.part),
        above: r.above,
        frame: r.frame,
        mbs: s.mbs + flagged(m.mbs, r.eobs),
    }
}

/// The first `n` rows.
pub open spec fn rows_done(h: Header, cols: int, s: FrameState, n: int) -> FrameState
    decreases n,
{
    if n <= 0 {
        s
    } else {
        next_row(h, cols, n - 1, rows_done(h, cols, s, n - 1))
    }
}

/// A frame before its first row.
pub open spec fn first_state(
    a: Arith,
    parts: Seq<Seq<u8>>,
    rows: int,
    cols: int,
) -> FrameState {
    FrameState {
        a,
        modes: Seq::new((4 * cols) as nat, |i: int| 0u8),
        parts: parts.map_values(|d: Seq<u8>| start(d)),
        above: Seq::new(cols as nat, |i: int| Seq::new(9, |k: int| 0u8)),
        frame: blank_frame(rows, cols),
        mbs: Seq::empty(),
    }
}

pub open spec fn part_views(p: Seq<Bool>) -> Seq<Arith> {
    p.map_values(|b: Bool| b@)
}

fn decode_rows(
    b: &mut Bool,
    parts: &mut Vec<Bool>,
    h: &FrameHeader,
    pl: &mut Planes,
    rows: usize,
    cols: usize,
) -> (mbs: Vec<Mb>)
    requires
        old(b).wf(),
        header_ok(h@),
        1 <= rows <= 1024,
        1 <= cols <= 1024,
        old(parts)@.len() == h.num_parts,
        forall|k: int| 0 <= k < old(parts)@.len() ==> (#[trigger] old(parts)@[k]).wf(),
        planes_ok(*old(pl), rows as int, cols as int),
    ensures
        planes_ok(*final(pl), rows as int, cols as int),
        final(pl).w == old(pl).w,
        final(pl).h == old(pl).h,
        mbs@.len() == rows * cols,
        mbs_ok(mbs@),
        ({
            let s = FrameState {
                a: old(b)@,
                modes: Seq::new((4 * cols) as nat, |i: int| 0u8),
                parts: part_views(old(parts)@),
                above: Seq::new(cols as nat, |i: int| Seq::new(9, |k: int| 0u8)),
                frame: old(pl)@,
                mbs: Seq::empty(),
            };
            let r = rows_done(h@, cols as int, s, rows as int);
            &&& final(pl)@ == r.frame
            &&& views(mbs@) == r.mbs
        }),
{
    let ghost s0 = FrameState {
        a: b@,
        modes: Seq::new((4 * cols) as nat, |i: int| 0u8),
        parts: part_views(parts@),
        above: Seq::new(cols as nat, |i: int| Seq::new(9, |k: int| 0u8)),
        frame: pl@,
        mbs: Seq::empty(),
    };
    let num: usize = h.num_parts;
    let mut modes: Vec<u8> = vec![0u8; 4 * cols];
    let mut above: Vec<[u8; 9]> = Vec::new();
    let mut i: usize = 0;
    while i < cols
        invariant
            i <= cols,
            above@.len() == i,
            forall|k: int|
                0 <= k < i ==> (#[trigger] above@[k])@ == Seq::new(9, |j: int| 0u8),
        decreases cols - i,
    {
        let zero: [u8; 9] = [0;9];
        assert(zero@ =~= Seq::new(9, |j: int| 0u8));
        above.push(zero);
        i = i + 1;
    }
    let mut mbs: Vec<Mb> = Vec::new();
    proof {
        assert(modes@ =~= s0.modes);
        assert(contexts(above@) =~= s0.above);
        assert(views(mbs@) =~= Seq::empty());
        assert forall|k: int| 0 <= k < above@.len() implies flags_ok((#[trigger] above@[k])@) by {
            assert(above@[k]@ == Seq::new(9, |j: int| 0u8));
        }
    }
    let mut row: usize = 0;
    while row < rows
        invariant
            row <= rows <= 1024,
            1 <= cols <= 1024,
            header_ok(h@),
            num == h.num_parts,
            b.wf(),
            parts@.len() == num,
            forall|k: int| 0 <= k < parts@.len() ==> (#[trigger] parts@[k]).wf(),
            planes_ok(*pl, rows as int, cols as int),
            pl.w == old(pl).w,
            pl.h == old(pl).h,
            modes@.len() == 4 * cols,
            submodes_ok(modes@),
            above@.len() == cols,
            contexts_ok(above@),
            mbs@.len() == row * cols,
            mbs_ok(mbs@),
            rows_done(h@, cols as int, s0, row as int) == (FrameState {
                a: b@,
                modes: modes@,
                parts: part_views(parts@),
                above: contexts(above@),
                frame: pl@,
                mbs: views(mbs@),
            }),
        decreases rows - row,
    {
        let ghost prior = FrameState {
            a: b@,
            modes: modes@,
            parts: part_views(parts@),
            above: contexts(above@),
            frame: pl@,
            mbs: views(mbs@),
        };
        let ghost done = mbs@;
        let mut line: Vec<Mb> = read_row_modes(b, h, cols, &mut modes);
        let k: usize = row % num;
        let mut part: Bool = parts.remove(k);
        assert(prior.parts[k as int] == part@);
        decode_row(&mut part, h, pl, row, cols, &mut line, &mut above, Ghost(rows as int));
        let ghost after = part@;
        parts.insert(k, part);
        proof {
            assert(part_views(parts@) =~= prior.parts.update(k as int, after));
        }
        let ghost line1 = line@;
        mbs.append(&mut line);
        proof {
            reveal(next_row);
            assert(mbs@ =~= done + line1);
            assert(views(mbs@) =~= views(done) + views(line1));
            assert((row + 1) * cols == row * cols + cols) by (nonlinear_arith);
        }
        row = row + 1;
    }
    mbs
}

// ── loop filter ─────────────────────────────────────────────────────────────

/// The frame with one macroblock filtered.
#[verifier::opaque]
pub open spec fn filtered_mb(f: Frame, cols: int, row: int, col: int, m: Macro, lf: Settings) -> Frame {
    let e = mb_level(lf, m);
    let l = Limits {
        edge: e,
        interior: interior_limit(e, lf.sharpness),
        variance: variance_limit(e),
    };
    let inner = m.eob || m.y_mode == B_PRED;
    let yp = block_at(cols, 16, row, col);
    let cp = block_at(cols, 8, row, col);
    let ys = stride(cols, 16);
    let cs = stride(cols, 8);
    if e == 0 {
        f
    } else if lf.simple {
        Frame {
            y: simple_block(f.y, yp, ys, col > 0, row > 0, inner, l.edge, l.interior),
            ..f
        }
    } else {
        Frame {
            y: filtered_block(f.y, yp, ys, 16, col > 0, row > 0, inner, l),
            u: filtered_block(f.u, cp, cs, 8, col > 0, row > 0, inner, l),
            v: filtered_block(f.v, cp, cs, 8, col > 0, row > 0, inner, l),
        }
    }
}

/// The frame with the first `n` macroblocks filtered, row by row.
pub open spec fn filtered_upto(f: Frame, cols: int, mbs: Seq<Macro>, lf: Settings, n: int) -> Frame
    decreases n,
{
    if n <= 0 {
        f
    } else {
        let i = n - 1;
        filtered_mb(filtered_upto(f, cols, mbs, lf, i), cols, i / cols, i % cols, mbs[i], lf)
    }
}

/// The filtered frame; filter level zero turns the filter off.
pub open spec fn filtered(f: Frame, rows: int, cols: int, mbs: Seq<Macro>, lf: Settings) -> Frame {
    if lf.level == 0 {
        f
    } else {
        filtered_upto(f, cols, mbs, lf, rows * cols)
    }
}

fn filter_mb(
    pl: &mut Planes,
    m: &Mb,
    row: usize,
    col: usize,
    cols: usize,
    lf: &Lf,
    Ghost(rows): Ghost<int>,
)
    requires
        planes_ok(*old(pl), rows, cols as int),
        row < rows,
        col < cols,
        settings_ok(lf@),
        mb_ok(*m),
    ensures
        planes_ok(*final(pl), rows, cols as int),
        final(pl).w == old(pl).w,
        final(pl).h == old(pl).h,
        final(pl)@ == filtered_mb(old(pl)@, cols as int, row as int, col as int, m@, lf@),
{
    proof {
        reveal(filtered_mb);
    }
    let (e, i, hev_t): (i32, i32, i32) = filter_params(lf, m);
    if e == 0 {
        return;
    }
    let ys: usize = pl.ys;
    let cs: usize = pl.cs;
    let ylen: usize = pl.y.len();
    let clen: usize = pl.u.len();
    proof {
        lemma_block_inside(rows, cols as int, 16, row as int, col as int);
        lemma_block_inside(rows, cols as int, 8, row as int, col as int);
    }
    let yp: usize = pl.y0 + row * 16 * ys + col * 16;
    let cp: usize = pl.c0 + row * 8 * cs + col * 8;
    let inner: bool = m.eob || m.y_mode == B_PRED;
    if lf.use_simple {
        filter_block_simple(&mut pl.y, yp, ys, col > 0, row > 0, inner, e, i);
    } else {
        filter_block(&mut pl.y, yp, ys, 16, col > 0, row > 0, inner, e, i, hev_t);
        filter_block(&mut pl.u, cp, cs, 8, col > 0, row > 0, inner, e, i, hev_t);
        filter_block(&mut pl.v, cp, cs, 8, col > 0, row > 0, inner, e, i, hev_t);
    }
}

/// Filter a frame.
pub fn loop_filter(pl: &mut Planes, mbs: &Vec<Mb>, rows: usize, cols: usize, lf: &Lf)
    requires
        1 <= rows <= 1024,
        1 <= cols <= 1024,
        planes_ok(*old(pl), rows as int, cols as int),
        mbs@.len() == rows * cols,
        mbs_ok(mbs@),
        settings_ok(lf@),
    ensures
        planes_ok(*final(pl), rows as int, cols as int),
        final(pl).w == old(pl).w,
        final(pl).h == old(pl).h,
        final(pl)@ == filtered(old(pl)@, rows as int, cols as int, views(mbs@), lf@),
{
    if lf.level == 0 {
        return;
    }
    let ghost f0 = pl@;
    let n: usize = mbs.len();
    let mut i: usize = 0;
    while i < n
        invariant
            i <= n,
            n == rows * cols,
            1 <= rows <= 1024,
            1 <= cols <= 1024,
            planes_ok(*pl, rows as int, cols as int),
            pl.w == old(pl).w,
            pl.h == old(pl).h,
            mbs@.len() == n,
            mbs_ok(mbs@),
            settings_ok(lf@),
            pl@ == filtered_upto(f0, cols as int, views(mbs@), lf@, i as int),
        decreases n - i,
    {
        let row: usize = i / cols;
        let col: usize = i % cols;
        proof {
            assert(row < rows) by (nonlinear_arith)
                requires
                    i < rows * cols,
                    row == i / cols,
                    cols >= 1,
            ;
        }
        filter_mb(pl, &mbs[i], row, col, cols, lf, Ghost(rows as int));
        i = i + 1;
    }
}

// ── the frame ───────────────────────────────────────────────────────────────

/// A 16-bit number, low byte first.
pub open spec fn le16(d: Seq<u8>, i: int) -> nat {
    (d[i] + 256 * d[i + 1]) as nat
}

/// The size of a frame and where its first partition ends, from the first ten
/// bytes; only keyframes have the start code.
pub ghost struct Tag {
    pub w: nat,
    pub h: nat,
    pub first: nat,
}

pub open spec fn parse_tag(d: Seq<u8>) -> Option<Tag> {
    if d.len() < 10 {
        None
    } else if d[0] % 2 != 0 || d[3] != 0x9d || d[4] != 0x01 || d[5] != 0x2a {
        None
    } else {
        let w = le16(d, 6) % 0x4000;
        let h = le16(d, 8) % 0x4000;
        let first = le24(d, 0) / 32;
        if w == 0 || h == 0 || d.len() - 10 < first {
            None
        } else {
            Some(Tag { w, h, first })
        }
    }
}

/// The number of macroblocks that `n` samples reach into.
pub open spec fn mb_count(n: nat) -> int {
    (n as int + 15) / 16
}

/// A keyframe: its size and its filtered samples.
pub open spec fn parse_frame(d: Seq<u8>) -> Option<(nat, nat, Frame)> {
    match parse_tag(d) {
        None => None,
        Some(t) => {
            let rows = mb_count(t.h);
            let cols = mb_count(t.w);
            let data = d.skip(10);
            let (h, a) = parse_header(start(data.subrange(0, t.first as int)));
            match partitions(data.skip(t.first as int), h.num_parts) {
                None => None,
                Some(parts) => {
                    let s = rows_done(h, cols, first_state(a, parts, rows, cols), rows);
                    Some((t.w, t.h, filtered(s.frame, rows, cols, s.mbs, h.lf)))
                },
            }
        },
    }
}

fn read_tag(body: &[u8]) -> (t: Option<(usize, usize, usize)>)
    ensures
        match parse_tag(body@) {
            Some(d) => {
                &&& t is Some
                &&& (t->0).0 == d.w
                &&& (t->0).1 == d.h
                &&& (t->0).2 == d.first
                &&& 1 <= d.w < 0x4000
                &&& 1 <= d.h < 0x4000
                &&& body@.len() >= 10 + d.first
            },
            None => t is None,
        },
{
    if body.len() < 10 {
        return None;
    }
    if body[0] % 2 != 0 || body[3] != 0x9d || body[4] != 0x01 || body[5] != 0x2a {
        return None;
    }
    let raw: usize = body[0] as usize + 256 * body[1] as usize + 65536 * body[2] as usize;
    let first: usize = raw / 32;
    let w: usize = (body[6] as usize + 256 * body[7] as usize) % 0x4000;
    let h: usize = (body[8] as usize + 256 * body[9] as usize) % 0x4000;
    if w == 0 || h == 0 || body.len() - 10 < first {
        return None;
    }
    Some((w, h, first))
}

/// Decode a keyframe into planes. `None` when it is no keyframe, or cut short.
pub fn decode_to_planes(body: &[u8]) -> (p: Option<Planes>)
    ensures
        match parse_frame(body@) {
            Some(d) => {
                &&& p is Some
                &&& p->0.w == d.0
                &&& p->0.h == d.1
                &&& p->0@ == d.2
                &&& 1 <= d.0 < 0x4000
                &&& 1 <= d.1 < 0x4000
                &&& planes_ok(p->0, mb_count(d.1), mb_count(d.0))
            },
            None => p is None,
        },
{
    let (w, h, first): (usize, usize, usize) = match read_tag(body) {
        Some(t) => t,
        None => {
            return None;
        },
    };
    let cols: usize = (w + 15) / 16;
    let rows: usize = (h + 15) / 16;
    let data: &[u8] = slice_subrange(body, 10, body.len());
    let ghost d = body@.skip(10);
    assert(data@ =~= d);
    let head: &[u8] = slice_subrange(data, 0, first);
    let mut b: Bool = Bool::new(head);
    let header: FrameHeader = read_header(&mut b);
    let tail: &[u8] = slice_subrange(data, first, data.len());
    assert(tail@ =~= d.skip(first as int));
    let mut parts: Vec<Bool> = match split_partitions(tail, header.num_parts) {
        Some(p) => p,
        None => {
            return None;
        },
    };
    let mut pl: Planes = blank_planes(w, h, rows, cols);
    proof {
        let ps = partitions(tail@, header.num_parts as nat)->0;
        let s = first_state(b@, ps, rows as int, cols as int);
        assert(part_views(parts@) =~= s.parts);
    }
    let mbs: Vec<Mb> = decode_rows(&mut b, &mut parts, &header, &mut pl, rows, cols);
    loop_filter(&mut pl, &mbs, rows, cols, &header.lf);
    Some(pl)
}

// ── colour ──────────────────────────────────────────────────────────────────

/// A channel of the colour of one sample of luma and two of chroma.
pub open spec fn color(y: int, u: int, v: int, c: int) -> u8 {
    if c == 0 {
        clamp(y + (91881 * (v - 128)) / 65536)
    } else if c == 1 {
        clamp(y - (22554 * (u - 128) + 46802 * (v - 128)) / 65536)
    } else if c == 2 {
        clamp(y + (116130 * (u - 128)) / 65536)
    } else {
        255
    }
}

/// The luma sample at column `x` and row `y`.
pub open spec fn luma_at(w: int, x: int, y: int) -> int {
    block_at(mb_count(w as nat), 16, 0, 0) + y * stride(mb_count(w as nat), 16) + x
}

/// The chroma sample that covers column `x` and row `y`.
pub open spec fn chroma_at(w: int, x: int, y: int) -> int {
    block_at(mb_count(w as nat), 8, 0, 0) + (y / 2) * stride(mb_count(w as nat), 8) + x / 2
}

/// The colour of pixel `i` of a frame of width `w`.
pub open spec fn pixel(f: Frame, w: int, i: int, c: int) -> u8 {
    let x = i % w;
    let y = i / w;
    color(
        f.y[luma_at(w, x, y)] as int,
        f.u[chroma_at(w, x, y)] as int,
        f.v[chroma_at(w, x, y)] as int,
        c,
    )
}

/// The RGBA bytes of a frame.
pub open spec fn frame_rgba(f: Frame, w: int, h: int) -> Seq<u8> {
    Seq::new((4 * (w * h)) as nat, |k: int| pixel(f, w, k / 4, k % 4))
}

/// A number divided by 65536, rounded down.
fn high(x: i32) -> (r: i32)
    requires
        -0x1000_0000 <= x <= 0x1000_0000,
    ensures
        r == x as int / 65536,
        -0x1000 <= r <= 0x1000,
{
    ((x + 0x1000_0000) as u32 / 65536) as i32 - 0x1000
}

proof fn lemma_sample_inside(w: int, h: int, x: int, y: int)
    requires
        1 <= w < 0x4000,
        1 <= h < 0x4000,
        0 <= x < w,
        0 <= y < h,
    ensures
        0 <= luma_at(w, x, y) < plane_len(mb_count(h as nat), mb_count(w as nat), 16),
        0 <= chroma_at(w, x, y) < plane_len(mb_count(h as nat), mb_count(w as nat), 8),
        0 <= y * stride(mb_count(w as nat), 16),
        0 <= (y / 2) * stride(mb_count(w as nat), 8),
{
    let rows = mb_count(h as nat);
    let cols = mb_count(w as nat);
    let s = stride(cols, 16);
    let t = stride(cols, 8);
    assert((32 + 0 * 16) * s == 32 * s) by (nonlinear_arith);
    assert((32 + 0 * 8) * t == 32 * t) by (nonlinear_arith);
    assert(32 * s + y * s + s <= s * stride(rows, 16)) by (nonlinear_arith)
        requires
            33 + y <= stride(rows, 16),
            s >= 1,
    ;
    let z = y / 2;
    assert(32 * t + z * t + t <= t * stride(rows, 8)) by (nonlinear_arith)
        requires
            33 + z <= stride(rows, 8),
            t >= 1,
    ;
    assert(0 <= y * s && 0 <= z * t) by (nonlinear_arith)
        requires
            y >= 0,
            z >= 0,
            s >= 1,
            t >= 1,
    ;
}

/// Convert a frame to RGBA bytes.
pub fn yuv_to_rgba(pl: &Planes) -> (out: Vec<u8>)
    requires
        1 <= pl.w < 0x4000,
        1 <= pl.h < 0x4000,
        planes_ok(*pl, mb_count(pl.h as nat), mb_count(pl.w as nat)),
    ensures
        out@ == frame_rgba(pl@, pl.w as int, pl.h as int),
{
    let w: usize = pl.w;
    let h: usize = pl.h;
    proof {
        assert(w * h <= 0x4000 * 0x4000) by (nonlinear_arith)
            requires
                w < 0x4000,
                h < 0x4000,
        ;
    }
    let n: usize = w * h;
    let ylen: usize = pl.y.len();
    let clen: usize = pl.u.len();
    let mut out: Vec<u8> = Vec::new();
    let mut i: usize = 0;
    while i < n
        invariant
            i <= n,
            n == w * h,
            n <= 0x4000 * 0x4000,
            w == pl.w,
            h == pl.h,
            1 <= w < 0x4000,
            1 <= h < 0x4000,
            ylen == pl.y@.len(),
            clen == pl.u@.len(),
            planes_ok(*pl, mb_count(pl.h as nat), mb_count(pl.w as nat)),
            out@.len() == 4 * i,
            forall|k: int|
                0 <= k < 4 * i ==> #[trigger] out@[k] == pixel(pl@, w as int, k / 4, k % 4),
        decreases n - i,
    {
        let x: usize = i % w;
        let y: usize = i / w;
        proof {
            assert(y < h) by (nonlinear_arith)
                requires
                    i < w * h,
                    y == i / w,
                    w >= 1,
            ;
            lemma_sample_inside(w as int, h as int, x as int, y as int);
        }
        let yy: i32 = pl.y[pl.y0 + y * pl.ys + x] as i32;
        let c: usize = pl.c0 + (y / 2) * pl.cs + x / 2;
        let uu: i32 = pl.u[c] as i32 - 128;
        let vv: i32 = pl.v[c] as i32 - 128;
        let r: u8 = clamp255(yy + high(91881 * vv));
        let g: u8 = clamp255(yy - high(22554 * uu + 46802 * vv));
        let b: u8 = clamp255(yy + high(116130 * uu));
        proof {
            let k = 4 * i as int;
            assert(k / 4 == i && (k + 1) / 4 == i && (k + 2) / 4 == i && (k + 3) / 4 == i);
            assert(r == pixel(pl@, w as int, i as int, 0));
            assert(g == pixel(pl@, w as int, i as int, 1));
            assert(b == pixel(pl@, w as int, i as int, 2));
            assert(255 == pixel(pl@, w as int, i as int, 3));
        }
        out.push(r);
        out.push(g);
        out.push(b);
        out.push(255);
        i = i + 1;
    }
    assert(out@ =~= frame_rgba(pl@, w as int, h as int));
    out
}

// ── laws of colour ──────────────────────────────────────────────────────────

/// The planes of a frame hold the samples of `w` by `h` pixels.
pub open spec fn has_samples(f: Frame, w: int, h: int) -> bool {
    &&& 1 <= w < 0x4000
    &&& 1 <= h < 0x4000
    &&& f.y.len() == plane_len(mb_count(h as nat), mb_count(w as nat), 16)
    &&& f.u.len() == plane_len(mb_count(h as nat), mb_count(w as nat), 8)
    &&& f.v.len() == plane_len(mb_count(h as nat), mb_count(w as nat), 8)
}

/// No sample of a plane is smaller than that of another.
pub open spec fn at_least(a: Seq<u8>, b: Seq<u8>) -> bool {
    a.len() == b.len() && forall|k: int| 0 <= k < a.len() ==> #[trigger] a[k] >= b[k]
}

proof fn lemma_pixel_inside(w: int, h: int, i: int)
    requires
        1 <= w < 0x4000,
        1 <= h < 0x4000,
        0 <= i < w * h,
    ensures
        0 <= luma_at(w, i % w, i / w) < plane_len(mb_count(h as nat), mb_count(w as nat), 16),
        0 <= chroma_at(w, i % w, i / w) < plane_len(mb_count(h as nat), mb_count(w as nat), 8),
{
    let y = i / w;
    assert(0 <= y < h) by (nonlinear_arith)
        requires
            0 <= i < w * h,
            y == i / w,
            w >= 1,
    ;
    assert(0 <= i % w < w) by (nonlinear_arith)
        requires
            w >= 1,
    ;
    lemma_sample_inside(w, h, i % w, y);
}

/// A byte is a real number given in thousandths, within two units, and cut to
/// the range of a byte.
pub open spec fn is_near(byte: int, thousandths: int) -> bool {
    &&& thousandths < 0 ==> byte <= 2
    &&& thousandths > 255_000 ==> byte >= 253
    &&& 0 <= thousandths <= 255_000 ==> -2000 <= 1000 * byte - thousandths <= 2000
}

proof fn lemma_scaled(k: int, a: int, b: int)
    requires
        k >= 0,
        a <= b,
    ensures
        (k * a) / 65536 <= (k * b) / 65536,
{
    assert(k * a <= k * b) by (nonlinear_arith)
        requires
            k >= 0,
            a <= b,
    ;
}

/// The bytes of a pixel are red, green, blue and alpha. Red is there in the
/// measure of V, and U has no part in it: it grows where V grows.
pub proof fn law_red_follows_v(f: Frame, g: Frame, w: int, h: int, i: int)
    requires
        has_samples(f, w, h),
        0 <= i < w * h,
        f.y == g.y,
        at_least(g.v, f.v),
    ensures
        frame_rgba(g, w, h)[4 * i] >= frame_rgba(f, w, h)[4 * i],
        f.v == g.v ==> frame_rgba(g, w, h)[4 * i] == frame_rgba(f, w, h)[4 * i],
{
    lemma_pixel_inside(w, h, i);
    let c = chroma_at(w, i % w, i / w);
    assert((4 * i) / 4 == i && (4 * i) % 4 == 0);
    assert(g.v[c] >= f.v[c]);
    lemma_scaled(91881, f.v[c] - 128, g.v[c] - 128);
}

/// Blue is there in the measure of U, and V has no part in it.
pub proof fn law_blue_follows_u(f: Frame, g: Frame, w: int, h: int, i: int)
    requires
        has_samples(f, w, h),
        0 <= i < w * h,
        f.y == g.y,
        at_least(g.u, f.u),
    ensures
        frame_rgba(g, w, h)[4 * i + 2] >= frame_rgba(f, w, h)[4 * i + 2],
        f.u == g.u ==> frame_rgba(g, w, h)[4 * i + 2] == frame_rgba(f, w, h)[4 * i + 2],
{
    lemma_pixel_inside(w, h, i);
    let c = chroma_at(w, i % w, i / w);
    assert((4 * i + 2) / 4 == i && (4 * i + 2) % 4 == 2);
    assert(g.u[c] >= f.u[c]);
    lemma_scaled(116130, f.u[c] - 128, g.u[c] - 128);
}

/// Green is what the other two leave: it falls where U or V grows.
pub proof fn law_green_falls(f: Frame, g: Frame, w: int, h: int, i: int)
    requires
        has_samples(f, w, h),
        0 <= i < w * h,
        f.y == g.y,
        at_least(g.u, f.u),
        at_least(g.v, f.v),
    ensures
        frame_rgba(g, w, h)[4 * i + 1] <= frame_rgba(f, w, h)[4 * i + 1],
{
    lemma_pixel_inside(w, h, i);
    let c = chroma_at(w, i % w, i / w);
    assert((4 * i + 1) / 4 == i && (4 * i + 1) % 4 == 1);
    assert(g.u[c] >= f.u[c] && g.v[c] >= f.v[c]);
    let a = 22554 * (f.u[c] - 128) + 46802 * (f.v[c] - 128);
    let b = 22554 * (g.u[c] - 128) + 46802 * (g.v[c] - 128);
    assert(a / 65536 <= b / 65536);
}

/// Every pixel is opaque, and no colour gets darker where the luma grows.
pub proof fn law_luma_is_brightness(f: Frame, g: Frame, w: int, h: int, i: int)
    requires
        has_samples(f, w, h),
        0 <= i < w * h,
        at_least(g.y, f.y),
        f.u == g.u,
        f.v == g.v,
    ensures
        frame_rgba(g, w, h)[4 * i] >= frame_rgba(f, w, h)[4 * i],
        frame_rgba(g, w, h)[4 * i + 1] >= frame_rgba(f, w, h)[4 * i + 1],
        frame_rgba(g, w, h)[4 * i + 2] >= frame_rgba(f, w, h)[4 * i + 2],
        frame_rgba(f, w, h)[4 * i + 3] == 255,
{
    lemma_pixel_inside(w, h, i);
    assert((4 * i) / 4 == i && (4 * i) % 4 == 0);
    assert((4 * i + 1) / 4 == i && (4 * i + 1) % 4 == 1);
    assert((4 * i + 2) / 4 == i && (4 * i + 2) % 4 == 2);
    assert((4 * i + 3) / 4 == i && (4 * i + 3) % 4 == 3);
    assert(g.y[luma_at(w, i % w, i / w)] >= f.y[luma_at(w, i % w, i / w)]);
}

/// The colours are those of the standard for full-range video: with luma `y`
/// and chroma `u` and `v` counted from the middle, red is `y + 1.402 v`, green
/// `y - 0.344 u - 0.714 v` and blue `y + 1.772 u`.
pub proof fn law_colours_are_those_of_the_standard(f: Frame, w: int, h: int, i: int)
    requires
        w > 0,
        0 <= i < w * h,
    ensures
        ({
            let y = f.y[luma_at(w, i % w, i / w)] as int;
            let u = f.u[chroma_at(w, i % w, i / w)] - 128;
            let v = f.v[chroma_at(w, i % w, i / w)] - 128;
            let out = frame_rgba(f, w, h);
            &&& is_near(out[4 * i] as int, 1000 * y + 1402 * v)
            &&& is_near(out[4 * i + 1] as int, 1000 * y - 344 * u - 714 * v)
            &&& is_near(out[4 * i + 2] as int, 1000 * y + 1772 * u)
        }),
{
    assert((4 * i) / 4 == i && (4 * i) % 4 == 0);
    assert((4 * i + 1) / 4 == i && (4 * i + 1) % 4 == 1);
    assert((4 * i + 2) / 4 == i && (4 * i + 2) % 4 == 2);
}

/// Without colour a pixel is grey: its channels are the luma.
pub proof fn law_middle_chroma_is_grey(f: Frame, w: int, h: int, i: int)
    requires
        w > 0,
        0 <= i < w * h,
        f.u[chroma_at(w, i % w, i / w)] == 128,
        f.v[chroma_at(w, i % w, i / w)] == 128,
    ensures
        ({
            let y = f.y[luma_at(w, i % w, i / w)];
            let out = frame_rgba(f, w, h);
            out[4 * i] == y && out[4 * i + 1] == y && out[4 * i + 2] == y
        }),
{
    assert((4 * i) / 4 == i && (4 * i) % 4 == 0);
    assert((4 * i + 1) / 4 == i && (4 * i + 1) % 4 == 1);
    assert((4 * i + 2) / 4 == i && (4 * i + 2) % 4 == 2);
}

/// Pixels that stand side by side have samples side by side: one of luma each,
/// and one of chroma for two columns and two rows.
pub proof fn law_samples_lie_as_pixels_do(w: int, x: int, y: int)
    requires
        w > 0,
        0 <= x,
        0 <= y,
    ensures
        luma_at(w, x + 1, y) == luma_at(w, x, y) + 1,
        luma_at(w, x, y + 1) == luma_at(w, x, y) + stride(mb_count(w as nat), 16),
        chroma_at(w, 2 * x + 1, y) == chroma_at(w, 2 * x, y),
        chroma_at(w, x, 2 * y + 1) == chroma_at(w, x, 2 * y),
        chroma_at(w, x + 2, y) == chroma_at(w, x, y) + 1,
        chroma_at(w, x, y + 2) == chroma_at(w, x, y) + stride(mb_count(w as nat), 8),
{
    let s = stride(mb_count(w as nat), 16);
    let t = stride(mb_count(w as nat), 8);
    assert((y + 1) * s == y * s + s) by (nonlinear_arith);
    let z = y / 2;
    assert((z + 1) * t == z * t + t) by (nonlinear_arith);
}

/// A macroblock is where its pixels are looked up: the block in row `r` and
/// column `c` starts at the pixel sixteen times as far.
pub proof fn law_pixels_are_in_their_macroblock(w: int, r: int, c: int)
    requires
        w > 0,
        0 <= r,
        0 <= c,
    ensures
        luma_at(w, 16 * c, 16 * r) == block_at(mb_count(w as nat), 16, r, c),
        chroma_at(w, 16 * c, 16 * r) == block_at(mb_count(w as nat), 8, r, c),
{
    let s = stride(mb_count(w as nat), 16);
    let t = stride(mb_count(w as nat), 8);
    assert((32 + r * 16) * s == 32 * s + (16 * r) * s) by (nonlinear_arith);
    assert((32 + 0 * 16) * s == 32 * s) by (nonlinear_arith);
    assert((32 + r * 8) * t == 32 * t + (8 * r) * t) by (nonlinear_arith);
    assert((32 + 0 * 8) * t == 32 * t) by (nonlinear_arith);
    assert((16 * r) / 2 == 8 * r && (16 * c) / 2 == 8 * c);
}

/// A keyframe as width, height and RGBA bytes.
pub open spec fn keyframe_rgba(d: Seq<u8>) -> Option<(nat, nat, Seq<u8>)> {
    match parse_frame(d) {
        None => None,
        Some((w, h, f)) => Some((w, h, frame_rgba(f, w as int, h as int))),
    }
}

/// Decode a keyframe into width, height and RGBA bytes.
pub fn decode_keyframe(body: &[u8]) -> (r: Option<(u32, u32, Vec<u8>)>)
    ensures
        match keyframe_rgba(body@) {
            Some(d) => r is Some && (r->0).0 == d.0 && (r->0).1 == d.1 && (r->0).2@ == d.2,
            None => r is None,
        },
{
    match decode_to_planes(body) {
        Some(p) => {
            let rgba: Vec<u8> = yuv_to_rgba(&p);
            Some((p.w as u32, p.h as u32, rgba))
        },
        None => None,
    }
}

} // verus!
