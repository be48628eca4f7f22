//! The loop filter, which smooths the edges between blocks.
//!
//! An edge runs between sample `pos - step` and sample `pos`; a filter looks at
//! up to four samples on either side and changes up to three.
use super::dct::{clamp, clamp255};
use super::modes::{Macro, Mb};
use super::predict::B_PRED;
use vstd::prelude::*;

verus! {

/// Filter settings of a frame.
pub struct Lf {
    pub level: i32,
    pub sharpness: i32,
    pub use_simple: bool,
    pub delta_enabled: bool,
    pub ref_delta: [i32; 4],
    pub mode_delta: [i32; 4],
    pub seg_enabled: bool,
    pub seg_abs: bool,
    pub seg_lf: [i32; 4],
}

/// Filter settings of a frame, as far as keyframes use them.
pub ghost struct Settings {
    pub level: int,
    pub sharpness: int,
    pub simple: bool,
    pub delta_enabled: bool,
    pub ref_delta: Seq<i32>,
    pub mode_delta: Seq<i32>,
    pub seg_enabled: bool,
    pub seg_abs: bool,
    pub seg_lf: Seq<i32>,
}

impl View for Lf {
    type V = Settings;

    open spec fn view(&self) -> Settings {
        Settings {
            level: self.level as int,
            sharpness: self.sharpness as int,
            simple: self.use_simple,
            delta_enabled: self.delta_enabled,
            ref_delta: self.ref_delta@,
            mode_delta: self.mode_delta@,
            seg_enabled: self.seg_enabled,
            seg_abs: self.seg_abs,
            seg_lf: self.seg_lf@,
        }
    }
}

// ── one position of an edge ─────────────────────────────────────────────────

/// Sample `k` steps from `pos`.
pub open spec fn px(buf: Seq<u8>, pos: int, step: int, k: int) -> int {
    buf[pos + k * step] as int
}

pub open spec fn sat(x: int) -> int {
    if x < -128 {
        -128
    } else if x > 127 {
        127
    } else {
        x
    }
}

pub open spec fn min_int(a: int, b: int) -> int {
    if a < b {
        a
    } else {
        b
    }
}

pub open spec fn abs_int(a: int) -> int {
    if a < 0 {
        -a
    } else {
        a
    }
}

/// The step across the edge, with the outer samples taken in or not.
pub open spec fn slope(buf: Seq<u8>, pos: int, step: int, outer: bool) -> int {
    let d = 3 * (px(buf, pos, step, 0) - px(buf, pos, step, -1));
    sat(
        if outer {
            d + sat(px(buf, pos, step, -2) - px(buf, pos, step, 1))
        } else {
            d
        },
    )
}

/// The common filter: moves the two samples at the edge, and, without the outer
/// samples, half as much the two behind them.
pub open spec fn common(buf: Seq<u8>, pos: int, step: int, outer: bool) -> Seq<u8> {
    let a = slope(buf, pos, step, outer);
    let f1 = min_int(a + 4, 127) / 8;
    let f2 = min_int(a + 3, 127) / 8;
    let b = buf.update(pos - step, clamp(px(buf, pos, step, -1) + f2)).update(
        pos,
        clamp(px(buf, pos, step, 0) - f1),
    );
    if outer {
        b
    } else {
        let h = (f1 + 1) / 2;
        b.update(pos - 2 * step, clamp(px(buf, pos, step, -2) + h)).update(
            pos + step,
            clamp(px(buf, pos, step, 1) - h),
        )
    }
}

/// The filter between macroblocks: moves three samples on either side.
pub open spec fn wide(buf: Seq<u8>, pos: int, step: int) -> Seq<u8> {
    let w = slope(buf, pos, step, true);
    let a = (27 * w + 63) / 128;
    let b = (18 * w + 63) / 128;
    let c = (9 * w + 63) / 128;
    buf.update(pos - step, clamp(px(buf, pos, step, -1) + a)).update(
        pos,
        clamp(px(buf, pos, step, 0) - a),
    ).update(pos - 2 * step, clamp(px(buf, pos, step, -2) + b)).update(
        pos + step,
        clamp(px(buf, pos, step, 1) - b),
    ).update(pos - 3 * step, clamp(px(buf, pos, step, -3) + c)).update(
        pos + 2 * step,
        clamp(px(buf, pos, step, 2) - c),
    )
}

/// The samples next to the edge differ much from those behind them.
pub open spec fn high_variance(buf: Seq<u8>, pos: int, step: int, thr: int) -> bool {
    abs_int(px(buf, pos, step, -2) - px(buf, pos, step, -1)) > thr || abs_int(
        px(buf, pos, step, 1) - px(buf, pos, step, 0),
    ) > thr
}

/// The step across the edge is small enough to be an artefact.
pub open spec fn small_step(buf: Seq<u8>, pos: int, step: int, limit: int) -> bool {
    abs_int(px(buf, pos, step, -1) - px(buf, pos, step, 0)) * 2 + abs_int(
        px(buf, pos, step, -2) - px(buf, pos, step, 1),
    ) / 2 <= limit
}

/// The step is small, and so are the differences on either side.
pub open spec fn smooth(buf: Seq<u8>, pos: int, step: int, e: int, i: int) -> bool {
    &&& small_step(buf, pos, step, 2 * e + i)
    &&& abs_int(px(buf, pos, step, -4) - px(buf, pos, step, -3)) <= i
    &&& abs_int(px(buf, pos, step, -3) - px(buf, pos, step, -2)) <= i
    &&& abs_int(px(buf, pos, step, -2) - px(buf, pos, step, -1)) <= i
    &&& abs_int(px(buf, pos, step, 3) - px(buf, pos, step, 2)) <= i
    &&& abs_int(px(buf, pos, step, 2) - px(buf, pos, step, 1)) <= i
    &&& abs_int(px(buf, pos, step, 1) - px(buf, pos, step, 0)) <= i
}

/// Four samples on either side of the edge lie in the plane.
pub open spec fn edge_ok(len: nat, pos: int, step: int) -> bool {
    &&& 1 <= step
    &&& 4 * step <= pos
    &&& pos + 3 * step < len
}

fn sat8(x: i32) -> (r: i32)
    ensures
        r == sat(x as int),
{
    if x < -128 {
        -128
    } else if x > 127 {
        127
    } else {
        x
    }
}

/// A small number divided by eight, rounded down.
fn eighth(x: i32) -> (r: i32)
    requires
        -128 <= x <= 128,
    ensures
        r == x as int / 8,
        -16 <= r <= 16,
{
    ((x + 128) as u32 / 8) as i32 - 16
}

/// A number divided by 128, rounded down.
fn part(x: i32) -> (r: i32)
    requires
        -0x1000 <= x <= 0x1000,
    ensures
        r == x as int / 128,
        -32 <= r <= 32,
{
    ((x + 0x1000) as u32 / 128) as i32 - 32
}

fn abs_diff(a: u8, b: u8) -> (r: i32)
    ensures
        r == abs_int(a - b),
        0 <= r <= 255,
{
    if a < b {
        b as i32 - a as i32
    } else {
        a as i32 - b as i32
    }
}

fn edge_slope(buf: &Vec<u8>, pos: usize, step: usize, outer: bool) -> (a: i32)
    requires
        edge_ok(buf@.len(), pos as int, step as int),
    ensures
        a == slope(buf@, pos as int, step as int, outer),
        -128 <= a <= 127,
{
    let len: usize = buf.len();
    let p1: i32 = buf[pos - 2 * step] as i32;
    let p0: i32 = buf[pos - step] as i32;
    let q0: i32 = buf[pos] as i32;
    let q1: i32 = buf[pos + step] as i32;
    if outer {
        sat8(3 * (q0 - p0) + sat8(p1 - q1))
    } else {
        sat8(3 * (q0 - p0))
    }
}

/// Filter one position of an edge with the common filter.
pub fn filter_common(buf: &mut Vec<u8>, pos: usize, step: usize, outer: bool)
    requires
        edge_ok(old(buf)@.len(), pos as int, step as int),
    ensures
        final(buf)@ == common(old(buf)@, pos as int, step as int, outer),
        final(buf)@.len() == old(buf)@.len(),
{
    let len: usize = buf.len();
    let a: i32 = edge_slope(buf, pos, step, outer);
    let p1: i32 = buf[pos - 2 * step] as i32;
    let p0: i32 = buf[pos - step] as i32;
    let q0: i32 = buf[pos] as i32;
    let q1: i32 = buf[pos + step] as i32;
    let f1: i32 = eighth(if a + 4 < 127 {
        a + 4
    } else {
        127
    });
    let f2: i32 = eighth(if a + 3 < 127 {
        a + 3
    } else {
        127
    });
    buf.set(pos - step, clamp255(p0 + f2));
    buf.set(pos, clamp255(q0 - f1));
    if !outer {
        let h: i32 = ((f1 + 1 + 32) as u32 / 2) as i32 - 16;
        buf.set(pos - 2 * step, clamp255(p1 + h));
        buf.set(pos + step, clamp255(q1 - h));
    }
}

/// Filter one position of an edge between macroblocks.
pub fn filter_mb_edge(buf: &mut Vec<u8>, pos: usize, step: usize)
    requires
        edge_ok(old(buf)@.len(), pos as int, step as int),
    ensures
        final(buf)@ == wide(old(buf)@, pos as int, step as int),
        final(buf)@.len() == old(buf)@.len(),
{
    let len: usize = buf.len();
    let w: i32 = edge_slope(buf, pos, step, true);
    let p2: i32 = buf[pos - 3 * step] as i32;
    let p1: i32 = buf[pos - 2 * step] as i32;
    let p0: i32 = buf[pos - step] as i32;
    let q0: i32 = buf[pos] as i32;
    let q1: i32 = buf[pos + step] as i32;
    let q2: i32 = buf[pos + 2 * step] as i32;
    let a: i32 = part(27 * w + 63);
    let b: i32 = part(18 * w + 63);
    let c: i32 = part(9 * w + 63);
    buf.set(pos - step, clamp255(p0 + a));
    buf.set(pos, clamp255(q0 - a));
    buf.set(pos - 2 * step, clamp255(p1 + b));
    buf.set(pos + step, clamp255(q1 - b));
    buf.set(pos - 3 * step, clamp255(p2 + c));
    buf.set(pos + 2 * step, clamp255(q2 - c));
}

/// Whether the samples next to the edge differ much from those behind them.
pub fn hev(buf: &Vec<u8>, pos: usize, step: usize, thr: i32) -> (r: bool)
    requires
        edge_ok(buf@.len(), pos as int, step as int),
    ensures
        r == high_variance(buf@, pos as int, step as int, thr as int),
{
    let len: usize = buf.len();
    let p1: u8 = buf[pos - 2 * step];
    let p0: u8 = buf[pos - step];
    let q0: u8 = buf[pos];
    let q1: u8 = buf[pos + step];
    abs_diff(p1, p0) > thr || abs_diff(q1, q0) > thr
}

/// Whether the step across the edge is small.
pub fn simple_thresh(buf: &Vec<u8>, pos: usize, step: usize, limit: i32) -> (r: bool)
    requires
        edge_ok(buf@.len(), pos as int, step as int),
    ensures
        r == small_step(buf@, pos as int, step as int, limit as int),
{
    let len: usize = buf.len();
    let p1: u8 = buf[pos - 2 * step];
    let p0: u8 = buf[pos - step];
    let q0: u8 = buf[pos];
    let q1: u8 = buf[pos + step];
    abs_diff(p0, q0) * 2 + abs_diff(p1, q1) / 2 <= limit
}

/// Whether the step and the differences on either side are small.
pub fn normal_thresh(buf: &Vec<u8>, pos: usize, step: usize, e: i32, i: i32) -> (r: bool)
    requires
        edge_ok(buf@.len(), pos as int, step as int),
        0 <= e <= 0x1000,
        0 <= i <= 0x1000,
    ensures
        r == smooth(buf@, pos as int, step as int, e as int, i as int),
{
    let len: usize = buf.len();
    if !simple_thresh(buf, pos, step, 2 * e + i) {
        return false;
    }
    let p3: u8 = buf[pos - 4 * step];
    let p2: u8 = buf[pos - 3 * step];
    let p1: u8 = buf[pos - 2 * step];
    let p0: u8 = buf[pos - step];
    let q0: u8 = buf[pos];
    let q1: u8 = buf[pos + step];
    let q2: u8 = buf[pos + 2 * step];
    let q3: u8 = buf[pos + 3 * step];
    abs_diff(p3, p2) <= i && abs_diff(p2, p1) <= i && abs_diff(p1, p0) <= i && abs_diff(q3, q2) <= i
        && abs_diff(q2, q1) <= i && abs_diff(q1, q0) <= i
}

// ── an edge ─────────────────────────────────────────────────────────────────

/// Filter settings of a macroblock: edge limit, interior limit, variance
/// threshold.
pub ghost struct Limits {
    pub edge: int,
    pub interior: int,
    pub variance: int,
}

/// One position of an edge, filtered where it is smooth.
pub open spec fn filtered_at(buf: Seq<u8>, pos: int, step: int, l: Limits, between: bool) -> Seq<
    u8,
> {
    if !smooth(buf, pos, step, l.edge, l.interior) {
        buf
    } else if between {
        if high_variance(buf, pos, step, l.variance) {
            common(buf, pos, step, true)
        } else {
            wide(buf, pos, step)
        }
    } else {
        common(buf, pos, step, high_variance(buf, pos, step, l.variance))
    }
}

/// The first `n` positions of an edge, `along` apart.
pub open spec fn filtered_edge(
    buf: Seq<u8>,
    base: int,
    step: int,
    along: int,
    n: int,
    l: Limits,
    between: bool,
) -> Seq<u8>
    decreases n,
{
    if n <= 0 {
        buf
    } else {
        filtered_at(
            filtered_edge(buf, base, step, along, n - 1, l, between),
            base + (n - 1) * along,
            step,
            l,
            between,
        )
    }
}

/// The first `n` positions of an edge under the simple filter.
pub open spec fn simple_edge(buf: Seq<u8>, base: int, step: int, along: int, n: int, limit: int) -> Seq<
    u8,
>
    decreases n,
{
    if n <= 0 {
        buf
    } else {
        let b = simple_edge(buf, base, step, along, n - 1, limit);
        let pos = base + (n - 1) * along;
        if small_step(b, pos, step, limit) {
            common(b, pos, step, true)
        } else {
            b
        }
    }
}

/// Every position of an edge of `count` lies in the plane.
pub open spec fn run_ok(len: nat, base: int, step: int, along: int, count: int) -> bool {
    &&& 1 <= step
    &&& 1 <= along
    &&& 4 * step <= base
    &&& base + (count - 1) * along + 3 * step < len
}

/// Filter an edge.
pub fn filter_edge(
    buf: &mut Vec<u8>,
    base: usize,
    cross: usize,
    along: usize,
    count: usize,
    e: i32,
    i: i32,
    hev_t: i32,
    mb_edge: bool,
)
    requires
        run_ok(old(buf)@.len(), base as int, cross as int, along as int, count as int),
        0 <= e <= 0x1000,
        0 <= i <= 0x1000,
        1 <= count <= 16,
    ensures
        final(buf)@ == filtered_edge(
            old(buf)@,
            base as int,
            cross as int,
            along as int,
            count as int,
            Limits { edge: e as int, interior: i as int, variance: hev_t as int },
            mb_edge,
        ),
        final(buf)@.len() == old(buf)@.len(),
{
    let ghost l = Limits { edge: e as int, interior: i as int, variance: hev_t as int };
    let ghost b0 = buf@;
    let len: usize = buf.len();
    let mut n: usize = 0;
    while n < count
        invariant
            n <= count <= 16,
            0 <= e <= 0x1000,
            0 <= i <= 0x1000,
            len == b0.len(),
            run_ok(len as nat, base as int, cross as int, along as int, count as int),
            buf@.len() == len,
            l == (Limits { edge: e as int, interior: i as int, variance: hev_t as int }),
            buf@ == filtered_edge(
                b0,
                base as int,
                cross as int,
                along as int,
                n as int,
                l,
                mb_edge,
            ),
        decreases count - n,
    {
        proof {
            assert(0 <= n * along <= (count - 1) * along) by (nonlinear_arith)
                requires
                    n <= count - 1,
            ;
        }
        let q0: usize = base + n * along;
        if normal_thresh(buf, q0, cross, e, i) {
            if mb_edge {
                if hev(buf, q0, cross, hev_t) {
                    filter_common(buf, q0, cross, true);
                } else {
                    filter_mb_edge(buf, q0, cross);
                }
            } else {
                let outer: bool = hev(buf, q0, cross, hev_t);
                filter_common(buf, q0, cross, outer);
            }
        }
        n = n + 1;
    }
}

/// Filter an edge of 16 positions with the simple filter.
pub fn filter_edge_simple(buf: &mut Vec<u8>, base: usize, cross: usize, along: usize, limit: i32)
    requires
        run_ok(old(buf)@.len(), base as int, cross as int, along as int, 16),
    ensures
        final(buf)@ == simple_edge(
            old(buf)@,
            base as int,
            cross as int,
            along as int,
            16,
            limit as int,
        ),
        final(buf)@.len() == old(buf)@.len(),
{
    let ghost b0 = buf@;
    let len: usize = buf.len();
    let mut n: usize = 0;
    while n < 16
        invariant
            n <= 16,
            len == b0.len(),
            run_ok(len as nat, base as int, cross as int, along as int, 16),
            buf@.len() == len,
            buf@ == simple_edge(
                b0,
                base as int,
                cross as int,
                along as int,
                n as int,
                limit as int,
            ),
        decreases 16 - n,
    {
        proof {
            assert(0 <= n * along <= 15 * along) by (nonlinear_arith)
                requires
                    n <= 15,
            ;
        }
        let q0: usize = base + n * along;
        if simple_thresh(buf, q0, cross, limit) {
            filter_common(buf, q0, cross, true);
        }
        n = n + 1;
    }
}

// ── a macroblock ────────────────────────────────────────────────────────────

pub open spec fn clamp63(v: int) -> int {
    if v < 0 {
        0
    } else if v > 63 {
        63
    } else {
        v
    }
}

/// The filter level of a macroblock.
pub open spec fn mb_level(lf: Settings, m: Macro) -> int {
    let base = clamp63(
        if lf.seg_enabled {
            if lf.seg_abs {
                lf.seg_lf[m.segment] as int
            } else {
                lf.level + lf.seg_lf[m.segment]
            }
        } else {
            lf.level
        },
    );
    clamp63(
        if lf.delta_enabled {
            base + lf.ref_delta[0] + (if m.y_mode == B_PRED {
                lf.mode_delta[0] as int
            } else {
                0
            })
        } else {
            base
        },
    )
}

/// The limit on differences behind an edge, at a filter level.
pub open spec fn interior_limit(level: int, sharpness: int) -> int {
    let i = if sharpness > 0 {
        let h = if sharpness > 4 {
            level / 4
        } else {
            level / 2
        };
        min_int(h, 9 - sharpness)
    } else {
        level
    };
    if i < 1 {
        1
    } else {
        i
    }
}

/// The variance threshold at a filter level.
pub open spec fn variance_limit(level: int) -> int {
    if level >= 40 {
        2
    } else if level >= 15 {
        1
    } else {
        0
    }
}

pub open spec fn deltas_ok(d: Seq<i32>) -> bool {
    forall|k: int| 0 <= k < d.len() ==> -64 < #[trigger] d[k] < 64
}

pub open spec fn settings_ok(lf: Settings) -> bool {
    &&& 0 <= lf.level < 64
    &&& 0 <= lf.sharpness < 8
    &&& lf.ref_delta.len() == 4 && deltas_ok(lf.ref_delta)
    &&& lf.mode_delta.len() == 4 && deltas_ok(lf.mode_delta)
    &&& lf.seg_lf.len() == 4 && deltas_ok(lf.seg_lf)
}

fn clamp_level(v: i32) -> (r: i32)
    ensures
        r == clamp63(v as int),
{
    if v < 0 {
        0
    } else if v > 63 {
        63
    } else {
        v
    }
}

/// The filter level, interior limit and variance threshold of a macroblock.
pub fn filter_params(lf: &Lf, m: &Mb) -> (r: (i32, i32, i32))
    requires
        settings_ok(lf@),
        m.segment < 4,
    ensures
        r.0 == mb_level(lf@, m@),
        r.1 == interior_limit(mb_level(lf@, m@), lf.sharpness as int),
        r.2 == variance_limit(mb_level(lf@, m@)),
        0 <= r.0 <= 63,
        1 <= r.1 <= 63,
        0 <= r.2 <= 2,
{
    let mut level: i32 = lf.level;
    if lf.seg_enabled {
        let s: i32 = lf.seg_lf[m.segment];
        level = if lf.seg_abs {
            s
        } else {
            level + s
        };
    }
    level = clamp_level(level);
    if lf.delta_enabled {
        level = level + lf.ref_delta[0];
        if m.y_mode == B_PRED {
            level = level + lf.mode_delta[0];
        }
    }
    level = clamp_level(level);
    let mut interior: i32 = level;
    if lf.sharpness > 0 {
        interior = if lf.sharpness > 4 {
            level / 4
        } else {
            level / 2
        };
        if interior > 9 - lf.sharpness {
            interior = 9 - lf.sharpness;
        }
    }
    if interior < 1 {
        interior = 1;
    }
    let hev_t: i32 = if level >= 40 {
        2
    } else if level >= 15 {
        1
    } else {
        0
    };
    (level, interior, hev_t)
}

/// The inner edges of an `n` by `n` block, from the fourth sample on, up to but
/// not at `upto`; `step` leads across them.
pub open spec fn inner_edges(
    buf: Seq<u8>,
    p: int,
    step: int,
    along: int,
    n: int,
    upto: int,
    l: Limits,
) -> Seq<u8>
    decreases upto,
{
    if upto <= 4 {
        buf
    } else {
        filtered_edge(
            inner_edges(buf, p, step, along, n, upto - 4, l),
            p + (upto - 4) * step,
            step,
            along,
            n,
            l,
            false,
        )
    }
}

/// An `n` by `n` block of a plane, filtered: the edge to its left, its inner
/// upright edges, the edge above it, its inner level edges.
pub open spec fn filtered_block(
    buf: Seq<u8>,
    p: int,
    s: int,
    n: int,
    has_left: bool,
    has_above: bool,
    inner: bool,
    l: Limits,
) -> Seq<u8> {
    let wider = Limits { edge: l.edge + 2, ..l };
    let b1 = if has_left {
        filtered_edge(buf, p, 1, s, n, wider, true)
    } else {
        buf
    };
    let b2 = if inner {
        inner_edges(b1, p, 1, s, n, n, l)
    } else {
        b1
    };
    let b3 = if has_above {
        filtered_edge(b2, p, s, 1, n, wider, true)
    } else {
        b2
    };
    if inner {
        inner_edges(b3, p, s, 1, n, n, l)
    } else {
        b3
    }
}

/// The inner edges under the simple filter.
pub open spec fn simple_inner(buf: Seq<u8>, p: int, step: int, along: int, upto: int, limit: int) -> Seq<
    u8,
>
    decreases upto,
{
    if upto <= 4 {
        buf
    } else {
        simple_edge(
            simple_inner(buf, p, step, along, upto - 4, limit),
            p + (upto - 4) * step,
            step,
            along,
            16,
            limit,
        )
    }
}

/// A luma block under the simple filter.
pub open spec fn simple_block(
    buf: Seq<u8>,
    p: int,
    s: int,
    has_left: bool,
    has_above: bool,
    inner: bool,
    edge: int,
    interior: int,
) -> Seq<u8> {
    let wide_limit = (edge + 2) * 2 + interior;
    let limit = edge * 2 + interior;
    let b1 = if has_left {
        simple_edge(buf, p, 1, s, 16, wide_limit)
    } else {
        buf
    };
    let b2 = if inner {
        simple_inner(b1, p, 1, s, 16, limit)
    } else {
        b1
    };
    let b3 = if has_above {
        simple_edge(b2, p, s, 1, 16, wide_limit)
    } else {
        b2
    };
    if inner {
        simple_inner(b3, p, s, 1, 16, limit)
    } else {
        b3
    }
}

/// The block lies in the plane, with four rows and columns before it.
pub open spec fn margin_ok(len: nat, p: int, s: int, n: int) -> bool {
    &&& n < s
    &&& 4 * s + 4 <= p
    &&& p + (n - 1) * s + n <= len
}

/// Filter an `n` by `n` block of a plane.
pub fn filter_block(
    buf: &mut Vec<u8>,
    p: usize,
    s: usize,
    n: usize,
    has_left: bool,
    has_above: bool,
    inner: bool,
    e: i32,
    i: i32,
    hev_t: i32,
)
    requires
        n == 8 || n == 16,
        margin_ok(old(buf)@.len(), p as int, s as int, n as int),
        0 <= e <= 63,
        0 <= i <= 63,
    ensures
        final(buf)@ == filtered_block(
            old(buf)@,
            p as int,
            s as int,
            n as int,
            has_left,
            has_above,
            inner,
            Limits { edge: e as int, interior: i as int, variance: hev_t as int },
        ),
        final(buf)@.len() == old(buf)@.len(),
{
    let ghost l = Limits { edge: e as int, interior: i as int, variance: hev_t as int };
    let len: usize = buf.len();
    if has_left {
        filter_edge(buf, p, 1, s, n, e + 2, i, hev_t, true);
    }
    if inner {
        let ghost b1 = buf@;
        let mut k: usize = 4;
        while k < n
            invariant
                k % 4 == 0,
                4 <= k <= n,
                n == 8 || n == 16,
                len == buf@.len(),
                margin_ok(len as nat, p as int, s as int, n as int),
                0 <= e <= 63,
                0 <= i <= 63,
                l == (Limits { edge: e as int, interior: i as int, variance: hev_t as int }),
                buf@ == inner_edges(b1, p as int, 1, s as int, n as int, k as int, l),
            decreases n - k,
        {
            filter_edge(buf, p + k, 1, s, n, e, i, hev_t, false);
            k = k + 4;
        }
    }
    if has_above {
        assert((n - 1) * s >= 3 * s) by (nonlinear_arith)
            requires
                n >= 4,
        ;
        filter_edge(buf, p, s, 1, n, e + 2, i, hev_t, true);
    }
    if inner {
        let ghost b3 = buf@;
        let mut k: usize = 4;
        while k < n
            invariant
                k % 4 == 0,
                4 <= k <= n,
                n == 8 || n == 16,
                len == buf@.len(),
                margin_ok(len as nat, p as int, s as int, n as int),
                0 <= e <= 63,
                0 <= i <= 63,
                l == (Limits { edge: e as int, interior: i as int, variance: hev_t as int }),
                buf@ == inner_edges(b3, p as int, s as int, 1, n as int, k as int, l),
            decreases n - k,
        {
            proof {
                assert(k * s + 3 * s <= (n - 1) * s) by (nonlinear_arith)
                    requires
                        k + 3 <= n - 1,
                ;
                assert(k * s >= 0) by (nonlinear_arith);
            }
            filter_edge(buf, p + k * s, s, 1, n, e, i, hev_t, false);
            k = k + 4;
        }
    }
}

/// Filter a luma block with the simple filter.
pub fn filter_block_simple(
    buf: &mut Vec<u8>,
    p: usize,
    s: usize,
    has_left: bool,
    has_above: bool,
    inner: bool,
    e: i32,
    i: i32,
)
    requires
        margin_ok(old(buf)@.len(), p as int, s as int, 16),
        0 <= e <= 63,
        0 <= i <= 63,
    ensures
        final(buf)@ == simple_block(
            old(buf)@,
            p as int,
            s as int,
            has_left,
            has_above,
            inner,
            e as int,
            i as int,
        ),
        final(buf)@.len() == old(buf)@.len(),
{
    let len: usize = buf.len();
    let wide_limit: i32 = (e + 2) * 2 + i;
    let limit: i32 = e * 2 + i;
    if has_left {
        filter_edge_simple(buf, p, 1, s, wide_limit);
    }
    if inner {
        let ghost b1 = buf@;
        let mut k: usize = 4;
        while k < 16
            invariant
                k % 4 == 0,
                4 <= k <= 16,
                len == buf@.len(),
                margin_ok(len as nat, p as int, s as int, 16),
                buf@ == simple_inner(b1, p as int, 1, s as int, k as int, limit as int),
            decreases 16 - k,
        {
            filter_edge_simple(buf, p + k, 1, s, limit);
            k = k + 4;
        }
    }
    if has_above {
        filter_edge_simple(buf, p, s, 1, wide_limit);
    }
    if inner {
        let ghost b3 = buf@;
        let mut k: usize = 4;
        while k < 16
            invariant
                k % 4 == 0,
                4 <= k <= 16,
                len == buf@.len(),
                margin_ok(len as nat, p as int, s as int, 16),
                buf@ == simple_inner(b3, p as int, s as int, 1, k as int, limit as int),
            decreases 16 - k,
        {
            proof {
                assert(k * s + 3 * s <= 15 * s) by (nonlinear_arith)
                    requires
                        k + 3 <= 15,
                ;
                assert(k * s >= 0) by (nonlinear_arith);
            }
            filter_edge_simple(buf, p + k * s, s, 1, limit);
            k = k + 4;
        }
    }
}

/// Where the differences around an edge are above the limits, filtering leaves
/// it as it is.
pub proof fn law_rough_edge_kept(buf: Seq<u8>, pos: int, step: int, l: Limits, between: bool)
    requires
        !smooth(buf, pos, step, l.edge, l.interior),
    ensures
        filtered_at(buf, pos, step, l, between) == buf,
{
}

/// Filtering one position of an edge changes at most three samples on either
/// side of it.
pub proof fn law_filter_reach(
    buf: Seq<u8>,
    pos: int,
    step: int,
    l: Limits,
    between: bool,
    k: int,
)
    requires
        edge_ok(buf.len(), pos, step),
        0 <= k < buf.len(),
        forall|j: int| -3 <= j <= 2 ==> k != pos + #[trigger] (j * step),
    ensures
        filtered_at(buf, pos, step, l, between)[k] == buf[k],
{
    assert(k != pos + -3 * step);
    assert(k != pos + -2 * step);
    assert(k != pos + -1 * step);
    assert(k != pos + 0 * step);
    assert(k != pos + 1 * step);
    assert(k != pos + 2 * step);
}

} // verus!
