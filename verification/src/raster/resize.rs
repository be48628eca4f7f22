//! Resampling of images with alpha.
//!
//! A pixel of the new image is the weighted mean of the pixels around its
//! place in the old one. The weights fall off in a straight line to both sides,
//! over a reach that grows as the image shrinks, so that shrinking averages and
//! enlarging interpolates. Colours count by their alpha.
use vstd::prelude::*;

verus! {

// ── weights ─────────────────────────────────────────────────────────────────

/// How far a sample reaches when `m` samples become `n`, on a scale on which
/// the whole row is `2 * m * n` long.
pub open spec fn reach(m: int, n: int) -> int {
    2 * (if m > n {
        m
    } else {
        n
    })
}

/// How far the centre of sample `s` of `m` lies from that of sample `d` of `n`.
pub open spec fn apart(m: int, n: int, d: int, s: int) -> int {
    let gap = (2 * s + 1) * n - (2 * d + 1) * m;
    if gap < 0 {
        -gap
    } else {
        gap
    }
}

/// The weight of sample `s` of `m` in sample `d` of `n`.
pub open spec fn tap(m: int, n: int, d: int, s: int) -> int {
    if apart(m, n, d, s) < reach(m, n) {
        reach(m, n) - apart(m, n, d, s)
    } else {
        0
    }
}

/// The weighted sum of the first `k` values.
pub open spec fn weighted(f: spec_fn(int) -> int, m: int, n: int, d: int, k: int) -> int
    decreases k,
{
    if k <= 0 {
        0
    } else {
        weighted(f, m, n, d, k - 1) + tap(m, n, d, k - 1) * f(k - 1)
    }
}

pub open spec fn one() -> spec_fn(int) -> int {
    |s: int| 1int
}

/// The sum of the weights of sample `d` of `n`.
pub open spec fn total(m: int, n: int, d: int) -> int {
    weighted(one(), m, n, d, m)
}

// ── pixels ──────────────────────────────────────────────────────────────────

/// What pixel `at` brings to channel `c`: its alpha to alpha, its colour times
/// its alpha to a colour.
pub open spec fn value(src: Seq<u8>, at: int, c: int) -> int {
    if c == 3 {
        src[at * 4 + 3] as int
    } else {
        src[at * 4 + c] * src[at * 4 + 3]
    }
}

pub open spec fn texels(src: Seq<u8>, sw: int, t: int, c: int) -> spec_fn(int) -> int {
    |s: int| value(src, t * sw + s, c)
}

/// What row `t` brings to column `x` of `dw`.
pub open spec fn row(src: Seq<u8>, sw: int, dw: int, x: int, t: int, c: int) -> int {
    weighted(texels(src, sw, t, c), sw, dw, x, sw)
}

pub open spec fn rows(src: Seq<u8>, sw: int, dw: int, x: int, c: int) -> spec_fn(int) -> int {
    |t: int| row(src, sw, dw, x, t, c)
}

/// An image and the size it is brought to.
pub ghost struct Resize {
    pub src: Seq<u8>,
    pub sw: int,
    pub sh: int,
    pub dw: int,
    pub dh: int,
}

impl Resize {
    /// No side is zero, and the bytes are those of the image.
    pub open spec fn valid(self) -> bool {
        self.sw > 0 && self.sh > 0 && self.dw > 0 && self.dh > 0 && self.src.len() == self.sw
            * self.sh * 4
    }

    /// What the image brings to channel `c` of a pixel.
    pub open spec fn sum(self, x: int, y: int, c: int) -> int {
        weighted(rows(self.src, self.sw, self.dw, x, c), self.sh, self.dh, y, self.sh)
    }

    /// The sum of the weights of a pixel.
    pub open spec fn weight(self, x: int, y: int) -> int {
        total(self.sw, self.dw, x) * total(self.sh, self.dh, y)
    }

    /// Channel `c` of a pixel: the mean alpha, and the mean colour by alpha,
    /// zero where nothing shows.
    pub open spec fn channel(self, x: int, y: int, c: int) -> int {
        if c == 3 {
            nearest(self.sum(x, y, 3), self.weight(x, y))
        } else if self.sum(x, y, 3) == 0 {
            0
        } else {
            nearest(self.sum(x, y, c), self.sum(x, y, 3))
        }
    }
}

/// The integer nearest to a ratio, the larger of two.
pub open spec fn nearest(num: int, den: int) -> int {
    (2 * num + den) / (2 * den)
}

// ── bounds ──────────────────────────────────────────────────────────────────

/// The largest sum of weights.
pub open spec fn cap(m: int, n: int) -> int {
    if m > n {
        2 * m * m
    } else {
        8 * n
    }
}

proof fn lemma_weighted_zero(f: spec_fn(int) -> int, m: int, n: int, d: int, from: int, to: int)
    requires
        0 <= from <= to,
        forall|s: int| from <= s < to ==> #[trigger] tap(m, n, d, s) == 0,
    ensures
        weighted(f, m, n, d, to) == weighted(f, m, n, d, from),
    decreases to - from,
{
    if from < to {
        lemma_weighted_zero(f, m, n, d, from, to - 1);
        assert(tap(m, n, d, to - 1) == 0);
        assert(0 * f(to - 1) == 0);
    }
}

proof fn lemma_weighted_grows(f: spec_fn(int) -> int, m: int, n: int, d: int, from: int, to: int)
    requires
        0 <= from <= to,
        forall|s: int| 0 <= s < to ==> #[trigger] f(s) >= 0,
    ensures
        0 <= weighted(f, m, n, d, from) <= weighted(f, m, n, d, to),
    decreases to,
{
    if from < to {
        lemma_weighted_grows(f, m, n, d, from, to - 1);
        let (w, v) = (tap(m, n, d, to - 1), f(to - 1));
        assert(w * v >= 0) by (nonlinear_arith)
            requires
                w >= 0,
                v >= 0,
        ;
    } else if to > 0 {
        lemma_weighted_grows(f, m, n, d, to - 1, to - 1);
        let (w, v) = (tap(m, n, d, to - 1), f(to - 1));
        assert(w * v >= 0) by (nonlinear_arith)
            requires
                w >= 0,
                v >= 0,
        ;
    }
}

proof fn lemma_weighted_at_most(
    f: spec_fn(int) -> int,
    g: spec_fn(int) -> int,
    b: int,
    m: int,
    n: int,
    d: int,
    k: int,
)
    requires
        forall|s: int| 0 <= s < k ==> #[trigger] f(s) <= b * g(s),
    ensures
        weighted(f, m, n, d, k) <= b * weighted(g, m, n, d, k),
    decreases k,
{
    if k > 0 {
        lemma_weighted_at_most(f, g, b, m, n, d, k - 1);
        let (w, v, u) = (tap(m, n, d, k - 1), f(k - 1), g(k - 1));
        let before = weighted(g, m, n, d, k - 1);
        assert(w * v <= b * (w * u)) by (nonlinear_arith)
            requires
                w >= 0,
                v <= b * u,
        ;
        assert(b * (before + w * u) == b * before + b * (w * u)) by (nonlinear_arith);
    } else {
        assert(b * 0 == 0);
    }
}

proof fn lemma_ones(m: int, n: int, d: int, from: int, to: int, top: int)
    requires
        0 <= from <= to,
        forall|s: int| from <= s < to ==> #[trigger] tap(m, n, d, s) <= top,
    ensures
        weighted(one(), m, n, d, to) <= weighted(one(), m, n, d, from) + (to - from) * top,
    decreases to - from,
{
    if from < to {
        lemma_ones(m, n, d, from, to - 1, top);
        assert(tap(m, n, d, to - 1) <= top);
        assert((to - from) * top == (to - 1 - from) * top + top) by (nonlinear_arith);
    } else {
        assert((to - from) * top == 0) by (nonlinear_arith)
            requires
                from == to,
        ;
    }
}

/// Where the samples that count lie.
pub open spec fn covers(m: int, n: int, d: int, from: int, to: int) -> bool {
    &&& 0 <= from <= to <= m
    &&& forall|s: int| 0 <= s < from ==> #[trigger] tap(m, n, d, s) == 0
    &&& forall|s: int| to <= s < m ==> #[trigger] tap(m, n, d, s) == 0
    &&& n >= m ==> to - from <= 4
}

proof fn lemma_total_cap(m: int, n: int, d: int, from: int, to: int)
    requires
        0 < m,
        0 < n,
        covers(m, n, d, from, to),
    ensures
        total(m, n, d) <= cap(m, n),
{
    lemma_weighted_zero(one(), m, n, d, 0, from);
    lemma_weighted_zero(one(), m, n, d, to, m);
    let top = reach(m, n);
    lemma_ones(m, n, d, from, to, top);
    assert((to - from) * top <= cap(m, n)) by (nonlinear_arith)
        requires
            0 <= from <= to <= m,
            n >= m ==> to - from <= 4,
            0 < m,
            0 < n,
            top == reach(m, n),
    ;
}

/// The sample whose place holds the centre of sample `d` of `n`.
proof fn lemma_total_positive(m: int, n: int, d: int)
    requires
        0 < m,
        0 <= d < n,
    ensures
        total(m, n, d) > 0,
{
    let c = (2 * d + 1) * m;
    let s = c / (2 * n);
    assert(0 <= s < m && 2 * n * s <= c < 2 * n * s + 2 * n) by (nonlinear_arith)
        requires
            0 < m,
            0 <= d < n,
            c == (2 * d + 1) * m,
            s == c / (2 * n),
    ;
    assert((2 * s + 1) * n == 2 * n * s + n) by (nonlinear_arith);
    assert(tap(m, n, d, s) > 0);
    assert forall|k: int| 0 <= k < m implies #[trigger] one()(k) >= 0 by {}
    lemma_weighted_grows(one(), m, n, d, s, m);
    lemma_weighted_grows(one(), m, n, d, s + 1, m);
    assert(weighted(one(), m, n, d, s + 1) == weighted(one(), m, n, d, s) + tap(m, n, d, s)
        * one()(s));
    assert(tap(m, n, d, s) * one()(s) == tap(m, n, d, s));
}

// ── sampling ────────────────────────────────────────────────────────────────

/// The weights of one sample, from sample `from` on; all others are zero.
struct Taps {
    from: usize,
    weights: Vec<u128>,
    total: u128,
}

impl Taps {
    spec fn of(self, m: int, n: int, d: int) -> bool {
        &&& covers(m, n, d, self.from as int, self.from + self.weights@.len())
        &&& forall|i: int|
            0 <= i < self.weights@.len() ==> #[trigger] self.weights@[i] == tap(
                m,
                n,
                d,
                self.from + i,
            )
        &&& self.total == total(m, n, d)
    }
}

/// The weight of sample `s` of `m` in sample `d` of `n`.
fn weight(m: u32, n: u32, d: u32, s: u32) -> (w: u128)
    ensures
        w == tap(m as int, n as int, d as int, s as int),
        w <= 0x2_0000_0000,
{
    let ghost (gm, gn, gd, gs) = (m as int, n as int, d as int, s as int);
    assert(0 <= (2 * gs + 1) * gn <= 0x1_ffff_ffff * 0xffff_ffff) by (nonlinear_arith)
        requires
            0 <= gs <= 0xffff_ffff,
            0 <= gn <= 0xffff_ffff,
    ;
    assert(0 <= (2 * gd + 1) * gm <= 0x1_ffff_ffff * 0xffff_ffff) by (nonlinear_arith)
        requires
            0 <= gd <= 0xffff_ffff,
            0 <= gm <= 0xffff_ffff,
    ;
    let here: u128 = (2 * s as u128 + 1) * n as u128;
    let there: u128 = (2 * d as u128 + 1) * m as u128;
    let apart: u128 = if here < there {
        there - here
    } else {
        here - there
    };
    let reach: u128 = if m > n {
        2 * m as u128
    } else {
        2 * n as u128
    };
    if apart < reach {
        reach - apart
    } else {
        0
    }
}

/// The weights of sample `d` of `n`.
fn taps(m: u32, n: u32, d: u32) -> (r: Taps)
    requires
        m > 0,
        d < n,
    ensures
        r.of(m as int, n as int, d as int),
{
    let ghost (gm, gn, gd) = (m as int, n as int, d as int);
    assert(0 <= (2 * gd + 1) * gm <= (2 * gn - 1) * gm <= 0x1_ffff_ffff * 0xffff_ffff)
        by (nonlinear_arith)
        requires
            0 <= gd < gn <= 0xffff_ffff,
            0 <= gm <= 0xffff_ffff,
    ;
    let center: u128 = (2 * d as u128 + 1) * m as u128;
    let far: u128 = if m > n {
        2 * m as u128
    } else {
        2 * n as u128
    };
    let step: u128 = 2 * n as u128;
    let first: u128 = if center > far {
        (center - far) / step
    } else {
        0
    };
    let last: u128 = (center + far) / step + 1;
    let to: u128 = if last < m as u128 {
        last
    } else {
        m as u128
    };
    proof {
        let (c, r, f, l) = (center as int, far as int, first as int, last as int);
        assert(0 <= f < gm && f < l && (gn >= gm ==> l - f <= 4) && 2 * gn * f <= (if c > r {
            c - r
        } else {
            0
        }) && 2 * gn * l > c + r) by (nonlinear_arith)
            requires
                0 <= gd < gn,
                0 < gm,
                c == (2 * gd + 1) * gm,
                r == reach(gm, gn),
                f == (if c > r {
                    (c - r) / (2 * gn)
                } else {
                    0
                }),
                l == (c + r) / (2 * gn) + 1,
        ;
        assert forall|s: int| 0 <= s < f implies #[trigger] tap(gm, gn, gd, s) == 0 by {
            assert((2 * s + 1) * gn <= 2 * gn * f) by (nonlinear_arith)
                requires
                    0 <= s < f,
                    gn > 0,
            ;
        }
        assert forall|s: int| to <= s < gm implies #[trigger] tap(gm, gn, gd, s) == 0 by {
            assert((2 * s + 1) * gn >= 2 * gn * l) by (nonlinear_arith)
                requires
                    l <= s,
                    gn > 0,
            ;
        }
        assert(covers(gm, gn, gd, f, to as int));
        lemma_total_cap(gm, gn, gd, f, to as int);
        assert(cap(gm, gn) <= 0x1_0000_0000_0000_0000 * 2) by (nonlinear_arith)
            requires
                0 < gm <= 0xffff_ffff,
                0 < gn <= 0xffff_ffff,
        ;
        lemma_weighted_zero(one(), gm, gn, gd, 0, f);
        lemma_weighted_zero(one(), gm, gn, gd, to as int, gm);
    }
    let from: u32 = first as u32;
    let end: u32 = to as u32;
    let mut weights: Vec<u128> = Vec::new();
    let mut sum: u128 = 0;
    let mut s: u32 = from;
    while s < end
        invariant
            gm == m,
            gn == n,
            gd == d,
            from <= s <= end <= m,
            weights@.len() == s - from,
            forall|i: int|
                0 <= i < weights@.len() ==> #[trigger] weights@[i] == tap(gm, gn, gd, from + i),
            sum == weighted(one(), gm, gn, gd, s as int),
            total(gm, gn, gd) <= cap(gm, gn) <= 0x1_0000_0000_0000_0000 * 2,
        decreases end - s,
    {
        let w: u128 = weight(m, n, d, s);
        proof {
            assert forall|k: int| 0 <= k < gm implies #[trigger] one()(k) >= 0 by {}
            lemma_weighted_grows(one(), gm, gn, gd, s + 1, gm);
            assert(weighted(one(), gm, gn, gd, s + 1) == sum + w);
        }
        weights.push(w);
        sum = sum + w;
        s = s + 1;
    }
    Taps { from: from as usize, weights, total: sum }
}

/// The weights of all samples.
fn axis_weights(m: u32, n: u32) -> (r: Vec<Taps>)
    requires
        m > 0,
    ensures
        r@.len() == n,
        forall|d: int| 0 <= d < n ==> (#[trigger] r@[d]).of(m as int, n as int, d),
{
    let mut r: Vec<Taps> = Vec::new();
    let mut d: u32 = 0;
    while d < n
        invariant
            m > 0,
            d <= n,
            r@.len() == d,
            forall|k: int| 0 <= k < d ==> (#[trigger] r@[k]).of(m as int, n as int, k),
        decreases n - d,
    {
        let t = taps(m, n, d);
        r.push(t);
        d = d + 1;
    }
    r
}

/// Every value lies between zero and a byte times a byte.
proof fn lemma_value_bounds(src: Seq<u8>, at: int, c: int)
    ensures
        0 <= value(src, at, c) <= 65025,
        c == 3 ==> value(src, at, c) <= 255,
        c != 3 ==> value(src, at, c) <= 255 * value(src, at, 3),
{
    let (v, a) = (src[at * 4 + c] as int, src[at * 4 + 3] as int);
    assert(0 <= v * a <= 65025 && v * a <= 255 * a) by (nonlinear_arith)
        requires
            0 <= v <= 255,
            0 <= a <= 255,
    ;
}

proof fn lemma_row_bounds(src: Seq<u8>, sw: int, dw: int, x: int, t: int, c: int, k: int)
    requires
        0 <= k <= sw,
    ensures
        0 <= weighted(texels(src, sw, t, c), sw, dw, x, k) <= row(src, sw, dw, x, t, c),
        row(src, sw, dw, x, t, c) <= 65025 * total(sw, dw, x),
        c == 3 ==> row(src, sw, dw, x, t, c) <= 255 * total(sw, dw, x),
        c != 3 ==> row(src, sw, dw, x, t, c) <= 255 * row(src, sw, dw, x, t, 3),
{
    let f = texels(src, sw, t, c);
    let b: int = if c == 3 {
        255
    } else {
        65025
    };
    assert forall|s: int| 0 <= s < sw implies 0 <= #[trigger] f(s) <= b * one()(s) by {
        lemma_value_bounds(src, t * sw + s, c);
    }
    lemma_weighted_grows(f, sw, dw, x, k, sw);
    lemma_weighted_at_most(f, one(), b, sw, dw, x, sw);
    assert forall|s: int| 0 <= s < sw implies #[trigger] one()(s) >= 0 by {}
    lemma_weighted_grows(one(), sw, dw, x, sw, sw);
    if c != 3 {
        let g = texels(src, sw, t, 3);
        assert forall|s: int| 0 <= s < sw implies #[trigger] f(s) <= 255 * g(s) by {
            lemma_value_bounds(src, t * sw + s, c);
        }
        lemma_weighted_at_most(f, g, 255, sw, dw, x, sw);
    }
}

impl Resize {
    proof fn lemma_sum_bounds(self, x: int, y: int, c: int, k: int)
        requires
            self.sw >= 0,
            0 <= k <= self.sh,
        ensures
            0 <= weighted(rows(self.src, self.sw, self.dw, x, c), self.sh, self.dh, y, k)
                <= self.sum(x, y, c),
            self.sum(x, y, c) <= 65025 * self.weight(x, y),
            c == 3 ==> self.sum(x, y, c) <= 255 * self.weight(x, y),
            c != 3 ==> self.sum(x, y, c) <= 255 * self.sum(x, y, 3),
    {
        let f = rows(self.src, self.sw, self.dw, x, c);
        let across = total(self.sw, self.dw, x);
        let down = total(self.sh, self.dh, y);
        let b: int = if c == 3 {
            255
        } else {
            65025
        };
        assert forall|t: int| 0 <= t < self.sh implies 0 <= #[trigger] f(t) <= (b * across)
            * one()(t) by {
            lemma_row_bounds(self.src, self.sw, self.dw, x, t, c, 0);
        }
        lemma_weighted_grows(f, self.sh, self.dh, y, k, self.sh);
        lemma_weighted_at_most(f, one(), b * across, self.sh, self.dh, y, self.sh);
        assert((b * across) * down == b * (across * down)) by (nonlinear_arith);
        assert(b * across * down <= 65025 * (across * down)) by (nonlinear_arith)
            requires
                b <= 65025,
                b * (across * down) == (b * across) * down,
                b == 255 || b == 65025,
                0 <= (b * across) * down,
        ;
        if c != 3 {
            let g = rows(self.src, self.sw, self.dw, x, 3);
            assert forall|t: int| 0 <= t < self.sh implies #[trigger] f(t) <= 255 * g(t) by {
                lemma_row_bounds(self.src, self.sw, self.dw, x, t, c, 0);
            }
            lemma_weighted_at_most(f, g, 255, self.sh, self.dh, y, self.sh);
        }
    }
}

/// The sums of the four channels of a row.
fn row_sums(src: &[u8], sw: usize, t: usize, tx: &Taps, Ghost(dw): Ghost<int>, Ghost(x): Ghost<int>)
    -> (r: (u128, u128, u128, u128))
    requires
        0 < sw <= 0xffff_ffff,
        0 < dw <= 0xffff_ffff,
        (t + 1) * sw * 4 <= src@.len(),
        tx.of(sw as int, dw, x),
    ensures
        r.0 == row(src@, sw as int, dw, x, t as int, 0),
        r.1 == row(src@, sw as int, dw, x, t as int, 1),
        r.2 == row(src@, sw as int, dw, x, t as int, 2),
        r.3 == row(src@, sw as int, dw, x, t as int, 3),
{
    let ghost m = sw as int;
    let ghost f0 = texels(src@, m, t as int, 0);
    let ghost f1 = texels(src@, m, t as int, 1);
    let ghost f2 = texels(src@, m, t as int, 2);
    let ghost f3 = texels(src@, m, t as int, 3);
    let len: usize = src.len();
    let from: usize = tx.from;
    let count: usize = tx.weights.len();
    proof {
        lemma_total_cap(m, dw, x, from as int, from + count);
        assert(cap(m, dw) <= 0x1_0000_0000_0000_0000 * 2) by (nonlinear_arith)
            requires
                0 < m <= 0xffff_ffff,
                0 < dw <= 0xffff_ffff,
        ;
        lemma_weighted_zero(f0, m, dw, x, 0, from as int);
        lemma_weighted_zero(f1, m, dw, x, 0, from as int);
        lemma_weighted_zero(f2, m, dw, x, 0, from as int);
        lemma_weighted_zero(f3, m, dw, x, 0, from as int);
        lemma_weighted_zero(f0, m, dw, x, from + count, m);
        lemma_weighted_zero(f1, m, dw, x, from + count, m);
        lemma_weighted_zero(f2, m, dw, x, from + count, m);
        lemma_weighted_zero(f3, m, dw, x, from + count, m);
    }
    let mut r: u128 = 0;
    let mut g: u128 = 0;
    let mut b: u128 = 0;
    let mut a: u128 = 0;
    let mut i: usize = 0;
    while i < count
        invariant
            m == sw,
            0 < sw <= 0xffff_ffff,
            0 < dw <= 0xffff_ffff,
            (t + 1) * sw * 4 <= src@.len(),
            src@.len() == len,
            tx.of(m, dw, x),
            from == tx.from,
            count == tx.weights@.len(),
            i <= count,
            total(m, dw, x) <= 0x1_0000_0000_0000_0000 * 2,
            f0 == texels(src@, m, t as int, 0),
            f1 == texels(src@, m, t as int, 1),
            f2 == texels(src@, m, t as int, 2),
            f3 == texels(src@, m, t as int, 3),
            r == weighted(f0, m, dw, x, from + i),
            g == weighted(f1, m, dw, x, from + i),
            b == weighted(f2, m, dw, x, from + i),
            a == weighted(f3, m, dw, x, from + i),
        decreases count - i,
    {
        let ghost s = from + i;
        assert(t * m + s < (t + 1) * m && 0 <= t * m) by (nonlinear_arith)
            requires
                0 <= s < m,
                0 <= t,
        ;
        let at: usize = (t * sw + (from + i)) * 4;
        let w: u128 = tx.weights[i];
        let alpha: u128 = src[at + 3] as u128;
        let red: u128 = src[at] as u128;
        let green: u128 = src[at + 1] as u128;
        let blue: u128 = src[at + 2] as u128;
        proof {
            lemma_row_bounds(src@, m, dw, x, t as int, 0, s + 1);
            lemma_row_bounds(src@, m, dw, x, t as int, 1, s + 1);
            lemma_row_bounds(src@, m, dw, x, t as int, 2, s + 1);
            lemma_row_bounds(src@, m, dw, x, t as int, 3, s + 1);
            assert(w == tap(m, dw, x, s));
            assert(w <= reach(m, dw));
            assert(0 <= red * alpha <= 65025 && 0 <= green * alpha <= 65025 && 0 <= blue * alpha
                <= 65025) by (nonlinear_arith)
                requires
                    0 <= red <= 255,
                    0 <= green <= 255,
                    0 <= blue <= 255,
                    0 <= alpha <= 255,
            ;
            assert(f0(s) == red * alpha && f1(s) == green * alpha && f2(s) == blue * alpha && f3(s)
                == alpha);
            lemma_product(w as int, f0(s));
            lemma_product(w as int, f1(s));
            lemma_product(w as int, f2(s));
            lemma_product(w as int, f3(s));
        }
        r = r + w * (red * alpha);
        g = g + w * (green * alpha);
        b = b + w * (blue * alpha);
        a = a + w * alpha;
        i = i + 1;
    }
    (r, g, b, a)
}

proof fn lemma_product(w: int, v: int)
    requires
        0 <= w <= 0x2_0000_0000,
        0 <= v <= 65025,
    ensures
        0 <= w * v <= 0x2_0000_0000 * 65025,
{
    assert(0 <= w * v <= 0x2_0000_0000 * 65025) by (nonlinear_arith)
        requires
            0 <= w <= 0x2_0000_0000,
            0 <= v <= 65025,
    ;
}

impl Resize {
    /// The sizes and the image fit the machine.
    spec fn small(self) -> bool {
        &&& self.valid()
        &&& self.sw <= 0xffff_ffff
        &&& self.sh <= 0xffff_ffff
        &&& self.dw <= 0xffff_ffff
        &&& self.dh <= 0xffff_ffff
        &&& self.src.len() <= MAX_BYTES
    }

    proof fn lemma_fits(self, tx: Taps, ty: Taps, x: int, y: int)
        requires
            self.small(),
            0 <= x < self.dw,
            0 <= y < self.dh,
            tx.of(self.sw, self.dw, x),
            ty.of(self.sh, self.dh, y),
        ensures
            0 < self.weight(x, y),
            3 * (65025 * self.weight(x, y)) <= u128::MAX,
    {
        let (sw, sh, dw, dh) = (self.sw, self.sh, self.dw, self.dh);
        lemma_total_cap(sw, dw, x, tx.from as int, tx.from + tx.weights@.len());
        lemma_total_cap(sh, dh, y, ty.from as int, ty.from + ty.weights@.len());
        lemma_total_positive(sw, dw, x);
        lemma_total_positive(sh, dh, y);
        let (p, q) = (total(sw, dw, x), total(sh, dh, y));
        let (a, b) = (cap(sw, dw), cap(sh, dh));
        assert(0 < p * q <= a * b) by (nonlinear_arith)
            requires
                0 < p <= a,
                0 < q <= b,
        ;
        let area = sw * sh;
        if sw > dw && sh > dh {
            assert((2 * sw * sw) * (2 * sh * sh) == 4 * (area * area)) by (nonlinear_arith)
                requires
                    area == sw * sh,
            ;
            assert(0 <= area * area <= 0x40_0000_0000_0000 * 0x40_0000_0000_0000)
                by (nonlinear_arith)
                requires
                    0 <= area <= 0x40_0000_0000_0000,
            ;
        } else {
            let side: int = 0xffff_ffff;
            assert(0 <= a <= 8 * side * side && 0 <= b <= 8 * side * side) by (nonlinear_arith)
                requires
                    a == cap(sw, dw),
                    b == cap(sh, dh),
                    0 < sw <= side,
                    0 < sh <= side,
                    0 < dw <= side,
                    0 < dh <= side,
                    side == 0xffff_ffff,
            ;
            if sw <= dw {
                assert(a * b <= (8 * side) * (8 * side * side)) by (nonlinear_arith)
                    requires
                        0 <= a <= 8 * side,
                        0 <= b <= 8 * side * side,
                ;
            } else {
                assert(a * b <= (8 * side * side) * (8 * side)) by (nonlinear_arith)
                    requires
                        0 <= b <= 8 * side,
                        0 <= a <= 8 * side * side,
                ;
            }
        }
    }
}

/// The integer nearest to a ratio that is at most a byte.
fn byte_nearest(num: u128, den: u128) -> (r: u8)
    requires
        den > 0,
        num <= 255 * den,
        2 * num + den <= u128::MAX,
        2 * den <= u128::MAX,
    ensures
        r == nearest(num as int, den as int),
{
    let q: u128 = (2 * num + den) / (2 * den);
    assert(0 <= q <= 255) by (nonlinear_arith)
        requires
            den > 0,
            num <= 255 * den,
            q as int == (2 * num as int + den as int) / (2 * den as int),
    ;
    q as u8
}

/// A pixel of the new image.
fn pixel(src: &[u8], sw: usize, tx: &Taps, ty: &Taps, Ghost(z): Ghost<Resize>, Ghost(x): Ghost<int>,
    Ghost(y): Ghost<int>) -> (r: (u8, u8, u8, u8))
    requires
        z.small(),
        z.src == src@,
        z.sw == sw,
        0 <= x < z.dw,
        0 <= y < z.dh,
        tx.of(z.sw, z.dw, x),
        ty.of(z.sh, z.dh, y),
    ensures
        r.0 == z.channel(x, y, 0),
        r.1 == z.channel(x, y, 1),
        r.2 == z.channel(x, y, 2),
        r.3 == z.channel(x, y, 3),
{
    let ghost f0 = rows(z.src, z.sw, z.dw, x, 0);
    let ghost f1 = rows(z.src, z.sw, z.dw, x, 1);
    let ghost f2 = rows(z.src, z.sw, z.dw, x, 2);
    let ghost f3 = rows(z.src, z.sw, z.dw, x, 3);
    let from: usize = ty.from;
    let count: usize = ty.weights.len();
    proof {
        z.lemma_fits(*tx, *ty, x, y);
        lemma_weighted_zero(f0, z.sh, z.dh, y, 0, from as int);
        lemma_weighted_zero(f1, z.sh, z.dh, y, 0, from as int);
        lemma_weighted_zero(f2, z.sh, z.dh, y, 0, from as int);
        lemma_weighted_zero(f3, z.sh, z.dh, y, 0, from as int);
        lemma_weighted_zero(f0, z.sh, z.dh, y, from + count, z.sh);
        lemma_weighted_zero(f1, z.sh, z.dh, y, from + count, z.sh);
        lemma_weighted_zero(f2, z.sh, z.dh, y, from + count, z.sh);
        lemma_weighted_zero(f3, z.sh, z.dh, y, from + count, z.sh);
    }
    let mut r: u128 = 0;
    let mut g: u128 = 0;
    let mut b: u128 = 0;
    let mut a: u128 = 0;
    let mut i: usize = 0;
    while i < count
        invariant
            z.small(),
            z.src == src@,
            z.sw == sw,
            0 <= x < z.dw,
            tx.of(z.sw, z.dw, x),
            ty.of(z.sh, z.dh, y),
            from == ty.from,
            count == ty.weights@.len(),
            i <= count,
            3 * (65025 * z.weight(x, y)) <= u128::MAX,
            f0 == rows(z.src, z.sw, z.dw, x, 0),
            f1 == rows(z.src, z.sw, z.dw, x, 1),
            f2 == rows(z.src, z.sw, z.dw, x, 2),
            f3 == rows(z.src, z.sw, z.dw, x, 3),
            r == weighted(f0, z.sh, z.dh, y, from + i),
            g == weighted(f1, z.sh, z.dh, y, from + i),
            b == weighted(f2, z.sh, z.dh, y, from + i),
            a == weighted(f3, z.sh, z.dh, y, from + i),
        decreases count - i,
    {
        let ghost t = from + i;
        assert((t + 1) * sw * 4 <= src@.len()) by (nonlinear_arith)
            requires
                0 <= t < z.sh,
                z.sw == sw,
                src@.len() == z.sw * z.sh * 4,
        ;
        let w: u128 = ty.weights[i];
        let sums: (u128, u128, u128, u128) = row_sums(src, sw, from + i, tx, Ghost(z.dw), Ghost(x));
        proof {
            assert(w == tap(z.sh, z.dh, y, t));
            z.lemma_sum_bounds(x, y, 0, t + 1);
            z.lemma_sum_bounds(x, y, 1, t + 1);
            z.lemma_sum_bounds(x, y, 2, t + 1);
            z.lemma_sum_bounds(x, y, 3, t + 1);
            assert(f0(t) == sums.0 && f1(t) == sums.1 && f2(t) == sums.2 && f3(t) == sums.3);
            assert(w * f0(t) >= 0 && w * f1(t) >= 0 && w * f2(t) >= 0 && w * f3(t) >= 0)
                by (nonlinear_arith)
                requires
                    w >= 0,
                    f0(t) >= 0,
                    f1(t) >= 0,
                    f2(t) >= 0,
                    f3(t) >= 0,
            ;
        }
        r = r + w * sums.0;
        g = g + w * sums.1;
        b = b + w * sums.2;
        a = a + w * sums.3;
        i = i + 1;
    }
    proof {
        z.lemma_sum_bounds(x, y, 0, 0);
        z.lemma_sum_bounds(x, y, 1, 0);
        z.lemma_sum_bounds(x, y, 2, 0);
        z.lemma_sum_bounds(x, y, 3, 0);
    }
    let whole: u128 = tx.total * ty.total;
    let alpha: u8 = byte_nearest(a, whole);
    if a == 0 {
        (0, 0, 0, alpha)
    } else {
        (byte_nearest(r, a), byte_nearest(g, a), byte_nearest(b, a), alpha)
    }
}

/// The most bytes of an image: more than any address space holds.
pub const MAX_BYTES: u64 = 0x100_0000_0000_0000;

/// Bring an image of `sw` by `sh` pixels to `dw` by `dh`. The result is empty
/// where a side is zero or `src` is not as long as the image.
pub fn resize_rgba(src: &[u8], sw: u32, sh: u32, dw: u32, dh: u32) -> (out: Vec<u8>)
    requires
        src@.len() <= MAX_BYTES,
    ensures
        ({
            let z = Resize {
                src: src@,
                sw: sw as int,
                sh: sh as int,
                dw: dw as int,
                dh: dh as int,
            };
            if z.valid() {
                &&& out@.len() == dw * dh * 4
                &&& forall|x: int, y: int, c: int|
                    0 <= x < dw && 0 <= y < dh && 0 <= c < 4 ==> out@[(y * dw + x) * 4 + c]
                        == #[trigger] z.channel(x, y, c)
            } else {
                out@.len() == 0
            }
        }),
{
    let ghost z = Resize {
        src: src@,
        sw: sw as int,
        sh: sh as int,
        dw: dw as int,
        dh: dh as int,
    };
    let mut out: Vec<u8> = Vec::new();
    assert(0 <= sw * sh <= 0xffff_ffff * 0xffff_ffff) by (nonlinear_arith)
        requires
            0 <= sw <= 0xffff_ffff,
            0 <= sh <= 0xffff_ffff,
    ;
    let pixels: u128 = sw as u128 * sh as u128;
    if sw == 0 || sh == 0 || dw == 0 || dh == 0 || src.len() as u128 != pixels * 4 {
        return out;
    }
    let across = axis_weights(sw, dw);
    let down = axis_weights(sh, dh);
    let mut y: u32 = 0;
    while y < dh
        invariant
            z == (Resize {
                src: src@,
                sw: sw as int,
                sh: sh as int,
                dw: dw as int,
                dh: dh as int,
            }),
            z.small(),
            across@.len() == dw,
            down@.len() == dh,
            forall|d: int| 0 <= d < dw ==> (#[trigger] across@[d]).of(sw as int, dw as int, d),
            forall|d: int| 0 <= d < dh ==> (#[trigger] down@[d]).of(sh as int, dh as int, d),
            y <= dh,
            out@.len() == y * dw * 4,
            forall|i: int, j: int, c: int|
                0 <= i < dw && 0 <= j < y && 0 <= c < 4 ==> out@[(j * dw + i) * 4 + c]
                    == #[trigger] z.channel(i, j, c),
        decreases dh - y,
    {
        let mut x: u32 = 0;
        while x < dw
            invariant
                z == (Resize {
                    src: src@,
                    sw: sw as int,
                    sh: sh as int,
                    dw: dw as int,
                    dh: dh as int,
                }),
                z.small(),
                across@.len() == dw,
                down@.len() == dh,
                forall|d: int| 0 <= d < dw ==> (#[trigger] across@[d]).of(sw as int, dw as int, d),
                forall|d: int| 0 <= d < dh ==> (#[trigger] down@[d]).of(sh as int, dh as int, d),
                y < dh,
                x <= dw,
                out@.len() == (y * dw + x) * 4,
                forall|i: int, j: int, c: int|
                    0 <= i < dw && 0 <= j <= y && (j < y || i < x) && 0 <= c < 4 ==> out@[(j * dw
                        + i) * 4 + c] == #[trigger] z.channel(i, j, c),
            decreases dw - x,
        {
            let ghost before = out@;
            let p: (u8, u8, u8, u8) = pixel(
                src,
                sw as usize,
                &across[x as usize],
                &down[y as usize],
                Ghost(z),
                Ghost(x as int),
                Ghost(y as int),
            );
            out.push(p.0);
            out.push(p.1);
            out.push(p.2);
            out.push(p.3);
            proof {
                assert forall|i: int, j: int, c: int|
                    0 <= i < dw && 0 <= j <= y && (j < y || i < x + 1) && 0 <= c < 4 implies out@[(j
                    * dw + i) * 4 + c] == #[trigger] z.channel(i, j, c) by {
                    if j < y || i < x {
                        assert(0 <= j * dw + i < y * dw + x) by (nonlinear_arith)
                            requires
                                0 <= i < dw,
                                0 <= j <= y,
                                j < y || i < x,
                                0 <= x,
                        ;
                        assert(before[(j * dw + i) * 4 + c] == z.channel(i, j, c));
                    }
                }
            }
            x = x + 1;
        }
        proof {
            assert((y + 1) * dw == y * dw + dw) by (nonlinear_arith);
        }
        y = y + 1;
    }
    assert(dh * dw == dw * dh) by (nonlinear_arith);
    out
}

// ── laws ────────────────────────────────────────────────────────────────────

proof fn lemma_weighted_same(
    f: spec_fn(int) -> int,
    g: spec_fn(int) -> int,
    m: int,
    n: int,
    d: int,
    k: int,
)
    requires
        forall|s: int| 0 <= s < k ==> #[trigger] f(s) == g(s),
    ensures
        weighted(f, m, n, d, k) == weighted(g, m, n, d, k),
    decreases k,
{
    if k > 0 {
        lemma_weighted_same(f, g, m, n, d, k - 1);
        assert(f(k - 1) == g(k - 1));
    }
}

proof fn lemma_weighted_flat(f: spec_fn(int) -> int, v: int, m: int, n: int, d: int, k: int)
    requires
        forall|s: int| 0 <= s < k ==> #[trigger] f(s) == v,
    ensures
        weighted(f, m, n, d, k) == v * weighted(one(), m, n, d, k),
    decreases k,
{
    if k > 0 {
        lemma_weighted_flat(f, v, m, n, d, k - 1);
        assert(f(k - 1) == v);
        let (w, before) = (tap(m, n, d, k - 1), weighted(one(), m, n, d, k - 1));
        assert(v * (before + w * 1) == v * before + w * v) by (nonlinear_arith);
    } else {
        assert(v * 0 == 0);
    }
}

/// The colours of pixels that are wholly transparent do not count: two images
/// that differ in nothing else become the same.
pub proof fn law_transparent_pixels_do_not_bleed(z: Resize, other: Seq<u8>, x: int, y: int, c: int)
    requires
        z.valid(),
        other.len() == z.src.len(),
        forall|p: int, k: int|
            0 <= p < z.sw * z.sh && 0 <= k < 4 && (k == 3 || z.src[p * 4 + 3] != 0)
                ==> #[trigger] other[p * 4 + k] == z.src[p * 4 + k],
        0 <= x < z.dw,
        0 <= y < z.dh,
        0 <= c < 4,
    ensures
        z.channel(x, y, c) == (Resize { src: other, ..z }).channel(x, y, c),
{
    let u = Resize { src: other, ..z };
    assert forall|k: int| 0 <= k < 4 implies #[trigger] z.sum(x, y, k) == u.sum(x, y, k) by {
        let f = rows(z.src, z.sw, z.dw, x, k);
        let g = rows(other, z.sw, z.dw, x, k);
        assert forall|t: int| 0 <= t < z.sh implies #[trigger] f(t) == g(t) by {
            let p = texels(z.src, z.sw, t, k);
            let q = texels(other, z.sw, t, k);
            assert forall|s: int| 0 <= s < z.sw implies #[trigger] p(s) == q(s) by {
                let at = t * z.sw + s;
                assert(0 <= at < z.sw * z.sh) by (nonlinear_arith)
                    requires
                        0 <= s < z.sw,
                        0 <= t < z.sh,
                        at == t * z.sw + s,
                ;
                assert(other[at * 4 + 3] == z.src[at * 4 + 3]);
                if z.src[at * 4 + 3] != 0 {
                    assert(other[at * 4 + k] == z.src[at * 4 + k]);
                } else {
                    assert(other[at * 4 + k] * 0 == 0 && z.src[at * 4 + k] * 0 == 0);
                }
            }
            lemma_weighted_same(p, q, z.sw, z.dw, x, z.sw);
        }
        lemma_weighted_same(f, g, z.sh, z.dh, y, z.sh);
    }
    assert(z.sum(x, y, c) == u.sum(x, y, c) && z.sum(x, y, 3) == u.sum(x, y, 3));
}

proof fn lemma_nearest_exact(v: int, den: int)
    requires
        den > 0,
    ensures
        nearest(v * den, den) == v,
{
    assert((2 * (v * den) + den) / (2 * den) == v) by (nonlinear_arith)
        requires
            den > 0,
    ;
}

/// An image of one colour stays of that colour at every size.
pub proof fn law_flat_colour_stays(z: Resize, px: Seq<u8>, x: int, y: int, c: int)
    requires
        z.valid(),
        px.len() == 4,
        px[3] > 0,
        forall|p: int, k: int|
            0 <= p < z.sw * z.sh && 0 <= k < 4 ==> #[trigger] z.src[p * 4 + k] == px[k],
        0 <= x < z.dw,
        0 <= y < z.dh,
        0 <= c < 4,
    ensures
        z.channel(x, y, c) == px[c],
{
    let (across, down) = (total(z.sw, z.dw, x), total(z.sh, z.dh, y));
    lemma_total_positive(z.sw, z.dw, x);
    lemma_total_positive(z.sh, z.dh, y);
    let w = across * down;
    assert(w > 0) by (nonlinear_arith)
        requires
            w == across * down,
            across > 0,
            down > 0,
    ;
    assert forall|k: int| 0 <= k < 4 implies #[trigger] z.sum(x, y, k) == (if k == 3 {
        px[3] as int
    } else {
        px[k] * px[3]
    }) * w by {
        let v: int = if k == 3 {
            px[3] as int
        } else {
            px[k] * px[3]
        };
        let f = rows(z.src, z.sw, z.dw, x, k);
        assert forall|t: int| 0 <= t < z.sh implies #[trigger] f(t) == v * across by {
            let p = texels(z.src, z.sw, t, k);
            assert forall|s: int| 0 <= s < z.sw implies #[trigger] p(s) == v by {
                let at = t * z.sw + s;
                assert(0 <= at < z.sw * z.sh) by (nonlinear_arith)
                    requires
                        0 <= s < z.sw,
                        0 <= t < z.sh,
                        at == t * z.sw + s,
                ;
                assert(z.src[at * 4 + 3] == px[3] && z.src[at * 4 + k] == px[k]);
            }
            lemma_weighted_flat(p, v, z.sw, z.dw, x, z.sw);
        }
        lemma_weighted_flat(f, v * across, z.sh, z.dh, y, z.sh);
        assert((v * across) * down == v * w) by (nonlinear_arith)
            requires
                w == across * down,
        ;
    }
    let alpha = px[3] * w;
    assert(z.sum(x, y, 3) == alpha && z.sum(x, y, c) == z.sum(x, y, c));
    if c == 3 {
        lemma_nearest_exact(px[3] as int, w);
    } else {
        let v = px[c] as int;
        assert(alpha > 0) by (nonlinear_arith)
            requires
                alpha == px[3] * w,
                px[3] > 0,
                w > 0,
        ;
        assert((v * px[3]) * w == v * alpha) by (nonlinear_arith)
            requires
                alpha == px[3] * w,
        ;
        lemma_nearest_exact(v, alpha);
    }
}

proof fn lemma_weighted_alone(f: spec_fn(int) -> int, m: int, d: int)
    requires
        0 <= d < m,
    ensures
        weighted(f, m, m, d, m) == 2 * m * f(d),
{
    assert forall|s: int| 0 <= s < m && s != d implies #[trigger] tap(m, m, d, s) == 0 by {
        assert((2 * s + 1) * m - (2 * d + 1) * m == 2 * (s - d) * m) by (nonlinear_arith);
        assert(s > d ==> 2 * (s - d) * m >= 2 * m) by (nonlinear_arith)
            requires
                m > 0,
        ;
        assert(s < d ==> 2 * (s - d) * m <= -2 * m) by (nonlinear_arith)
            requires
                m > 0,
        ;
    }
    assert(tap(m, m, d, d) == 2 * m);
    lemma_weighted_zero(f, m, m, d, 0, d);
    lemma_weighted_zero(f, m, m, d, d + 1, m);
    assert(weighted(f, m, m, d, d + 1) == tap(m, m, d, d) * f(d));
}

/// An image brought to its own size stays as it is, but for the colours of
/// pixels that are wholly transparent, which become black.
pub proof fn law_same_size_keeps_pixels(z: Resize, x: int, y: int, c: int)
    requires
        z.valid(),
        z.dw == z.sw,
        z.dh == z.sh,
        0 <= x < z.sw,
        0 <= y < z.sh,
        0 <= c < 4,
    ensures
        ({
            let at = (y * z.sw + x) * 4;
            z.channel(x, y, c) == (if c == 3 || z.src[at + 3] != 0 {
                z.src[at + c] as int
            } else {
                0
            })
        }),
{
    let at = y * z.sw + x;
    let (m, n) = (z.sw, z.sh);
    let w = (2 * m) * (2 * n);
    assert(w > 0) by (nonlinear_arith)
        requires
            m > 0,
            n > 0,
            w == (2 * m) * (2 * n),
    ;
    assert forall|k: int| 0 <= k < 4 implies #[trigger] z.sum(x, y, k) == value(z.src, at, k)
        * w by {
        let f = rows(z.src, m, m, x, k);
        lemma_weighted_alone(f, n, y);
        lemma_weighted_alone(texels(z.src, m, y, k), m, x);
        let v = value(z.src, at, k);
        assert(2 * n * (2 * m * v) == v * w) by (nonlinear_arith)
            requires
                w == (2 * m) * (2 * n),
        ;
    }
    lemma_weighted_alone(one(), m, x);
    lemma_weighted_alone(one(), n, y);
    assert(z.weight(x, y) == w);
    let a = z.src[at * 4 + 3] as int;
    assert(z.sum(x, y, 3) == a * w);
    if c == 3 {
        lemma_nearest_exact(a, w);
    } else if a == 0 {
        assert(0 * w == 0);
    } else {
        let v = z.src[at * 4 + c] as int;
        let alpha = a * w;
        assert(alpha > 0) by (nonlinear_arith)
            requires
                alpha == a * w,
                a > 0,
                w > 0,
        ;
        assert(z.sum(x, y, c) == (v * a) * w);
        assert((v * a) * w == v * alpha) by (nonlinear_arith)
            requires
                alpha == a * w,
        ;
        lemma_nearest_exact(v, alpha);
    }
}

proof fn lemma_weighted_near(
    f: spec_fn(int) -> int,
    g: spec_fn(int) -> int,
    m: int,
    n: int,
    d: int,
    k: int,
)
    requires
        forall|s: int| 0 <= s < k && #[trigger] tap(m, n, d, s) != 0 ==> f(s) == g(s),
    ensures
        weighted(f, m, n, d, k) == weighted(g, m, n, d, k),
    decreases k,
{
    if k > 0 {
        lemma_weighted_near(f, g, m, n, d, k - 1);
        let w = tap(m, n, d, k - 1);
        let a = f(k - 1);
        let b = g(k - 1);
        assert(w * a == w * b) by (nonlinear_arith)
            requires
                w == 0 || a == b,
        ;
    }
}

/// The centres of sample `s` of `m` and sample `d` of `n` lie less than one of
/// the larger samples apart.
pub open spec fn is_close(m: int, n: int, d: int, s: int) -> bool {
    let larger = if m > n {
        m
    } else {
        n
    };
    -2 * larger < (2 * s + 1) * n - (2 * d + 1) * m < 2 * larger
}

/// A pixel is made of the pixels near its own place alone: those in columns and
/// rows close to its column and its row. What lies farther off makes no
/// difference to it.
pub proof fn law_pixels_are_made_of_those_nearby(z: Resize, other: Seq<u8>, x: int, y: int, c: int)
    requires
        z.valid(),
        other.len() == z.src.len(),
        forall|s: int, t: int, k: int|
            #![trigger other[(t * z.sw + s) * 4 + k]]
            0 <= s < z.sw && 0 <= t < z.sh && 0 <= k < 4 && is_close(z.sw, z.dw, x, s) && is_close(
                z.sh,
                z.dh,
                y,
                t,
            ) ==> other[(t * z.sw + s) * 4 + k] == z.src[(t * z.sw + s) * 4 + k],
        0 <= x < z.dw,
        0 <= y < z.dh,
        0 <= c < 4,
    ensures
        z.channel(x, y, c) == (Resize { src: other, ..z }).channel(x, y, c),
{
    let w = Resize { src: other, ..z };
    lemma_sum_nearby(z, other, x, y, c);
    lemma_sum_nearby(z, other, x, y, 3);
    assert(z.sum(x, y, c) == w.sum(x, y, c));
    assert(z.sum(x, y, 3) == w.sum(x, y, 3));
}

proof fn lemma_sum_nearby(z: Resize, other: Seq<u8>, x: int, y: int, c: int)
    requires
        z.valid(),
        other.len() == z.src.len(),
        forall|s: int, t: int, k: int|
            #![trigger other[(t * z.sw + s) * 4 + k]]
            0 <= s < z.sw && 0 <= t < z.sh && 0 <= k < 4 && is_close(z.sw, z.dw, x, s) && is_close(
                z.sh,
                z.dh,
                y,
                t,
            ) ==> other[(t * z.sw + s) * 4 + k] == z.src[(t * z.sw + s) * 4 + k],
        0 <= x < z.dw,
        0 <= y < z.dh,
        0 <= c < 4,
    ensures
        z.sum(x, y, c) == (Resize { src: other, ..z }).sum(x, y, c),
{
    let f = rows(z.src, z.sw, z.dw, x, c);
    let g = rows(other, z.sw, z.dw, x, c);
    assert forall|t: int| 0 <= t < z.sh && #[trigger] tap(z.sh, z.dh, y, t) != 0 implies f(t) == g(
        t,
    ) by {
        let a = texels(z.src, z.sw, t, c);
        let b = texels(other, z.sw, t, c);
        assert(is_close(z.sh, z.dh, y, t));
        assert forall|s: int| 0 <= s < z.sw && #[trigger] tap(z.sw, z.dw, x, s) != 0 implies a(s)
            == b(s) by {
            assert(is_close(z.sw, z.dw, x, s));
            let at = t * z.sw + s;
            assert(other[at * 4 + c] == z.src[at * 4 + c]);
            assert(other[at * 4 + 3] == z.src[at * 4 + 3]);
        }
        lemma_weighted_near(a, b, z.sw, z.dw, x, z.sw);
    }
    lemma_weighted_near(f, g, z.sh, z.dh, y, z.sh);
}

/// What is nearer counts more, by as much as it is nearer, down to nothing.
/// Seen in a mirror, with places counted from the other end, all weights are
/// the same.
pub proof fn law_nearer_samples_count_more(m: int, n: int, d: int, s: int, t: int)
    ensures
        apart(m, n, d, s) <= apart(m, n, d, t) ==> tap(m, n, d, s) >= tap(m, n, d, t) >= 0,
        tap(m, n, d, s) > 0 && tap(m, n, d, t) > 0 ==> tap(m, n, d, s) - tap(m, n, d, t) == apart(
            m,
            n,
            d,
            t,
        ) - apart(m, n, d, s),
        tap(m, n, d, s) > 0 <==> is_close(m, n, d, s),
        tap(m, n, n - 1 - d, m - 1 - s) == tap(m, n, d, s),
{
    let gap = (2 * s + 1) * n - (2 * d + 1) * m;
    let back = (2 * (m - 1 - s) + 1) * n - (2 * (n - 1 - d) + 1) * m;
    assert(back == -gap) by (nonlinear_arith)
        requires
            gap == (2 * s + 1) * n - (2 * d + 1) * m,
            back == (2 * (m - 1 - s) + 1) * n - (2 * (n - 1 - d) + 1) * m,
    ;
}

/// A channel is the integer nearest to the mean that it stands for: it is off by
/// half at most, and where it is off by half it is the larger of the two.
pub proof fn law_means_are_rounded_to_the_nearest(num: int, den: int)
    requires
        den > 0,
    ensures
        -den <= 2 * (num - den * nearest(num, den)) < den,
{
    let r = nearest(num, den);
    let a = 2 * num + den;
    let b = 2 * den;
    assert(b * r <= a < b * r + b) by (nonlinear_arith)
        requires
            r == a / b,
            b > 0,
    ;
    assert(b * r == 2 * (den * r)) by (nonlinear_arith)
        requires
            b == 2 * den,
    ;
}

} // verus!
