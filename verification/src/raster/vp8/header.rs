//! The frame header: size, segments, filter settings, quantizers, coefficient
//! probabilities, and where the coefficient partitions lie.
use super::arith::{bit, literal, maybe_int, optional, Arith, Bool};
use super::filter::{deltas_ok, settings_ok, Lf, Settings};
use super::tables::{default_prob, default_probs, update_prob, update_probs};
use super::tokens::{dequant_ok, Dequant};
use vstd::arithmetic::power2::{lemma2_to64, pow2};
use vstd::prelude::*;
use vstd::slice::slice_subrange;

verus! {

/// Quantizer steps of block averages and first coefficients.
pub const DC_QUANT: [i32; 128] = [
    4, 5, 6, 7, 8, 9, 10, 10, 11, 12, 13, 14, 15, 16, 17, 17, 18, 19, 20, 20, 21, 21, 22, 22, 23,
    23, 24, 25, 25, 26, 27, 28, 29, 30, 31, 32, 33, 34, 35, 36, 37, 37, 38, 39, 40, 41, 42, 43, 44,
    45, 46, 46, 47, 48, 49, 50, 51, 52, 53, 54, 55, 56, 57, 58, 59, 60, 61, 62, 63, 64, 65, 66, 67,
    68, 69, 70, 71, 72, 73, 74, 75, 76, 76, 77, 78, 79, 80, 81, 82, 83, 84, 85, 86, 87, 88, 89, 91,
    93, 95, 96, 98, 100, 101, 102, 104, 106, 108, 110, 112, 114, 116, 118, 122, 124, 126, 128, 130,
    132, 134, 136, 138, 140, 143, 145, 148, 151, 154, 157,
];

/// Quantizer steps of the other coefficients.
pub const AC_QUANT: [i32; 128] = [
    4, 5, 6, 7, 8, 9, 10, 11, 12, 13, 14, 15, 16, 17, 18, 19, 20, 21, 22, 23, 24, 25, 26, 27, 28,
    29, 30, 31, 32, 33, 34, 35, 36, 37, 38, 39, 40, 41, 42, 43, 44, 45, 46, 47, 48, 49, 50, 51, 52,
    53, 54, 55, 56, 57, 58, 60, 62, 64, 66, 68, 70, 72, 74, 76, 78, 80, 82, 84, 86, 88, 90, 92, 94,
    96, 98, 100, 102, 104, 106, 108, 110, 112, 114, 116, 119, 122, 125, 128, 131, 134, 137, 140,
    143, 146, 149, 152, 155, 158, 161, 164, 167, 170, 173, 177, 181, 185, 189, 193, 197, 201, 205,
    209, 213, 217, 221, 225, 229, 234, 239, 245, 249, 254, 259, 264, 269, 274, 279, 284,
];

// ── quantizers ──────────────────────────────────────────────────────────────

pub open spec fn clamp_index(q: int) -> int {
    if q < 0 {
        0
    } else if q > 127 {
        127
    } else {
        q
    }
}

pub open spec fn dc_step(q: int) -> int {
    DC_QUANT@[clamp_index(q)] as int
}

pub open spec fn ac_step(q: int) -> int {
    AC_QUANT@[clamp_index(q)] as int
}

/// Steps are those of the tables: from four up, and never smaller at a larger
/// index.
pub proof fn lemma_steps(q: int)
    ensures
        4 <= dc_step(q) <= 157,
        4 <= ac_step(q) <= 284,
        dc_step(q) <= dc_step(q + 1),
        ac_step(q) <= ac_step(q + 1),
{
    assert(forall|k: int| 0 <= k < 128 ==> 4 <= #[trigger] DC_QUANT@[k] <= 157);
    assert(forall|k: int| 0 <= k < 128 ==> 4 <= #[trigger] AC_QUANT@[k] <= 284);
    assert(forall|k: int| 0 <= k < 127 ==> #[trigger] DC_QUANT@[k] <= DC_QUANT@[k + 1]);
    assert(forall|k: int| 0 <= k < 127 ==> #[trigger] AC_QUANT@[k] <= AC_QUANT@[k + 1]);
}

fn index_of(q: i32) -> (i: usize)
    ensures
        i == clamp_index(q as int),
        i < 128,
{
    if q < 0 {
        0
    } else if q > 127 {
        127
    } else {
        q as usize
    }
}

/// The step of averages and first coefficients at quantizer index `q`.
pub fn dc_q(q: i32) -> (v: i32)
    ensures
        v == dc_step(q as int),
        4 <= v <= 157,
{
    let i: usize = index_of(q);
    assert(forall|k: int| 0 <= k < 128 ==> 4 <= #[trigger] DC_QUANT@[k] <= 157);
    DC_QUANT[i]
}

/// The step of the other coefficients at quantizer index `q`.
pub fn ac_q(q: i32) -> (v: i32)
    ensures
        v == ac_step(q as int),
        4 <= v <= 284,
{
    let i: usize = index_of(q);
    assert(forall|k: int| 0 <= k < 128 ==> 4 <= #[trigger] AC_QUANT@[k] <= 284);
    AC_QUANT[i]
}

/// The quantizer header: an index and five offsets.
pub struct Quant {
    pub index: i32,
    pub y1_dc: i32,
    pub y2_dc: i32,
    pub y2_ac: i32,
    pub uv_dc: i32,
    pub uv_ac: i32,
}

pub open spec fn quant_ok(q: Quant) -> bool {
    &&& 0 <= q.index < 128
    &&& -16 < q.y1_dc < 16
    &&& -16 < q.y2_dc < 16
    &&& -16 < q.y2_ac < 16
    &&& -16 < q.uv_dc < 16
    &&& -16 < q.uv_ac < 16
}

pub open spec fn parse_quant(a: Arith) -> (Quant, Arith) {
    let (index, a1) = literal(a, 7);
    let (y1_dc, a2) = optional(a1, 4);
    let (y2_dc, a3) = optional(a2, 4);
    let (y2_ac, a4) = optional(a3, 4);
    let (uv_dc, a5) = optional(a4, 4);
    let (uv_ac, a6) = optional(a5, 4);
    (
        Quant {
            index: index as i32,
            y1_dc: y1_dc as i32,
            y2_dc: y2_dc as i32,
            y2_ac: y2_ac as i32,
            uv_dc: uv_dc as i32,
            uv_ac: uv_ac as i32,
        },
        a6,
    )
}

fn read_quant(b: &mut Bool) -> (q: Quant)
    requires
        old(b).wf(),
    ensures
        final(b).wf(),
        (q, final(b)@) == parse_quant(old(b)@),
        quant_ok(q),
{
    proof {
        lemma2_to64();
    }
    let index: i32 = b.literal(7) as i32;
    let y1_dc: i32 = maybe_int(b, 4);
    let y2_dc: i32 = maybe_int(b, 4);
    let y2_ac: i32 = maybe_int(b, 4);
    let uv_dc: i32 = maybe_int(b, 4);
    let uv_ac: i32 = maybe_int(b, 4);
    Quant { index, y1_dc, y2_dc, y2_ac, uv_dc, uv_ac }
}

/// The factors of a segment.
#[verifier::opaque]
pub open spec fn factors(q: Quant, seg: Segments, s: int) -> Dequant {
    let i = if seg.enabled {
        if seg.abs {
            seg.quant[s] as int
        } else {
            q.index + seg.quant[s]
        }
    } else {
        q.index as int
    };
    let uv = dc_step(i + q.uv_dc);
    let y2 = (ac_step(i + q.y2_ac) * 155) / 100;
    Dequant {
        y1_dc: dc_step(i + q.y1_dc) as i32,
        y1_ac: ac_step(i) as i32,
        y2_dc: (2 * dc_step(i + q.y2_dc)) as i32,
        y2_ac: (if y2 < 8 {
            8
        } else {
            y2
        }) as i32,
        uv_dc: (if uv < 132 {
            uv
        } else {
            132
        }) as i32,
        uv_ac: ac_step(i + q.uv_ac) as i32,
    }
}

/// The factors of segment `s`.
pub fn dequant_of(q: &Quant, seg: &SegmentHeader, s: usize) -> (d: Dequant)
    requires
        quant_ok(*q),
        segments_ok(seg@),
        s < 4,
    ensures
        d == factors(*q, seg@, s as int),
        dequant_ok(d),
{
    proof {
        reveal(factors);
    }
    let mut i: i32 = q.index;
    if seg.enabled {
        let v: i32 = seg.quant[s];
        assert(-128 < seg@.quant[s as int] < 128);
        i = if seg.abs {
            v
        } else {
            i + v
        };
    }
    let uv: i32 = dc_q(i + q.uv_dc);
    let y2: i32 = (ac_q(i + q.y2_ac) * 155) / 100;
    Dequant {
        y1_dc: dc_q(i + q.y1_dc),
        y1_ac: ac_q(i),
        y2_dc: 2 * dc_q(i + q.y2_dc),
        y2_ac: if y2 < 8 {
            8
        } else {
            y2
        },
        uv_dc: if uv < 132 {
            uv
        } else {
            132
        },
        uv_ac: ac_q(i + q.uv_ac),
    }
}

// ── segments and filter settings ────────────────────────────────────────────

/// Four optional numbers of `bits` bits.
pub open spec fn optionals(a: Arith, bits: nat, n: int) -> (Seq<i32>, Arith)
    decreases n,
{
    if n <= 0 {
        (Seq::empty(), a)
    } else {
        let (vs, a1) = optionals(a, bits, n - 1);
        let (v, a2) = optional(a1, bits);
        (vs.push(v as i32), a2)
    }
}

fn read_four(b: &mut Bool, bits: u32) -> (v: [i32; 4])
    requires
        old(b).wf(),
        bits == 6 || bits == 7,
    ensures
        final(b).wf(),
        (v@, final(b)@) == optionals(old(b)@, bits as nat, 4),
        forall|k: int| 0 <= k < 4 ==> -128 < #[trigger] v@[k] < 128,
        bits == 6 ==> deltas_ok(v@),
{
    proof {
        lemma2_to64();
    }
    let ghost a = b@;
    let mut v: [i32; 4] = [0;4];
    let mut i: usize = 0;
    assert(v@.subrange(0, 0) =~= Seq::empty());
    while i < 4
        invariant
            i <= 4,
            bits == 6 || bits == 7,
            pow2(6) == 64,
            pow2(7) == 128,
            b.wf(),
            (v@.subrange(0, i as int), b@) == optionals(a, bits as nat, i as int),
            forall|k: int| 0 <= k < i ==> -128 < #[trigger] v@[k] < 128,
            forall|k: int| 0 <= k < i && bits == 6 ==> -64 < #[trigger] v@[k] < 64,
        decreases 4 - i,
    {
        let ghost done = v@.subrange(0, i as int);
        let x: i32 = maybe_int(b, bits);
        v[i] = x;
        assert(v@.subrange(0, i + 1) =~= done.push(x));
        i = i + 1;
    }
    assert(v@.subrange(0, 4) =~= v@);
    v
}

/// The segment header.
pub struct SegmentHeader {
    pub enabled: bool,
    pub update_map: bool,
    pub abs: bool,
    pub quant: [i32; 4],
    pub lf: [i32; 4],
    pub probs: [u8; 3],
}

/// The segment header.
pub ghost struct Segments {
    pub enabled: bool,
    pub update_map: bool,
    pub abs: bool,
    pub quant: Seq<i32>,
    pub lf: Seq<i32>,
    pub probs: Seq<u8>,
}

impl View for SegmentHeader {
    type V = Segments;

    open spec fn view(&self) -> Segments {
        Segments {
            enabled: self.enabled,
            update_map: self.update_map,
            abs: self.abs,
            quant: self.quant@,
            lf: self.lf@,
            probs: self.probs@,
        }
    }
}

pub open spec fn segments_ok(s: Segments) -> bool {
    &&& s.quant.len() == 4
    &&& forall|k: int| 0 <= k < 4 ==> -128 < #[trigger] s.quant[k] < 128
    &&& s.lf.len() == 4
    &&& deltas_ok(s.lf)
    &&& s.probs.len() == 3
    &&& s.update_map ==> s.enabled
}

/// The per-segment quantizers and filter levels, absolute or not.
pub open spec fn parse_segment_data(a: Arith) -> (bool, Seq<i32>, Seq<i32>, Arith) {
    let (update, a1) = bit(a, 128);
    if update {
        let (abs, a2) = bit(a1, 128);
        let (quant, a3) = optionals(a2, 7, 4);
        let (lf, a4) = optionals(a3, 6, 4);
        (abs, quant, lf, a4)
    } else {
        (false, Seq::new(4, |i: int| 0i32), Seq::new(4, |i: int| 0i32), a1)
    }
}

/// A probability of the segment tree.
pub open spec fn parse_tree_prob(a: Arith) -> (u8, Arith) {
    let (present, a1) = bit(a, 128);
    if present {
        let (v, a2) = literal(a1, 8);
        (v as u8, a2)
    } else {
        (255, a1)
    }
}

pub open spec fn parse_segments(a: Arith) -> (Segments, Arith) {
    let (enabled, a1) = bit(a, 128);
    if enabled {
        let (update_map, a2) = bit(a1, 128);
        let (abs, quant, lf, a3) = parse_segment_data(a2);
        if update_map {
            let (p0, a4) = parse_tree_prob(a3);
            let (p1, a5) = parse_tree_prob(a4);
            let (p2, a6) = parse_tree_prob(a5);
            (Segments { enabled, update_map, abs, quant, lf, probs: seq![p0, p1, p2] }, a6)
        } else {
            (
                Segments {
                    enabled,
                    update_map,
                    abs,
                    quant,
                    lf,
                    probs: Seq::new(3, |i: int| 255u8),
                },
                a3,
            )
        }
    } else {
        (
            Segments {
                enabled,
                update_map: false,
                abs: false,
                quant: Seq::new(4, |i: int| 0i32),
                lf: Seq::new(4, |i: int| 0i32),
                probs: Seq::new(3, |i: int| 255u8),
            },
            a1,
        )
    }
}

fn read_tree_prob(b: &mut Bool) -> (p: u8)
    requires
        old(b).wf(),
    ensures
        final(b).wf(),
        (p, final(b)@) == parse_tree_prob(old(b)@),
{
    proof {
        lemma2_to64();
    }
    if b.flag() {
        b.literal(8) as u8
    } else {
        255
    }
}

fn read_segments(b: &mut Bool) -> (s: SegmentHeader)
    requires
        old(b).wf(),
    ensures
        final(b).wf(),
        (s@, final(b)@) == parse_segments(old(b)@),
        segments_ok(s@),
{
    let ghost zero = Seq::new(4, |i: int| 0i32);
    let ghost full = Seq::new(3, |i: int| 255u8);
    let mut s = SegmentHeader {
        enabled: false,
        update_map: false,
        abs: false,
        quant: [0;4],
        lf: [0;4],
        probs: [255;3],
    };
    assert(s.quant@ =~= zero && s.lf@ =~= zero && s.probs@ =~= full);
    if b.flag() {
        s.enabled = true;
        s.update_map = b.flag();
        if b.flag() {
            s.abs = b.flag();
            s.quant = read_four(b, 7);
            s.lf = read_four(b, 6);
        }
        if s.update_map {
            let p0: u8 = read_tree_prob(b);
            let p1: u8 = read_tree_prob(b);
            let p2: u8 = read_tree_prob(b);
            s.probs = [p0, p1, p2];
            assert(s.probs@ =~= seq![p0, p1, p2]);
        }
    }
    s
}

/// The filter header, on top of the segment header.
pub open spec fn parse_filter(a: Arith, s: Segments) -> (Settings, Arith) {
    let (simple, a1) = bit(a, 128);
    let (level, a2) = literal(a1, 6);
    let (sharpness, a3) = literal(a2, 3);
    let (delta_enabled, a4) = bit(a3, 128);
    let (update, a5) = if delta_enabled {
        bit(a4, 128)
    } else {
        (false, a4)
    };
    let zero = Seq::new(4, |i: int| 0i32);
    let (ref_delta, a6) = if update {
        optionals(a5, 6, 4)
    } else {
        (zero, a5)
    };
    let (mode_delta, a7) = if update {
        optionals(a6, 6, 4)
    } else {
        (zero, a6)
    };
    (
        Settings {
            level: level as int,
            sharpness: sharpness as int,
            simple,
            delta_enabled,
            ref_delta,
            mode_delta,
            seg_enabled: s.enabled,
            seg_abs: s.abs,
            seg_lf: s.lf,
        },
        a7,
    )
}

fn read_filter(b: &mut Bool, s: &SegmentHeader) -> (lf: Lf)
    requires
        old(b).wf(),
        segments_ok(s@),
    ensures
        final(b).wf(),
        (lf@, final(b)@) == parse_filter(old(b)@, s@),
        settings_ok(lf@),
{
    proof {
        lemma2_to64();
    }
    let use_simple: bool = b.flag();
    let level: i32 = b.literal(6) as i32;
    let sharpness: i32 = b.literal(3) as i32;
    let delta_enabled: bool = b.flag();
    let mut lf = Lf {
        level,
        sharpness,
        use_simple,
        delta_enabled,
        ref_delta: [0;4],
        mode_delta: [0;4],
        seg_enabled: s.enabled,
        seg_abs: s.abs,
        seg_lf: s.lf,
    };
    let ghost zero = Seq::new(4, |i: int| 0i32);
    assert(lf.ref_delta@ =~= zero && lf.mode_delta@ =~= zero);
    if delta_enabled {
        if b.flag() {
            lf.ref_delta = read_four(b, 6);
            lf.mode_delta = read_four(b, 6);
        }
    }
    lf
}

// ── coefficient probabilities ───────────────────────────────────────────────

/// The first `n` coefficient probabilities, replaced where the stream says so.
pub open spec fn parse_probs(a: Arith, n: int) -> (Seq<u8>, Arith)
    decreases n,
{
    if n <= 0 {
        (Seq::empty(), a)
    } else {
        let (ps, a1) = parse_probs(a, n - 1);
        let (replace, a2) = bit(a1, update_probs()[n - 1]);
        if replace {
            let (v, a3) = literal(a2, 8);
            (ps.push(v as u8), a3)
        } else {
            (ps.push(default_probs()[n - 1]), a2)
        }
    }
}

fn read_probs(b: &mut Bool) -> (ps: Vec<u8>)
    requires
        old(b).wf(),
    ensures
        final(b).wf(),
        (ps@, final(b)@) == parse_probs(old(b)@, 1056),
        ps@.len() == 1056,
{
    proof {
        lemma2_to64();
    }
    let ghost a = b@;
    let mut ps: Vec<u8> = Vec::new();
    let mut i: usize = 0;
    while i < 1056
        invariant
            i <= 1056,
            pow2(8) == 256,
            b.wf(),
            ps@.len() == i,
            (ps@, b@) == parse_probs(a, i as int),
        decreases 1056 - i,
    {
        if b.get(update_prob(i)) != 0 {
            ps.push(b.literal(8) as u8);
        } else {
            ps.push(default_prob(i));
        }
        i = i + 1;
    }
    ps
}

// ── partitions ──────────────────────────────────────────────────────────────

/// A 24-bit number, low byte first.
pub open spec fn le24(d: Seq<u8>, i: int) -> nat {
    (d[i] + 256 * d[i + 1] + 65536 * d[i + 2]) as nat
}

/// The size of partition `i` of `num`: stored for all but the last, which takes
/// what is left from `off` on.
pub open spec fn partition_size(d: Seq<u8>, num: nat, i: nat, off: nat) -> int {
    if i + 1 < num {
        le24(d, 3 * i as int) as int
    } else {
        d.len() - off
    }
}

/// The first `n` coefficient partitions, which follow their sizes, and where
/// the next one starts.
pub open spec fn partitions_upto(d: Seq<u8>, num: nat, n: nat) -> Option<(Seq<Seq<u8>>, nat)>
    decreases n,
{
    if n == 0 {
        if d.len() < 3 * (num - 1) {
            None
        } else {
            Some((Seq::empty(), (3 * (num - 1)) as nat))
        }
    } else {
        match partitions_upto(d, num, (n - 1) as nat) {
            None => None,
            Some((ps, off)) => {
                let size = partition_size(d, num, (n - 1) as nat, off);
                if off + size > d.len() {
                    None
                } else {
                    Some((ps.push(d.subrange(off as int, off + size)), (off + size) as nat))
                }
            },
        }
    }
}

/// The coefficient partitions.
#[verifier::opaque]
pub open spec fn partitions(d: Seq<u8>, num: nat) -> Option<Seq<Seq<u8>>> {
    match partitions_upto(d, num, num) {
        None => None,
        Some((ps, _)) => Some(ps),
    }
}

proof fn lemma_partitions_fail(d: Seq<u8>, num: nat, a: nat, b: nat)
    requires
        a <= b,
        partitions_upto(d, num, a) is None,
    ensures
        partitions_upto(d, num, b) is None,
    decreases b,
{
    if a < b {
        lemma_partitions_fail(d, num, a, (b - 1) as nat);
    }
}

/// A decoder at the start of each partition.
pub fn split_partitions<'a>(d: &'a [u8], num: usize) -> (r: Option<Vec<Bool<'a>>>)
    requires
        1 <= num <= 8,
    ensures
        match partitions(d@, num as nat) {
            Some(ps) => {
                &&& r is Some
                &&& r->0@.len() == ps.len() == num
                &&& forall|i: int| 0 <= i < num ==> (#[trigger] r->0@[i]).wf()
                &&& forall|i: int|
                    0 <= i < num ==> (#[trigger] r->0@[i])@ == super::arith::start(ps[i])
            },
            None => r is None,
        },
{
    proof {
        reveal(partitions);
    }
    let sizes: usize = 3 * (num - 1);
    if d.len() < sizes {
        proof {
            lemma_partitions_fail(d@, num as nat, 0, num as nat);
        }
        return None;
    }
    let mut out: Vec<Bool<'a>> = Vec::new();
    let mut off: usize = sizes;
    let mut i: usize = 0;
    while i < num
        invariant
            i <= num <= 8,
            num >= 1,
            sizes == 3 * (num - 1),
            sizes <= off <= d@.len(),
            partitions_upto(d@, num as nat, i as nat) is Some,
            ({
                let (ps, o) = partitions_upto(d@, num as nat, i as nat)->0;
                &&& o == off
                &&& out@.len() == ps.len() == i
                &&& forall|k: int| 0 <= k < i ==> (#[trigger] out@[k]).wf()
                &&& forall|k: int|
                    0 <= k < i ==> (#[trigger] out@[k])@ == super::arith::start(ps[k])
            }),
        decreases num - i,
    {
        let size: usize = if i + 1 < num {
            d[3 * i] as usize + 256 * d[3 * i + 1] as usize + 65536 * d[3 * i + 2] as usize
        } else {
            d.len() - off
        };
        if d.len() - off < size {
            proof {
                reveal(partitions);
                lemma_partitions_fail(d@, num as nat, (i + 1) as nat, num as nat);
            }
            return None;
        }
        out.push(Bool::new(slice_subrange(d, off, off + size)));
        off = off + size;
        i = i + 1;
    }
    Some(out)
}

// ── the whole header ────────────────────────────────────────────────────────

/// What the first partition says before the macroblocks.
pub struct FrameHeader {
    pub seg: SegmentHeader,
    pub lf: Lf,
    pub num_parts: usize,
    pub quant: Quant,
    pub probs: Vec<u8>,
    pub skip_enabled: bool,
    pub skip_prob: u8,
}

/// What the first partition says before the macroblocks.
pub ghost struct Header {
    pub seg: Segments,
    pub lf: Settings,
    pub num_parts: nat,
    pub quant: Quant,
    pub probs: Seq<u8>,
    pub skip_enabled: bool,
    pub skip_prob: u8,
}

impl View for FrameHeader {
    type V = Header;

    open spec fn view(&self) -> Header {
        Header {
            seg: self.seg@,
            lf: self.lf@,
            num_parts: self.num_parts as nat,
            quant: self.quant,
            probs: self.probs@,
            skip_enabled: self.skip_enabled,
            skip_prob: self.skip_prob,
        }
    }
}

pub open spec fn header_ok(h: Header) -> bool {
    &&& segments_ok(h.seg)
    &&& settings_ok(h.lf)
    &&& 1 <= h.num_parts <= 8
    &&& quant_ok(h.quant)
    &&& h.probs.len() == 1056
}

#[verifier::opaque]
pub open spec fn parse_header(a: Arith) -> (Header, Arith) {
    let (_, a1) = literal(a, 2);
    let (seg, a2) = parse_segments(a1);
    let (lf, a3) = parse_filter(a2, seg);
    let (log_parts, a4) = literal(a3, 2);
    let (quant, a5) = parse_quant(a4);
    let (_, a6) = bit(a5, 128);
    let (probs, a7) = parse_probs(a6, 1056);
    let (skip_enabled, a8) = bit(a7, 128);
    let (skip_prob, a9) = if skip_enabled {
        literal(a8, 8)
    } else {
        (0, a8)
    };
    (
        Header {
            seg,
            lf,
            num_parts: pow2(log_parts),
            quant,
            probs,
            skip_enabled,
            skip_prob: skip_prob as u8,
        },
        a9,
    )
}

/// Read the header.
pub fn read_header(b: &mut Bool) -> (h: FrameHeader)
    requires
        old(b).wf(),
    ensures
        final(b).wf(),
        (h@, final(b)@) == parse_header(old(b)@),
        header_ok(h@),
{
    proof {
        lemma2_to64();
    }
    proof {
        reveal(parse_header);
    }
    let _reserved: u32 = b.literal(2);
    let seg: SegmentHeader = read_segments(b);
    let lf: Lf = read_filter(b, &seg);
    let log_parts: u32 = b.literal(2);
    let num_parts: usize = if log_parts == 0 {
        1
    } else if log_parts == 1 {
        2
    } else if log_parts == 2 {
        4
    } else {
        8
    };
    let quant: Quant = read_quant(b);
    let _refresh: bool = b.flag();
    let probs: Vec<u8> = read_probs(b);
    let skip_enabled: bool = b.flag();
    let skip_prob: u8 = if skip_enabled {
        b.literal(8) as u8
    } else {
        0
    };
    FrameHeader { seg, lf, num_parts, quant, probs, skip_enabled, skip_prob }
}

// ── where things lie ────────────────────────────────────────────────────────

/// The decoder `n` even bits on.
pub open spec fn at_bit(a: Arith, n: nat) -> Arith {
    literal(a, n).1
}

proof fn lemma_at_bit(a: Arith, m: nat, n: nat)
    ensures
        at_bit(at_bit(a, m), n) == at_bit(a, m + n),
    decreases n,
{
    if n > 0 {
        lemma_at_bit(a, m, (n - 1) as nat);
    }
}

proof fn lemma_one_bit(a: Arith, n: nat)
    ensures
        bit(at_bit(a, n), 128).1 == at_bit(a, n + 1),
{
}

/// The filter settings lie one behind the other: the kind of filter in the first
/// bit, the level in the next six, the sharpness in three, then a bit that says
/// whether adjustments are made and one that says whether they follow. Those of
/// frames come before those of modes.
pub proof fn law_where_filter_settings_lie(a: Arith, s: Segments)
    ensures
        ({
            let f = parse_filter(a, s).0;
            let follow = f.delta_enabled && bit(at_bit(a, 11), 128).0;
            let zero = Seq::new(4, |i: int| 0i32);
            &&& f.simple == bit(a, 128).0
            &&& f.level == literal(at_bit(a, 1), 6).0
            &&& f.sharpness == literal(at_bit(a, 7), 3).0
            &&& f.delta_enabled == bit(at_bit(a, 10), 128).0
            &&& follow ==> f.ref_delta == optionals(at_bit(a, 12), 6, 4).0
            &&& follow ==> f.mode_delta == optionals(optionals(at_bit(a, 12), 6, 4).1, 6, 4).0
            &&& !follow ==> f.ref_delta == zero && f.mode_delta == zero
            &&& f.seg_enabled == s.enabled && f.seg_abs == s.abs && f.seg_lf == s.lf
        }),
{
    assert(at_bit(a, 0) == a);
    lemma_one_bit(a, 0);
    lemma_at_bit(a, 1, 6);
    lemma_at_bit(a, 7, 3);
    lemma_one_bit(a, 10);
    lemma_one_bit(a, 11);
}

/// The quantizer index lies in the first seven bits, and the five offsets follow
/// it: of luma, then two of averages, then two of colour.
pub proof fn law_where_quantizers_lie(a: Arith)
    ensures
        ({
            let q = parse_quant(a).0;
            let five = optionals(at_bit(a, 7), 4, 5).0;
            &&& q.index == literal(a, 7).0 as i32
            &&& q.y1_dc == five[0]
            &&& q.y2_dc == five[1]
            &&& q.y2_ac == five[2]
            &&& q.uv_dc == five[3]
            &&& q.uv_ac == five[4]
            &&& parse_quant(a).1 == optionals(at_bit(a, 7), 4, 5).1
        }),
{
    reveal_with_fuel(optionals, 6);
}

/// Segments lie behind three bits that say whether there are any, whether
/// macroblocks name theirs and whether their values follow. Of those the first
/// bit says whether they are absolute; the quantizers come before the filter
/// levels, and both before the probabilities.
pub proof fn law_where_segments_lie(a: Arith)
    ensures
        ({
            let (s, end) = parse_segments(a);
            let values = optionals(at_bit(a, 4), 7, 4);
            let levels = optionals(values.1, 6, 4);
            let follow = bit(at_bit(a, 2), 128).0;
            let behind = if follow {
                levels.1
            } else {
                at_bit(a, 3)
            };
            &&& s.enabled == bit(a, 128).0
            &&& !s.enabled ==> end == at_bit(a, 1)
            &&& s.enabled ==> s.update_map == bit(at_bit(a, 1), 128).0
            &&& s.enabled && follow ==> s.abs == bit(at_bit(a, 3), 128).0 && s.quant == values.0
                && s.lf == levels.0
            &&& s.enabled && !s.update_map ==> end == behind
            &&& s.enabled && s.update_map ==> {
                let first = parse_tree_prob(behind);
                let second = parse_tree_prob(first.1);
                let third = parse_tree_prob(second.1);
                s.probs == seq![first.0, second.0, third.0] && end == third.1
            }
        }),
{
    assert(at_bit(a, 0) == a);
    lemma_one_bit(a, 0);
    lemma_one_bit(a, 1);
    lemma_one_bit(a, 2);
    lemma_one_bit(a, 3);
}

/// The parts of a header follow each other: two bits that are not used, the
/// segments, the filter, two bits for the number of partitions, the quantizers,
/// a bit that is not used, the probabilities of coefficients, and whether
/// macroblocks can be skipped, with the probability of that. The number of
/// partitions is the power of two that its bits give.
pub proof fn law_where_headers_lie(a: Arith)
    ensures
        ({
            let (h, end) = parse_header(a);
            let seg = parse_segments(at_bit(a, 2));
            let lf = parse_filter(seg.1, seg.0);
            let parts = literal(lf.1, 2);
            let quant = parse_quant(parts.1);
            let probs = parse_probs(at_bit(quant.1, 1), 1056);
            let skip = bit(probs.1, 128);
            &&& h.seg == seg.0
            &&& h.lf == lf.0
            &&& parts.0 == 0 ==> h.num_parts == 1
            &&& parts.0 == 1 ==> h.num_parts == 2
            &&& parts.0 == 2 ==> h.num_parts == 4
            &&& parts.0 == 3 ==> h.num_parts == 8
            &&& h.quant == quant.0
            &&& h.probs == probs.0
            &&& h.skip_enabled == skip.0
            &&& skip.0 ==> h.skip_prob == literal(skip.1, 8).0 as u8 && end == literal(skip.1, 8).1
            &&& !skip.0 ==> end == skip.1
        }),
{
    reveal(parse_header);
    lemma2_to64();
    let quant_end = parse_quant(
        literal(
            parse_filter(parse_segments(at_bit(a, 2)).1, parse_segments(at_bit(a, 2)).0).1,
            2,
        ).1,
    ).1;
    assert(at_bit(quant_end, 0) == quant_end);
    lemma_one_bit(quant_end, 0);
}

/// A number that is given is its magnitude, high bit first, and then its sign; it
/// takes as many bits and one. One that is not given is zero and takes a bit.
pub proof fn law_how_offsets_are_written(a: Arith, n: nat)
    ensures
        ({
            let (v, end) = optional(a, n);
            let given = bit(a, 128).0;
            let m = literal(at_bit(a, 1), n).0 as int;
            let minus = bit(at_bit(a, n + 1), 128).0;
            &&& !given ==> v == 0 && end == at_bit(a, 1)
            &&& given && !minus ==> v == m
            &&& given && minus ==> v == -m
            &&& given ==> end == at_bit(a, n + 2)
        }),
{
    assert(at_bit(a, 0) == a);
    lemma_one_bit(a, 0);
    lemma_at_bit(a, 1, n);
    lemma_one_bit(a, n + 1);
}

proof fn lemma_partitions_lie(d: Seq<u8>, num: nat, n: nat)
    requires
        1 <= num,
        n <= num,
        partitions_upto(d, num, n) is Some,
    ensures
        ({
            let (ps, off) = partitions_upto(d, num, n)->0;
            &&& ps.len() == n
            &&& 3 * (num - 1) <= off <= d.len()
            &&& d.subrange(3 * (num - 1), off as int) == ps.flatten()
            &&& forall|i: int|
                0 <= i < n && i < num - 1 ==> (#[trigger] ps[i]).len() == d[3 * i] + 256 * d[3 * i
                    + 1] + 65536 * d[3 * i + 2]
            &&& n == num ==> off == d.len()
        }),
    decreases n,
{
    let (ps, off) = partitions_upto(d, num, n)->0;
    let from = 3 * (num - 1);
    if n == 0 {
        assert(ps.flatten() =~= Seq::empty());
        assert(d.subrange(from, off as int) =~= Seq::empty());
    } else {
        lemma_partitions_lie(d, num, (n - 1) as nat);
        let (qs, mid) = partitions_upto(d, num, (n - 1) as nat)->0;
        let part = d.subrange(mid as int, off as int);
        assert(ps == qs.push(part));
        qs.lemma_flatten_push(part);
        assert(d.subrange(from, off as int) =~= d.subrange(from, mid as int) + part);
    }
}

/// Partitions lie one behind the other, behind their sizes, and take all of the
/// data: each but the last is as long as its three bytes say, low byte first,
/// and together they are what follows the sizes.
pub proof fn law_partitions_take_all(d: Seq<u8>, num: nat)
    requires
        1 <= num,
        partitions(d, num) is Some,
    ensures
        ({
            let ps = partitions(d, num)->0;
            &&& ps.len() == num
            &&& ps.flatten() == d.skip(3 * (num - 1))
            &&& forall|i: int|
                0 <= i < num - 1 ==> (#[trigger] ps[i]).len() == d[3 * i] + 256 * d[3 * i + 1]
                    + 65536 * d[3 * i + 2]
        }),
{
    reveal(partitions);
    lemma_partitions_lie(d, num, num);
    assert(d.subrange(3 * (num - 1), d.len() as int) =~= d.skip(3 * (num - 1)));
}

} // verus!
