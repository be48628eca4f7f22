//! The prediction modes of macroblocks.
use super::arith::{bit, leaf_from, Arith, Bool};
use super::predict::{
    B_DC_PRED, B_HE_PRED, B_PRED, B_TM_PRED, B_VE_PRED, DC_PRED, H_PRED, TM_PRED, V_PRED,
};
use super::tables::{bmode_prob, bmode_probs};
use vstd::prelude::*;

verus! {

/// The tree of luma modes; entries that are not positive are negated modes.
pub const KF_YMODE_TREE: [i8; 8] = [-4, 2, 4, 6, 0, -1, -2, -3];

pub const KF_YMODE_PROB: [u8; 4] = [145, 156, 163, 128];

/// The tree of chroma modes.
pub const KF_UV_MODE_TREE: [i8; 6] = [0, 2, -1, 4, -2, -3];

pub const KF_UV_MODE_PROB: [u8; 3] = [142, 114, 183];

/// The tree of subblock modes.
pub const BMODE_TREE: [i8; 18] = [
    0, 2, -1, 4, -2, 6, 8, 12, -3, 10, -5, -6, -4, 14, -7, 16, -8, -9,
];

/// What the stream says of a macroblock.
#[derive(Clone, Copy)]
pub struct Mb {
    pub y_mode: i32,
    pub uv_mode: i32,
    pub b_modes: [u8; 16],
    pub skip: bool,
    pub segment: usize,
    /// Whether any block has coefficients.
    pub eob: bool,
}

/// What is known of a macroblock.
pub ghost struct Macro {
    pub y_mode: int,
    pub uv_mode: int,
    pub b_modes: Seq<u8>,
    pub skip: bool,
    pub segment: int,
    pub eob: bool,
}

impl View for Mb {
    type V = Macro;

    open spec fn view(&self) -> Macro {
        Macro {
            y_mode: self.y_mode as int,
            uv_mode: self.uv_mode as int,
            b_modes: self.b_modes@,
            skip: self.skip,
            segment: self.segment as int,
            eob: self.eob,
        }
    }
}

impl Mb {
    /// A macroblock of which nothing is known.
    pub fn blank() -> (m: Mb)
        ensures
            m.y_mode == 0,
            m.uv_mode == 0,
            m.b_modes@ == Seq::new(16, |i: int| 0u8),
            !m.skip,
            m.segment == 0,
            !m.eob,
    {
        let m = Mb {
            y_mode: 0,
            uv_mode: 0,
            b_modes: [0;16],
            skip: false,
            segment: 0,
            eob: false,
        };
        assert(m.b_modes@ =~= Seq::new(16, |i: int| 0u8));
        m
    }
}

/// The segment of a macroblock.
pub open spec fn segment_id(a: Arith, probs: Seq<u8>) -> (nat, Arith) {
    let (high, a1) = bit(a, probs[0]);
    let (low, a2) = bit(a1, if high {
        probs[2]
    } else {
        probs[1]
    });
    ((if high {
        2nat
    } else {
        0nat
    }) + (if low {
        1nat
    } else {
        0nat
    }), a2)
}

/// Read the segment of a macroblock.
pub fn read_segment_id(b: &mut Bool, probs: &[u8; 3]) -> (s: usize)
    requires
        old(b).wf(),
    ensures
        final(b).wf(),
        s == segment_id(old(b)@, probs@).0,
        final(b)@ == segment_id(old(b)@, probs@).1,
        s < 4,
{
    if b.get(probs[0]) != 0 {
        if b.get(probs[2]) != 0 {
            3
        } else {
            2
        }
    } else if b.get(probs[1]) != 0 {
        1
    } else {
        0
    }
}

// ── modes ───────────────────────────────────────────────────────────────────

/// The mode above subblock `i`: of the macroblock above, or of this one.
pub open spec fn mode_above(above: Seq<u8>, modes: Seq<u8>, i: int) -> u8 {
    if i < 4 {
        above[i]
    } else {
        modes[i - 4]
    }
}

/// The mode to the left of subblock `i`.
pub open spec fn mode_left(left: Seq<u8>, modes: Seq<u8>, i: int) -> u8 {
    if i % 4 == 0 {
        left[i / 4]
    } else {
        modes[i - 1]
    }
}

/// The probabilities of the subblock tree between two neighbour modes.
pub open spec fn bmode_row(above: u8, left: u8) -> Seq<u8> {
    Seq::new(9, |k: int| bmode_probs()[(above * 10 + left) * 9 + k])
}

/// The first `n` subblock modes.
pub open spec fn submodes(a: Arith, left: Seq<u8>, above: Seq<u8>, n: int) -> (Seq<u8>, Arith)
    decreases n,
{
    if n <= 0 {
        (Seq::empty(), a)
    } else {
        let (m, a1) = submodes(a, left, above, n - 1);
        let row = bmode_row(mode_above(above, m, n - 1), mode_left(left, m, n - 1));
        let (v, a2) = leaf_from(a1, BMODE_TREE@, row, 0);
        (m.push(v as u8), a2)
    }
}

/// The subblock mode that a whole-block mode stands for among its neighbours.
pub open spec fn as_submode(y_mode: int) -> u8 {
    if y_mode == DC_PRED {
        B_DC_PRED
    } else if y_mode == V_PRED {
        B_VE_PRED
    } else if y_mode == H_PRED {
        B_HE_PRED
    } else {
        B_TM_PRED
    }
}

/// `s` with four entries from `i` on replaced.
pub open spec fn replaced(s: Seq<u8>, i: int, v: Seq<u8>) -> Seq<u8> {
    Seq::new(s.len(), |k: int| if i <= k < i + 4 {
        v[k - i]
    } else {
        s[k]
    })
}

/// The modes of a macroblock, and those its neighbours will see.
pub ghost struct Modes {
    pub y_mode: int,
    pub uv_mode: int,
    pub b_modes: Seq<u8>,
    pub left: Seq<u8>,
    pub above: Seq<u8>,
}

/// The modes of a macroblock between the modes to its left and above it.
pub open spec fn parse_modes(a: Arith, left: Seq<u8>, above: Seq<u8>) -> (Modes, Arith) {
    let (y_mode, a1) = leaf_from(a, KF_YMODE_TREE@, KF_YMODE_PROB@, 0);
    if y_mode == B_PRED {
        let (m, a2) = submodes(a1, left, above, 16);
        let (uv_mode, a3) = leaf_from(a2, KF_UV_MODE_TREE@, KF_UV_MODE_PROB@, 0);
        (
            Modes {
                y_mode,
                uv_mode,
                b_modes: m,
                left: Seq::new(4, |k: int| m[4 * k + 3]),
                above: Seq::new(4, |k: int| m[12 + k]),
            },
            a3,
        )
    } else {
        let (uv_mode, a2) = leaf_from(a1, KF_UV_MODE_TREE@, KF_UV_MODE_PROB@, 0);
        let same = Seq::new(4, |k: int| as_submode(y_mode));
        (
            Modes {
                y_mode,
                uv_mode,
                b_modes: Seq::new(16, |i: int| 0u8),
                left: same,
                above: same,
            },
            a2,
        )
    }
}

proof fn lemma_leaf_bound(a: Arith, tree: Seq<i8>, probs: Seq<u8>, i: int, m: int)
    requires
        0 <= m,
        forall|k: int| 0 <= k < tree.len() ==> #[trigger] tree[k] >= -m,
    ensures
        0 <= leaf_from(a, tree, probs, i).0 <= m,
    decreases tree.len() - i,
{
    if 0 <= i && i + 1 < tree.len() {
        let (b, a1) = bit(a, probs[i / 2]);
        let next = tree[if b {
            i + 1
        } else {
            i
        }] as int;
        if i < next < tree.len() {
            lemma_leaf_bound(a1, tree, probs, next, m);
        }
    }
}

fn bmode_probs_at(above: u8, left: u8) -> (row: Vec<u8>)
    requires
        above < 10,
        left < 10,
    ensures
        row@ == bmode_row(above, left),
{
    let mut row: Vec<u8> = Vec::new();
    let base: usize = (above as usize * 10 + left as usize) * 9;
    let mut k: usize = 0;
    while k < 9
        invariant
            k <= 9,
            above < 10,
            left < 10,
            base == (above * 10 + left) * 9,
            row@.len() == k,
            forall|j: int| 0 <= j < k ==> #[trigger] row@[j] == bmode_row(above, left)[j],
        decreases 9 - k,
    {
        row.push(bmode_prob(base + k));
        k = k + 1;
    }
    assert(row@ =~= bmode_row(above, left));
    row
}

/// Every mode is one of the subblock modes.
pub open spec fn submodes_ok(m: Seq<u8>) -> bool {
    forall|k: int| 0 <= k < m.len() ==> #[trigger] m[k] < 10
}

fn read_submodes(b: &mut Bool, left: &[u8; 4], above: &Vec<u8>, col: usize) -> (m: [u8; 16])
    requires
        old(b).wf(),
        submodes_ok(left@),
        submodes_ok(above@),
        4 * col + 4 <= above@.len(),
    ensures
        final(b).wf(),
        (m@, final(b)@) == submodes(
            old(b)@,
            left@,
            above@.subrange(4 * col, 4 * col + 4),
            16,
        ),
        submodes_ok(m@),
{
    let ghost a = b@;
    let ghost up = above@.subrange(4 * col, 4 * col + 4);
    let len: usize = above.len();
    let mut m: [u8; 16] = [0;16];
    let mut i: usize = 0;
    proof {
        assert(m@.subrange(0, 0) =~= Seq::empty());
    }
    while i < 16
        invariant
            i <= 16,
            b.wf(),
            len == above@.len(),
            submodes_ok(left@),
            submodes_ok(above@),
            submodes_ok(m@.subrange(0, i as int)),
            4 * col + 4 <= above@.len(),
            up == above@.subrange(4 * col, 4 * col + 4),
            (m@.subrange(0, i as int), b@) == submodes(a, left@, up, i as int),
        decreases 16 - i,
    {
        let ghost done = m@.subrange(0, i as int);
        let va: u8 = if i < 4 {
            above[4 * col + i]
        } else {
            m[i - 4]
        };
        let vl: u8 = if i % 4 == 0 {
            left[i / 4]
        } else {
            m[i - 1]
        };
        proof {
            if i < 4 {
                assert(up[i as int] == va);
            } else {
                assert(done[i - 4] == va);
            }
            if i % 4 != 0 {
                assert(done[i - 1] == vl);
            }
        }
        let row: Vec<u8> = bmode_probs_at(va, vl);
        proof {
            lemma_leaf_bound(b@, BMODE_TREE@, row@, 0, 9);
        }
        let v: i32 = b.tree(BMODE_TREE.as_slice(), row.as_slice());
        m[i] = v as u8;
        assert(m@.subrange(0, i + 1) =~= done.push(v as u8));
        i = i + 1;
    }
    assert(m@.subrange(0, 16) =~= m@);
    m
}

/// Read the modes of a macroblock in column `col`, and leave those that its
/// neighbours will see.
pub fn read_kf_modes(
    b: &mut Bool,
    mb: &mut Mb,
    left: &mut [u8; 4],
    above: &mut Vec<u8>,
    col: usize,
)
    requires
        old(b).wf(),
        submodes_ok(old(left)@),
        submodes_ok(old(above)@),
        4 * col + 4 <= old(above)@.len(),
        old(mb).b_modes@ == Seq::new(16, |i: int| 0u8),
    ensures
        final(b).wf(),
        ({
            let up = old(above)@.subrange(4 * col, 4 * col + 4);
            let (m, a) = parse_modes(old(b)@, old(left)@, up);
            &&& final(mb).y_mode == m.y_mode
            &&& final(mb).uv_mode == m.uv_mode
            &&& final(mb).b_modes@ == m.b_modes
            &&& final(mb).skip == old(mb).skip
            &&& final(mb).segment == old(mb).segment
            &&& final(mb).eob == old(mb).eob
            &&& final(left)@ == m.left
            &&& final(above)@ == replaced(old(above)@, 4 * col, m.above)
            &&& final(b)@ == a
        }),
        submodes_ok(final(left)@),
        submodes_ok(final(above)@),
        submodes_ok(final(mb).b_modes@),
        0 <= final(mb).y_mode <= 4,
        0 <= final(mb).uv_mode <= 3,
{
    let ghost up = above@.subrange(4 * col, 4 * col + 4);
    let ghost above0 = above@;
    let len: usize = above.len();
    proof {
        lemma_leaf_bound(b@, KF_YMODE_TREE@, KF_YMODE_PROB@, 0, 4);
    }
    let y_mode: i32 = b.tree(KF_YMODE_TREE.as_slice(), KF_YMODE_PROB.as_slice());
    mb.y_mode = y_mode;
    let mut new_above: [u8; 4] = [0;4];
    if y_mode == B_PRED {
        let m: [u8; 16] = read_submodes(b, left, above, col);
        mb.b_modes = m;
        *left = [m[3], m[7], m[11], m[15]];
        new_above = [m[12], m[13], m[14], m[15]];
        proof {
            assert(left@ =~= Seq::new(4, |k: int| m@[4 * k + 3]));
            assert(new_above@ =~= Seq::new(4, |k: int| m@[12 + k]));
        }
    } else {
        let bm: u8 = if y_mode == DC_PRED {
            B_DC_PRED
        } else if y_mode == V_PRED {
            B_VE_PRED
        } else if y_mode == H_PRED {
            B_HE_PRED
        } else {
            B_TM_PRED
        };
        *left = [bm, bm, bm, bm];
        new_above = [bm, bm, bm, bm];
        proof {
            assert(left@ =~= Seq::new(4, |k: int| as_submode(y_mode as int)));
            assert(new_above@ =~= Seq::new(4, |k: int| as_submode(y_mode as int)));
        }
    }
    above.set(4 * col, new_above[0]);
    above.set(4 * col + 1, new_above[1]);
    above.set(4 * col + 2, new_above[2]);
    above.set(4 * col + 3, new_above[3]);
    assert(above@ =~= replaced(above0, 4 * col, new_above@));
    proof {
        lemma_leaf_bound(b@, KF_UV_MODE_TREE@, KF_UV_MODE_PROB@, 0, 3);
    }
    mb.uv_mode = b.tree(KF_UV_MODE_TREE.as_slice(), KF_UV_MODE_PROB.as_slice());
}

/// Neighbours see the modes along the edge that they touch: the one to the right
/// those of the last column of subblocks, the one below those of the last row. A
/// macroblock predicted whole looks to both as if each of its subblocks went the
/// same way: down, across, by the slope, or by the mean.
pub proof fn law_neighbours_see_the_near_edge(a: Arith, left: Seq<u8>, above: Seq<u8>, k: int)
    requires
        0 <= k < 4,
    ensures
        ({
            let m = parse_modes(a, left, above).0;
            &&& m.left.len() == 4 && m.above.len() == 4
            &&& m.y_mode == B_PRED ==> m.left[k] == m.b_modes[4 * k + 3] && m.above[k]
                == m.b_modes[12 + k]
            &&& m.y_mode == V_PRED ==> m.left[k] == B_VE_PRED && m.above[k] == B_VE_PRED
            &&& m.y_mode == H_PRED ==> m.left[k] == B_HE_PRED && m.above[k] == B_HE_PRED
            &&& m.y_mode == DC_PRED ==> m.left[k] == B_DC_PRED && m.above[k] == B_DC_PRED
            &&& m.y_mode == TM_PRED ==> m.left[k] == B_TM_PRED && m.above[k] == B_TM_PRED
        }),
{
}

/// A subblock is read in the light of the one above it and the one to its left,
/// in its own macroblock or, at its edges, in the next one over.
pub proof fn law_subblocks_look_up_and_left(
    left: Seq<u8>,
    above: Seq<u8>,
    modes: Seq<u8>,
    row: int,
    col: int,
)
    requires
        0 <= row < 4,
        0 <= col < 4,
    ensures
        row == 0 ==> mode_above(above, modes, 4 * row + col) == above[col],
        row > 0 ==> mode_above(above, modes, 4 * row + col) == modes[4 * (row - 1) + col],
        col == 0 ==> mode_left(left, modes, 4 * row + col) == left[row],
        col > 0 ==> mode_left(left, modes, 4 * row + col) == modes[4 * row + (col - 1)],
{
}

} // verus!
