//! Pixels: images, clips and the edges of polygons.
use vstd::prelude::*;

verus! {

// ── images ──────────────────────────────────────────────────────────────────

/// A decoded image: four bytes per pixel, row by row from the top.
#[derive(Debug, Clone)]
pub struct RenderImage {
    pub width: u32,
    pub height: u32,
    pub rgba: Vec<u8>,
    /// The image is a stencil: the fill colour is painted through it.
    pub stencil: bool,
}

impl RenderImage {
    /// The image holds all its pixels.
    pub open spec fn wf(&self) -> bool {
        self.rgba@.len() == self.width * self.height * 4
    }

    /// The colour and the alpha that a pixel paints.
    pub fn texel(&self, col: u32, row: u32, fill: [u8; 3]) -> (r: ([u8; 3], u8))
        requires
            self.wf(),
            col < self.width,
            row < self.height,
        ensures
            ({
                let at = (row * self.width + col) * 4;
                &&& r.1 == self.rgba@[at + 3]
                &&& self.stencil ==> r.0 == fill
                &&& !self.stencil ==> r.0@ == seq![
                    self.rgba@[at],
                    self.rgba@[at + 1],
                    self.rgba@[at + 2],
                ]
            }),
    {
        let ghost w = self.width as int;
        let ghost h = self.height as int;
        let len: usize = self.rgba.len();
        assert(row * w + col < w * h && 0 <= row * w) by (nonlinear_arith)
            requires
                0 <= row < h,
                0 <= col < w,
        ;
        let at: usize = (row as usize * self.width as usize + col as usize) * 4;
        let alpha: u8 = self.rgba[at + 3];
        if self.stencil {
            (fill, alpha)
        } else {
            let color: [u8; 3] = [self.rgba[at], self.rgba[at + 1], self.rgba[at + 2]];
            assert(color@ =~= seq![self.rgba@[at as int], self.rgba@[at + 1], self.rgba@[at + 2]]);
            (color, alpha)
        }
    }
}

// ── clips ───────────────────────────────────────────────────────────────────

/// A box holds every pixel that a mask admits among the first `n`, and touches
/// one with each of its sides.
pub open spec fn bounds(
    mask: Seq<bool>,
    width: int,
    n: int,
    b: (int, int, int, int),
) -> bool {
    &&& forall|k: int|
        0 <= k < n && #[trigger] mask[k] ==> b.0 <= k % width < b.2 && b.1 <= k / width < b.3
    &&& exists|k: int| 0 <= k < n && #[trigger] mask[k] && k % width == b.0
    &&& exists|k: int| 0 <= k < n && #[trigger] mask[k] && k / width == b.1
    &&& exists|k: int| 0 <= k < n && #[trigger] mask[k] && k % width + 1 == b.2
    &&& exists|k: int| 0 <= k < n && #[trigger] mask[k] && k / width + 1 == b.3
}

/// No pixel is admitted.
pub open spec fn admits_none(mask: Seq<bool>, n: int) -> bool {
    forall|k: int| 0 <= k < n ==> !#[trigger] mask[k]
}

/// The pixels that a clip admits, as a box that is open at its far sides; the
/// whole page without a clip, or where the clip admits nothing.
pub fn clip_bounds(clip: Option<&Vec<bool>>, width: u32, height: u32) -> (r: (i32, i32, i32, i32))
    requires
        width <= i32::MAX,
        height <= i32::MAX,
        clip matches Some(m) ==> m@.len() == width * height,
    ensures
        match clip {
            None => r == (0i32, 0i32, width as i32, height as i32),
            Some(m) => if admits_none(m@, m@.len() as int) {
                r == (0i32, 0i32, width as i32, height as i32)
            } else {
                bounds(
                    m@,
                    width as int,
                    m@.len() as int,
                    (r.0 as int, r.1 as int, r.2 as int, r.3 as int),
                )
            },
        },
{
    let mask: &Vec<bool> = match clip {
        None => {
            return (0, 0, width as i32, height as i32);
        },
        Some(m) => m,
    };
    let mut b: Option<(i32, i32, i32, i32)> = None;
    let len: usize = mask.len();
    let mut k: usize = 0;
    let mut x: u32 = 0;
    let mut y: u32 = 0;
    while k < len
        invariant
            k <= len,
            len == mask@.len(),
            len == width * height,
            width <= i32::MAX,
            height <= i32::MAX,
            k < len ==> x < width && y < height,
            k == y * width + x,
            x <= width,
            match b {
                None => admits_none(mask@, k as int),
                Some(c) => bounds(
                    mask@,
                    width as int,
                    k as int,
                    (c.0 as int, c.1 as int, c.2 as int, c.3 as int),
                ) && 0 <= c.0 && 0 <= c.1 && c.2 <= width && c.3 <= height,
            },
        decreases len - k,
    {
        let ghost w = width as int;
        let ghost kk = k as int;
        let ghost old_b = b;
        proof {
            vstd::arithmetic::div_mod::lemma_fundamental_div_mod_converse(
                kk,
                w,
                y as int,
                x as int,
            );
            assert(kk / w == y && kk % w == x);
        }
        if mask[k] {
            assert(mask@[kk]);
            let (xi, yi): (i32, i32) = (x as i32, y as i32);
            b = match b {
                None => Some((xi, yi, xi + 1, yi + 1)),
                Some(c) => Some(
                    (
                        if xi < c.0 {
                            xi
                        } else {
                            c.0
                        },
                        if yi < c.1 {
                            yi
                        } else {
                            c.1
                        },
                        if xi + 1 > c.2 {
                            xi + 1
                        } else {
                            c.2
                        },
                        if yi + 1 > c.3 {
                            yi + 1
                        } else {
                            c.3
                        },
                    ),
                ),
            };
            proof {
                let c = b->0;
                let d = (c.0 as int, c.1 as int, c.2 as int, c.3 as int);
                if let Some(o) = old_b {
                    let e = (o.0 as int, o.1 as int, o.2 as int, o.3 as int);
                    assert(bounds(mask@, w, kk, e));
                    let k0 = choose|j: int| 0 <= j < kk && #[trigger] mask@[j] && j % w == e.0;
                    let k1 = choose|j: int| 0 <= j < kk && #[trigger] mask@[j] && j / w == e.1;
                    let k2 = choose|j: int| 0 <= j < kk && #[trigger] mask@[j] && j % w + 1 == e.2;
                    let k3 = choose|j: int| 0 <= j < kk && #[trigger] mask@[j] && j / w + 1 == e.3;
                    assert(mask@[k0] && mask@[k1] && mask@[k2] && mask@[k3]);
                }
                assert(bounds(mask@, w, kk + 1, d));
            }
        } else {
            proof {
                if let Some(o) = old_b {
                    let e = (o.0 as int, o.1 as int, o.2 as int, o.3 as int);
                    assert(bounds(mask@, w, kk + 1, e));
                }
            }
        }
        k = k + 1;
        x = x + 1;
        if x == width && k < len {
            assert(y + 1 < height) by (nonlinear_arith)
                requires
                    k == y * width + width,
                    k < width * height,
                    width > 0,
            ;
            assert(k == (y + 1) * width) by (nonlinear_arith)
                requires
                    k == y * width + width,
            ;
            x = 0;
            y = y + 1;
        }
    }
    match b {
        None => (0, 0, width as i32, height as i32),
        Some(c) => c,
    }
}

// ── polygons ────────────────────────────────────────────────────────────────

/// The edges of a closed polygon of `n` points, by their ends; a point has
/// none.
pub open spec fn closed_edges(n: nat) -> Seq<(usize, usize)> {
    if n < 2 {
        Seq::empty()
    } else {
        Seq::new(
            n,
            |i: int|
                (
                    i as usize,
                    if i + 1 == n {
                        0usize
                    } else {
                        (i + 1) as usize
                    },
                ),
        )
    }
}

/// The edges of a closed polygon, by their ends.
pub fn polygon_edges(n: usize) -> (r: Vec<(usize, usize)>)
    ensures
        r@ == closed_edges(n as nat),
{
    let mut r: Vec<(usize, usize)> = Vec::new();
    if n >= 2 {
        let mut i: usize = 0;
        while i < n
            invariant
                i <= n,
                n >= 2,
                r@.len() == i,
                forall|k: int| 0 <= k < i ==> r@[k] == closed_edges(n as nat)[k],
            decreases n - i,
        {
            let next: usize = if i == n - 1 {
                0
            } else {
                i + 1
            };
            r.push((i, next));
            i = i + 1;
        }
    }
    assert(r@ =~= closed_edges(n as nat));
    r
}

/// Every point of a polygon starts one edge and ends one: the edges close.
pub proof fn law_polygon_closes(n: nat, i: int)
    requires
        2 <= n <= usize::MAX,
        0 <= i < n,
    ensures
        closed_edges(n)[i].0 == i,
        closed_edges(n)[i].1 == closed_edges(n)[if i + 1 == n {
            0
        } else {
            i + 1
        }].0,
{
}

} // verus!
