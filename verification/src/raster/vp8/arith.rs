//! The boolean entropy decoder: bits of given probability out of a byte string.
use vstd::prelude::*;

verus! {

/// The decoder's registers, and the bytes not taken in yet. Past the end of the
/// data it takes in zero bytes.
pub ghost struct Arith {
    pub rest: Seq<u8>,
    pub range: nat,
    pub value: u32,
    pub count: nat,
}

pub open spec fn byte_or_zero(d: Seq<u8>, i: int) -> u8 {
    if 0 <= i < d.len() {
        d[i]
    } else {
        0
    }
}

/// What is left of a byte string after `n` bytes.
pub open spec fn after(d: Seq<u8>, n: nat) -> Seq<u8> {
    if n <= d.len() {
        d.skip(n as int)
    } else {
        Seq::empty()
    }
}

/// The decoder at the start of a byte string.
pub open spec fn start(d: Seq<u8>) -> Arith {
    Arith {
        rest: after(d, 2),
        range: 255,
        value: (byte_or_zero(d, 0) * 256 + byte_or_zero(d, 1)) as u32,
        count: 0,
    }
}

/// Shift the registers by one bit, taking in a byte after every eighth.
pub open spec fn shifted(a: Arith) -> Arith {
    if a.count >= 7 {
        Arith {
            rest: after(a.rest, 1),
            range: 2 * a.range,
            value: (a.value << 1u32) | (byte_or_zero(a.rest, 0) as u32),
            count: 0,
        }
    } else {
        Arith { rest: a.rest, range: 2 * a.range, value: a.value << 1u32, count: a.count + 1 }
    }
}

/// Shift until the range has its high bit set.
pub open spec fn normalized(a: Arith) -> Arith
    decreases 256 - a.range,
{
    if a.range == 0 || a.range >= 128 {
        a
    } else {
        normalized(shifted(a))
    }
}

/// The part of the range that stands for a zero bit of this probability.
pub open spec fn split_of(range: nat, prob: nat) -> nat {
    (1 + ((range - 1) * prob) / 256) as nat
}

/// One bit that is zero with probability `prob / 256`.
pub open spec fn bit(a: Arith, prob: u8) -> (bool, Arith) {
    let split = split_of(a.range, prob as nat);
    if a.value >= split * 256 {
        (
            true,
            normalized(
                Arith {
                    range: (a.range - split) as nat,
                    value: (a.value - split * 256) as u32,
                    ..a
                },
            ),
        )
    } else {
        (false, normalized(Arith { range: split, ..a }))
    }
}

/// An `n`-bit number of even bits, high bit first.
pub open spec fn literal(a: Arith, n: nat) -> (nat, Arith)
    decreases n,
{
    if n == 0 {
        (0, a)
    } else {
        let (v, a1) = literal(a, (n - 1) as nat);
        let (b, a2) = bit(a1, 128);
        (2 * v + (if b {
            1nat
        } else {
            0nat
        }), a2)
    }
}

/// An `n`-bit magnitude, then a sign.
pub open spec fn signed(a: Arith, n: nat) -> (int, Arith) {
    let (v, a1) = literal(a, n);
    let (neg, a2) = bit(a1, 128);
    (if neg {
        -(v as int)
    } else {
        v as int
    }, a2)
}

/// A flag, then a signed number where it is set.
pub open spec fn optional(a: Arith, n: nat) -> (int, Arith) {
    let (present, a1) = bit(a, 128);
    if present {
        signed(a1, n)
    } else {
        (0, a1)
    }
}

/// Walk a tree from node `i`. A positive entry is the next node, any other the
/// negated leaf; node `i` has its probability at `i / 2`.
pub open spec fn leaf_from(a: Arith, tree: Seq<i8>, probs: Seq<u8>, i: int) -> (int, Arith)
    decreases tree.len() - i,
{
    if i < 0 || i + 1 >= tree.len() {
        (0, a)
    } else {
        let (b, a1) = bit(a, probs[i / 2]);
        let next = tree[if b {
            i + 1
        } else {
            i
        }] as int;
        if next <= 0 {
            (-next, a1)
        } else if next <= i || next >= tree.len() {
            (0, a1)
        } else {
            leaf_from(a1, tree, probs, next)
        }
    }
}

/// Every inner entry points further down the tree.
pub open spec fn tree_ok(tree: Seq<i8>, probs: Seq<u8>) -> bool {
    &&& tree.len() <= 2 * probs.len()
    &&& tree.len() <= 126
    &&& forall|k: int|
        0 <= k < tree.len() ==> {
            &&& #[trigger] tree[k] > -128
            &&& tree[k] > 0 ==> tree[k] > k && tree[k] + 1 < tree.len() && tree[k] % 2 == 0
        }
}

pub open spec fn arith_ok(a: Arith) -> bool {
    &&& 128 <= a.range <= 255
    &&& a.count < 8
}

proof fn lemma_normalized(a: Arith)
    requires
        1 <= a.range <= 255,
        a.count < 8,
    ensures
        arith_ok(normalized(a)),
    decreases 256 - a.range,
{
    if a.range < 128 {
        lemma_normalized(shifted(a));
    }
}

proof fn lemma_split(range: nat, prob: nat)
    requires
        128 <= range <= 255,
        prob <= 255,
    ensures
        1 <= split_of(range, prob) < range,
{
    assert(0 <= (range - 1) * prob <= (range - 1) * 255) by (nonlinear_arith)
        requires
            prob <= 255,
            range >= 128,
    ;
}

proof fn lemma_literal_bound(a: Arith, n: nat)
    requires
        n <= 24,
    ensures
        literal(a, n).0 < vstd::arithmetic::power2::pow2(n),
    decreases n,
{
    vstd::arithmetic::power2::lemma_pow2_pos(n);
    if n > 0 {
        lemma_literal_bound(a, (n - 1) as nat);
        vstd::arithmetic::power2::lemma_pow2_unfold(n);
    }
}

/// The boolean entropy decoder.
pub struct Bool<'a> {
    d: &'a [u8],
    pos: usize,
    range: u32,
    value: u32,
    bit_count: u32,
}

impl<'a> View for Bool<'a> {
    type V = Arith;

    closed spec fn view(&self) -> Arith {
        Arith {
            rest: self.d@.skip(self.pos as int),
            range: self.range as nat,
            value: self.value,
            count: self.bit_count as nat,
        }
    }
}

impl<'a> Bool<'a> {
    pub closed spec fn wf(&self) -> bool {
        &&& self.pos <= self.d.len()
        &&& arith_ok(self@)
    }

    /// A decoder at the start of `d`.
    pub fn new(d: &'a [u8]) -> (b: Bool<'a>)
        ensures
            b.wf(),
            b@ == start(d@),
    {
        let b0: u32 = if d.len() > 0 {
            d[0] as u32
        } else {
            0
        };
        let b1: u32 = if d.len() > 1 {
            d[1] as u32
        } else {
            0
        };
        let pos: usize = if d.len() >= 2 {
            2
        } else {
            d.len()
        };
        let b = Bool { d, pos, range: 255, value: b0 * 256 + b1, bit_count: 0 };
        assert(b@.rest =~= after(d@, 2));
        b
    }

    /// One bit that is zero with probability `prob / 256`.
    pub fn get(&mut self, prob: u8) -> (r: u32)
        requires
            old(self).wf(),
        ensures
            final(self).wf(),
            r == if bit(old(self)@, prob).0 {
                1u32
            } else {
                0u32
            },
            final(self)@ == bit(old(self)@, prob).1,
    {
        let ghost a = self@;
        proof {
            lemma_split(a.range, prob as nat);
            assert((a.range - 1) * prob <= 254 * 255) by (nonlinear_arith)
                requires
                    a.range <= 255,
                    a.range >= 128,
                    prob <= 255,
            ;
        }
        let split: u32 = 1 + ((self.range - 1) * prob as u32) / 256;
        let big: u32 = split * 256;
        let r: u32;
        if self.value >= big {
            r = 1;
            self.range = self.range - split;
            self.value = self.value - big;
        } else {
            r = 0;
            self.range = split;
        }
        let ghost goal = normalized(self@);
        assert(goal == bit(a, prob).1);
        proof {
            lemma_normalized(self@);
        }
        while self.range < 128
            invariant
                1 <= self.range <= 255,
                self.bit_count < 8,
                self.pos <= self.d.len(),
                normalized(self@) == goal,
            decreases 256 - self.range,
        {
            let ghost before = self@;
            self.value = self.value << 1;
            self.range = self.range * 2;
            self.bit_count = self.bit_count + 1;
            if self.bit_count == 8 {
                self.bit_count = 0;
                if self.pos < self.d.len() {
                    let next: u32 = self.d[self.pos] as u32;
                    self.pos = self.pos + 1;
                    self.value = self.value | next;
                } else {
                    let next: u32 = 0;
                    self.value = self.value | next;
                }
            }
            assert(self@.rest =~= shifted(before).rest);
            assert(self@ == shifted(before));
        }
        r
    }

    /// A bit of even probability.
    pub fn flag(&mut self) -> (r: bool)
        requires
            old(self).wf(),
        ensures
            final(self).wf(),
            r == bit(old(self)@, 128).0,
            final(self)@ == bit(old(self)@, 128).1,
    {
        self.get(128) != 0
    }

    /// An `n`-bit number, high bit first.
    pub fn literal(&mut self, n: u32) -> (v: u32)
        requires
            old(self).wf(),
            n <= 24,
        ensures
            final(self).wf(),
            v == literal(old(self)@, n as nat).0,
            final(self)@ == literal(old(self)@, n as nat).1,
            v < vstd::arithmetic::power2::pow2(n as nat),
    {
        let ghost a = self@;
        let mut v: u32 = 0;
        let mut i: u32 = 0;
        while i < n
            invariant
                i <= n <= 24,
                self.wf(),
                (v as nat, self@) == literal(a, i as nat),
            decreases n - i,
        {
            proof {
                lemma_literal_bound(a, i as nat);
                vstd::arithmetic::power2::lemma2_to64();
                vstd::arithmetic::power2::lemma_pow2_strictly_increases(i as nat, 24);
            }
            v = 2 * v + self.get(128);
            i = i + 1;
        }
        proof {
            lemma_literal_bound(a, n as nat);
        }
        v
    }

    /// An `n`-bit magnitude, then a sign.
    pub fn signed(&mut self, n: u32) -> (v: i32)
        requires
            old(self).wf(),
            n <= 24,
        ensures
            final(self).wf(),
            v == signed(old(self)@, n as nat).0,
            final(self)@ == signed(old(self)@, n as nat).1,
            -(vstd::arithmetic::power2::pow2(n as nat)) < v < vstd::arithmetic::power2::pow2(
                n as nat,
            ),
    {
        proof {
            vstd::arithmetic::power2::lemma2_to64();
            if n < 24 {
                vstd::arithmetic::power2::lemma_pow2_strictly_increases(n as nat, 24);
            }
        }
        let v: i32 = self.literal(n) as i32;
        if self.flag() {
            -v
        } else {
            v
        }
    }

    /// Walk a tree from its root to a leaf.
    pub fn tree(&mut self, tree: &[i8], probs: &[u8]) -> (v: i32)
        requires
            old(self).wf(),
            tree_ok(tree@, probs@),
            tree@.len() >= 2,
        ensures
            final(self).wf(),
            v == leaf_from(old(self)@, tree@, probs@, 0).0,
            final(self)@ == leaf_from(old(self)@, tree@, probs@, 0).1,
    {
        self.tree_from(tree, probs, 0)
    }

    /// Walk a tree from node `start` to a leaf.
    pub fn tree_from(&mut self, tree: &[i8], probs: &[u8], start: usize) -> (v: i32)
        requires
            old(self).wf(),
            tree_ok(tree@, probs@),
            start + 1 < tree@.len(),
            start % 2 == 0,
        ensures
            final(self).wf(),
            v == leaf_from(old(self)@, tree@, probs@, start as int).0,
            final(self)@ == leaf_from(old(self)@, tree@, probs@, start as int).1,
    {
        let ghost goal = leaf_from(self@, tree@, probs@, start as int);
        let mut i: usize = start;
        loop
            invariant
                self.wf(),
                tree_ok(tree@, probs@),
                i + 1 < tree@.len(),
                i % 2 == 0,
                leaf_from(self@, tree@, probs@, i as int) == goal,
                goal == leaf_from(old(self)@, tree@, probs@, start as int),
            decreases tree@.len() - i,
        {
            let b: usize = self.get(probs[i / 2]) as usize;
            let next: i8 = tree[i + b];
            if next <= 0 {
                return -(next as i32);
            }
            i = next as usize;
        }
    }
}

/// A flag, then a signed number where it is set.
pub fn maybe_int(b: &mut Bool, n: u32) -> (v: i32)
    requires
        old(b).wf(),
        n <= 24,
    ensures
        final(b).wf(),
        v == optional(old(b)@, n as nat).0,
        final(b)@ == optional(old(b)@, n as nat).1,
        -(vstd::arithmetic::power2::pow2(n as nat)) < v < vstd::arithmetic::power2::pow2(n as nat),
{
    proof {
        vstd::arithmetic::power2::lemma_pow2_pos(n as nat);
    }
    if b.flag() {
        b.signed(n)
    } else {
        0
    }
}

} // verus!
