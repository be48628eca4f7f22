//! Bit streams, least significant bit first.
//!
//! A stream is modelled as a `Seq<bool>`; numbers travel through it with their
//! low bit in front. Reading past the end of a stream yields zero bits. A reader
//! sees a mark behind the last bit: when that is gone, the stream ran short.
use vstd::arithmetic::power2::{lemma_pow2_pos, lemma_pow2_unfold, pow2};
use vstd::prelude::*;

verus! {

/// The number whose binary digits, low one first, are `s`.
pub open spec fn value_of(s: Seq<bool>) -> nat
    decreases s.len(),
{
    if s.len() == 0 {
        0
    } else {
        (if s[0] {
            1nat
        } else {
            0nat
        }) + 2 * value_of(s.drop_first())
    }
}

/// The `n` low binary digits of `v`, low one first.
pub open spec fn bits_of(v: nat, n: nat) -> Seq<bool>
    decreases n,
{
    if n == 0 {
        Seq::empty()
    } else {
        seq![v % 2 == 1] + bits_of(v / 2, (n - 1) as nat)
    }
}

/// The first `n` bits of a stream, zero past its end.
pub open spec fn peek_bits(s: Seq<bool>, n: nat) -> Seq<bool> {
    Seq::new(n, |i: int| i < s.len() && s[i])
}

/// What is left of a stream after `n` bits.
pub open spec fn skip_bits(s: Seq<bool>, n: nat) -> Seq<bool> {
    if n <= s.len() {
        s.skip(n as int)
    } else {
        Seq::empty()
    }
}

/// The number in the first `n` bits of a stream.
pub open spec fn peek_value(s: Seq<bool>, n: nat) -> nat {
    value_of(peek_bits(s, n))
}

/// Bit `k` of a byte.
pub open spec fn byte_bit(b: u8, k: int) -> bool {
    (b as nat / pow2(k as nat)) % 2 == 1
}

/// The bits of a byte string.
pub open spec fn bytes_bits(d: Seq<u8>) -> Seq<bool> {
    Seq::new(8 * d.len(), |k: int| byte_bit(d[k / 8], k % 8))
}

/// The stream that a byte string holds: its bits, then an end mark. What takes
/// the mark takes more bits than there are.
pub open spec fn stream_of(d: Seq<u8>) -> Seq<bool> {
    bytes_bits(d).push(false)
}

/// A reader that got this far took more bits than there were: the end mark is
/// gone.
pub open spec fn ran_short(s: Seq<bool>) -> bool {
    s.len() == 0
}

/// The bytes that carry a bit string, the last one filled up with zero bits.
pub open spec fn bits_bytes(s: Seq<bool>) -> Seq<u8>
    decreases s.len(),
{
    if s.len() == 0 {
        Seq::empty()
    } else {
        seq![peek_value(s, 8) as u8] + bits_bytes(skip_bits(s, 8))
    }
}

// ── numbers and their digits ────────────────────────────────────────────────

pub proof fn lemma_bits_of_len(v: nat, n: nat)
    ensures
        bits_of(v, n).len() == n,
    decreases n,
{
    if n > 0 {
        lemma_bits_of_len(v / 2, (n - 1) as nat);
    }
}

pub proof fn lemma_value_bound(s: Seq<bool>)
    ensures
        value_of(s) < pow2(s.len()),
    decreases s.len(),
{
    lemma_pow2_pos(s.len());
    if s.len() > 0 {
        lemma_value_bound(s.drop_first());
        lemma_pow2_unfold(s.len());
    }
}

/// Writing a number down and reading it back gives the number.
pub proof fn lemma_value_of_bits(v: nat, n: nat)
    requires
        v < pow2(n),
    ensures
        value_of(bits_of(v, n)) == v,
    decreases n,
{
    reveal(pow2);
    if n == 0 {
        vstd::arithmetic::power2::lemma2_to64();
    } else {
        lemma_pow2_unfold(n);
        lemma_value_of_bits(v / 2, (n - 1) as nat);
        let s = bits_of(v, n);
        lemma_bits_of_len(v, n);
        assert(s.drop_first() =~= bits_of(v / 2, (n - 1) as nat));
        assert(s[0] == (v % 2 == 1));
    }
}

/// Reading a number and writing it down gives the bits.
pub proof fn lemma_bits_of_value(s: Seq<bool>)
    ensures
        bits_of(value_of(s), s.len()) == s,
    decreases s.len(),
{
    if s.len() == 0 {
        assert(bits_of(value_of(s), s.len()) =~= s);
    } else {
        lemma_bits_of_value(s.drop_first());
        let v = value_of(s);
        assert(v / 2 == value_of(s.drop_first()));
        assert(v % 2 == (if s[0] {
            1nat
        } else {
            0nat
        }));
        assert(bits_of(v, s.len()) =~= s);
    }
}

/// The digits of `low + high * 2^m` are those of `low`, then those of `high`.
pub proof fn lemma_bits_of_split(low: nat, m: nat, high: nat, n: nat)
    requires
        low < pow2(m),
    ensures
        bits_of(low + high * pow2(m), m + n) == bits_of(low, m) + bits_of(high, n),
    decreases m,
{
    if m == 0 {
        vstd::arithmetic::power2::lemma2_to64();
        assert(bits_of(low, m) + bits_of(high, n) =~= bits_of(high, n));
    } else {
        lemma_pow2_unfold(m);
        let p = pow2((m - 1) as nat);
        let v = low + high * pow2(m);
        assert(high * pow2(m) == 2 * (high * p)) by (nonlinear_arith)
            requires
                pow2(m) == 2 * p,
        ;
        assert(v / 2 == low / 2 + high * p);
        assert(v % 2 == low % 2);
        lemma_bits_of_split(low / 2, (m - 1) as nat, high, n);
        assert((m - 1) as nat + n == (m + n - 1) as nat);
        assert(bits_of(v, m + n) =~= seq![v % 2 == 1] + bits_of(v / 2, (m + n - 1) as nat));
        assert(bits_of(low, m) + bits_of(high, n) =~= seq![low % 2 == 1] + (bits_of(
            low / 2,
            (m - 1) as nat,
        ) + bits_of(high, n)));
    }
}

/// Digit `k` of a number.
pub proof fn lemma_bits_of_index(v: nat, n: nat, k: nat)
    requires
        k < n,
    ensures
        bits_of(v, n).len() == n,
        bits_of(v, n)[k as int] == ((v / pow2(k)) % 2 == 1),
    decreases n,
{
    lemma_bits_of_len(v, n);
    if k == 0 {
        vstd::arithmetic::power2::lemma2_to64();
    } else {
        lemma_bits_of_index(v / 2, (n - 1) as nat, (k - 1) as nat);
        lemma_pow2_unfold(k);
        lemma_pow2_pos((k - 1) as nat);
        vstd::arithmetic::div_mod::lemma_div_denominator(v as int, 2, pow2((k - 1) as nat) as int);
        assert(bits_of(v, n)[k as int] == bits_of(v / 2, (n - 1) as nat)[k - 1]);
    }
}

pub proof fn lemma_value_of_push(s: Seq<bool>, b: bool)
    ensures
        value_of(s.push(b)) == value_of(s) + (if b {
            pow2(s.len())
        } else {
            0
        }),
    decreases s.len(),
{
    if s.len() == 0 {
        vstd::arithmetic::power2::lemma2_to64();
        assert(s.push(b).drop_first() =~= Seq::empty());
        assert(value_of(s.push(b).drop_first()) == 0);
    } else {
        lemma_value_of_push(s.drop_first(), b);
        lemma_pow2_unfold(s.len());
        assert(s.push(b).drop_first() =~= s.drop_first().push(b));
    }
}

pub proof fn lemma_skip_skip(s: Seq<bool>, a: nat, b: nat)
    ensures
        skip_bits(skip_bits(s, a), b) == skip_bits(s, a + b),
{
    assert(skip_bits(skip_bits(s, a), b) =~= skip_bits(s, a + b));
}

/// A stream that starts with `a` yields `a` and leaves the rest.
pub proof fn lemma_peek_prefix(a: Seq<bool>, s: Seq<bool>)
    ensures
        peek_bits(a + s, a.len()) == a,
        skip_bits(a + s, a.len()) == s,
{
    assert(peek_bits(a + s, a.len()) =~= a);
    assert(skip_bits(a + s, a.len()) =~= s);
}

/// A field written in front of a stream reads back as the number written.
pub proof fn lemma_read_back(v: nat, n: nat, s: Seq<bool>)
    requires
        v < pow2(n),
    ensures
        peek_value(bits_of(v, n) + s, n) == v,
        skip_bits(bits_of(v, n) + s, n) == s,
{
    lemma_bits_of_len(v, n);
    lemma_peek_prefix(bits_of(v, n), s);
    lemma_value_of_bits(v, n);
}

pub proof fn lemma_byte_bits(b: u8)
    ensures
        bits_of(b as nat, 8) == Seq::new(8, |k: int| byte_bit(b, k)),
{
    lemma_bits_of_len(b as nat, 8);
    assert forall|k: int| 0 <= k < 8 implies bits_of(b as nat, 8)[k] == byte_bit(b, k) by {
        lemma_bits_of_index(b as nat, 8, k as nat);
    }
    assert(bits_of(b as nat, 8) =~= Seq::new(8, |k: int| byte_bit(b, k)));
}

pub proof fn lemma_bytes_bits_push(d: Seq<u8>, b: u8)
    ensures
        bytes_bits(d.push(b)) == bytes_bits(d) + bits_of(b as nat, 8),
{
    lemma_byte_bits(b);
    let l = bytes_bits(d.push(b));
    let r = bytes_bits(d) + bits_of(b as nat, 8);
    assert(l.len() == r.len());
    assert forall|k: int| 0 <= k < l.len() implies l[k] == r[k] by {
        if k < 8 * d.len() {
            assert(k / 8 < d.len());
        } else {
            assert(k / 8 == d.len());
            assert(k % 8 == k - 8 * d.len());
        }
    }
    assert(l =~= r);
}

pub proof fn lemma_bytes_bits_cons(b: u8, d: Seq<u8>)
    ensures
        bytes_bits(seq![b] + d) == bits_of(b as nat, 8) + bytes_bits(d),
{
    lemma_byte_bits(b);
    let l = bytes_bits(seq![b] + d);
    let r = bits_of(b as nat, 8) + bytes_bits(d);
    assert(l.len() == r.len());
    assert forall|k: int| 0 <= k < l.len() implies l[k] == r[k] by {
        if k < 8 {
            assert(k / 8 == 0);
            assert(k % 8 == k);
        } else {
            assert((k - 8) / 8 == k / 8 - 1);
            assert((k - 8) % 8 == k % 8);
            assert((seq![b] + d)[k / 8] == d[k / 8 - 1]);
        }
    }
    assert(l =~= r);
}

/// The bits of the carrying bytes are the bit string, then fewer than eight
/// zero bits.
pub proof fn lemma_bytes_of_bits(s: Seq<bool>)
    ensures
        exists|n: nat|
            n < 8 && #[trigger] (s.len() + n) % 8 == 0 && bytes_bits(bits_bytes(s)) == s
                + Seq::new(n, |i: int| false),
    decreases s.len(),
{
    if s.len() == 0 {
        assert(bytes_bits(bits_bytes(s)) =~= s + Seq::new(0, |i: int| false));
        assert((s.len() + 0nat) % 8 == 0);
    } else {
        let rest = skip_bits(s, 8);
        lemma_bytes_of_bits(rest);
        let head = peek_bits(s, 8);
        lemma_value_bound(head);
        vstd::arithmetic::power2::lemma2_to64();
        lemma_bits_of_value(head);
        let b = peek_value(s, 8) as u8;
        lemma_bytes_bits_cons(b, bits_bytes(rest));
        if s.len() >= 8 {
            let n = choose|n: nat|
                n < 8 && #[trigger] (rest.len() + n) % 8 == 0 && bytes_bits(bits_bytes(rest))
                    == rest + Seq::new(n, |i: int| false);
            assert(bytes_bits(bits_bytes(s)) =~= s + Seq::new(n, |i: int| false));
            assert((s.len() + n) % 8 == 0);
        } else {
            let n = (8 - s.len()) as nat;
            assert(bits_bytes(rest) =~= Seq::empty());
            assert(bytes_bits(bits_bytes(rest)) =~= Seq::empty());
            assert(bytes_bits(bits_bytes(s)) =~= s + Seq::new(n, |i: int| false));
            assert((s.len() + n) % 8 == 0);
        }
    }
}

/// Whole bytes in front of a bit string are carried as they are.
pub proof fn lemma_bits_bytes_prefix(d: Seq<u8>, s: Seq<bool>)
    ensures
        bits_bytes(bytes_bits(d) + s) == d + bits_bytes(s),
    decreases d.len(),
{
    if d.len() == 0 {
        assert(bytes_bits(d) + s =~= s);
        assert(d + bits_bytes(s) =~= bits_bytes(s));
    } else {
        let tail = d.drop_first();
        assert(d =~= seq![d[0]] + tail);
        lemma_bytes_bits_cons(d[0], tail);
        lemma_bits_of_len(d[0] as nat, 8);
        let rest = bytes_bits(tail) + s;
        assert(bytes_bits(d) + s =~= bits_of(d[0] as nat, 8) + rest);
        vstd::arithmetic::power2::lemma2_to64();
        lemma_read_back(d[0] as nat, 8, rest);
        lemma_bits_bytes_prefix(tail, s);
        assert(d + bits_bytes(s) =~= seq![d[0]] + (tail + bits_bytes(s)));
    }
}

// ── reader ──────────────────────────────────────────────────────────────────

/// A cursor over a byte string, reading bits low one first.
pub struct BitR<'a> {
    d: &'a [u8],
    byte: usize,
    bit: u8,
}

impl<'a> View for BitR<'a> {
    type V = Seq<bool>;

    /// The bits not read yet, and the end mark.
    closed spec fn view(&self) -> Seq<bool> {
        stream_of(self.d@).skip(8 * self.byte + self.bit)
    }
}

impl<'a> BitR<'a> {
    pub closed spec fn wf(&self) -> bool {
        &&& self.byte <= self.d.len()
        &&& self.bit < 8
        &&& self.byte == self.d.len() ==> self.bit <= 1
    }

    /// A reader at the first bit of `d`.
    pub fn new(d: &'a [u8]) -> (r: BitR<'a>)
        ensures
            r.wf(),
            r@ == stream_of(d@),
    {
        let r = BitR { d, byte: 0, bit: 0 };
        assert(r@ =~= stream_of(d@));
        r
    }

    /// Whether more bits were read than there were.
    pub fn is_short(&self) -> (b: bool)
        requires
            self.wf(),
        ensures
            b == ran_short(self@),
    {
        self.byte >= self.d.len() && self.bit > 0
    }

    /// The next bit; zero at the end of the stream.
    fn next_bit(&mut self) -> (b: bool)
        requires
            old(self).wf(),
        ensures
            final(self).wf(),
            b == (old(self)@.len() > 0 && old(self)@[0]),
            final(self)@ == skip_bits(old(self)@, 1),
    {
        let ghost before = self@;
        if self.byte >= self.d.len() {
            self.bit = 1;
            assert(self@ =~= skip_bits(before, 1));
            return false;
        }
        let ghost pos: int = 8 * self.byte + self.bit;
        let v: u8 = self.d[self.byte];
        let k: u8 = self.bit;
        let b: bool = (v >> k) & 1 == 1;
        proof {
            vstd::bits::lemma_u8_shr_is_div(v, k);
            let x = v >> k;
            assert(x & 1 == x % 2) by (bit_vector);
            assert(pos / 8 == self.byte && pos % 8 == k);
            assert(before[0] == stream_of(self.d@)[pos]);
        }
        if k == 7 {
            self.bit = 0;
            self.byte = self.byte + 1;
        } else {
            self.bit = k + 1;
        }
        assert(self@ =~= skip_bits(before, 1));
        b
    }

    /// Read an `n`-bit number.
    pub fn read(&mut self, n: u32) -> (v: u32)
        requires
            old(self).wf(),
            n <= 32,
        ensures
            final(self).wf(),
            v == peek_value(old(self)@, n as nat),
            final(self)@ == skip_bits(old(self)@, n as nat),
            v < pow2(n as nat),
    {
        let ghost s = self@;
        let mut v: u32 = 0;
        let mut i: u32 = 0;
        proof {
            assert(peek_bits(s, 0) =~= Seq::empty());
            assert(skip_bits(s, 0) =~= s);
        }
        while i < n
            invariant
                i <= n <= 32,
                self.wf(),
                v == peek_value(s, i as nat),
                self@ == skip_bits(s, i as nat),
            decreases n - i,
        {
            let b: bool = self.next_bit();
            proof {
                let head = peek_bits(s, i as nat);
                lemma_value_bound(head);
                lemma_value_of_push(head, b);
                assert(peek_bits(s, (i + 1) as nat) =~= head.push(b));
                lemma_skip_skip(s, i as nat, 1);
                vstd::bits::lemma_u32_pow2_no_overflow(i as nat);
                vstd::bits::lemma_u32_shl_is_mul(1u32, i);
                vstd::arithmetic::power2::lemma2_to64();
                let x: u32 = v;
                let y: u32 = 1u32 << i;
                assert(x < y ==> (x | y) == x + y) by (bit_vector)
                    requires
                        y == 1u32 << i,
                        i < 32u32,
                ;
            }
            if b {
                v = v | (1u32 << i);
            }
            i = i + 1;
        }
        proof {
            lemma_value_bound(peek_bits(s, n as nat));
        }
        v
    }
}

// ── writer ──────────────────────────────────────────────────────────────────

/// A growing bit string, packed into bytes low bit first.
pub struct BitW {
    out: Vec<u8>,
    acc: u64,
    nb: u32,
}

impl View for BitW {
    type V = Seq<bool>;

    /// The bits written so far.
    closed spec fn view(&self) -> Seq<bool> {
        bytes_bits(self.out@) + bits_of(self.acc as nat, self.nb as nat)
    }
}

impl BitW {
    pub closed spec fn wf(&self) -> bool {
        &&& self.nb < 8
        &&& self.acc < pow2(self.nb as nat)
    }

    /// An empty bit string.
    pub fn new() -> (w: BitW)
        ensures
            w.wf(),
            w@ == Seq::<bool>::empty(),
    {
        let w = BitW { out: Vec::new(), acc: 0, nb: 0 };
        proof {
            lemma_pow2_pos(0);
            assert(w@ =~= Seq::<bool>::empty());
        }
        w
    }

    /// Append the `n` low bits of `val`.
    pub fn write(&mut self, val: u32, n: u32)
        requires
            old(self).wf(),
            n <= 32,
        ensures
            final(self).wf(),
            final(self)@ == old(self)@ + bits_of(val as nat % pow2(n as nat), n as nat),
    {
        let ghost before = self@;
        proof {
            vstd::arithmetic::power2::lemma2_to64();
            vstd::arithmetic::power2::lemma2_to64_rest();
            vstd::bits::lemma_u64_pow2_no_overflow(n as nat);
            vstd::bits::lemma_u64_shl_is_mul(1u64, n as u64);
            vstd::bits::lemma_u64_low_bits_mask_is_mod(val as u64, n as nat);
            lemma_pow2_pos(n as nat);
        }
        let low: u64 = (val as u64) & ((1u64 << n) - 1);
        assert(low == val as nat % pow2(n as nat));
        let ghost lo = low as nat;
        let nb: u32 = self.nb;
        let acc: u64 = self.acc;
        proof {
            lemma_pow2_pos(nb as nat);
            lemma_pow2_pos(n as nat);
            vstd::arithmetic::power2::lemma2_to64();
            vstd::arithmetic::power2::lemma2_to64_rest();
            if nb < 7 {
                vstd::arithmetic::power2::lemma_pow2_strictly_increases(nb as nat, 7);
            }
            if n < 32 {
                vstd::arithmetic::power2::lemma_pow2_strictly_increases(n as nat, 32);
            }
            assert(lo < pow2(n as nat) <= 0x1_0000_0000);
            assert(lo * pow2(nb as nat) < 0x1_0000_0000 * 128) by (nonlinear_arith)
                requires
                    lo < 0x1_0000_0000,
                    0 < pow2(nb as nat) <= 128,
            ;
            vstd::bits::lemma_u64_shl_is_mul(low, nb as u64);
            vstd::bits::lemma_u64_shl_is_mul(1u64, nb as u64);
            assert(acc < (1u64 << (nb as u64)) ==> (acc | (low << (nb as u64))) == acc + (low << (
            nb as u64))) by (bit_vector)
                requires
                    nb < 8u32,
                    low < 0x1_0000_0000u64,
            ;
            lemma_bits_of_split(acc as nat, nb as nat, lo, n as nat);
            let t = acc as nat + lo * pow2(nb as nat);
            vstd::arithmetic::power2::lemma_pow2_adds(nb as nat, n as nat);
            assert(t < pow2((nb + n) as nat)) by (nonlinear_arith)
                requires
                    t == acc as nat + lo * pow2(nb as nat),
                    acc < pow2(nb as nat),
                    lo < pow2(n as nat),
                    pow2((nb + n) as nat) == pow2(nb as nat) * pow2(n as nat),
            ;
        }
        self.acc = acc | (low << nb);
        self.nb = nb + n;
        assert(self@ =~= before + bits_of(lo, n as nat));
        while self.nb >= 8
            invariant
                self.nb < 40,
                self.acc < pow2(self.nb as nat),
                self@ == before + bits_of(lo, n as nat),
            decreases self.nb,
        {
            let ghost cur = self@;
            let ghost out1 = self.out@;
            let ghost acc1 = self.acc as nat;
            let ghost nb1 = self.nb as nat;
            let b: u8 = (self.acc & 0xFF) as u8;
            proof {
                let a: u64 = self.acc;
                assert(a & 0xFF == a % 256) by (bit_vector);
                assert(a >> 8 == a / 256) by (bit_vector);
                vstd::arithmetic::power2::lemma2_to64();
                lemma_bits_of_split(acc1 % 256, 8, acc1 / 256, (nb1 - 8) as nat);
                vstd::arithmetic::power2::lemma_pow2_adds(8, (nb1 - 8) as nat);
                assert(acc1 / 256 < pow2((nb1 - 8) as nat)) by (nonlinear_arith)
                    requires
                        acc1 < pow2(nb1),
                        pow2(nb1) == 256 * pow2((nb1 - 8) as nat),
                ;
                lemma_bytes_bits_push(out1, b);
            }
            self.out.push(b);
            self.acc = self.acc >> 8;
            self.nb = self.nb - 8;
            assert(self@ =~= cur);
        }
    }

    /// The bytes that carry what was written.
    pub fn finish(self) -> (out: Vec<u8>)
        requires
            self.wf(),
        ensures
            out@ == bits_bytes(self@),
    {
        let mut out = self.out;
        let ghost tail = bits_of(self.acc as nat, self.nb as nat);
        proof {
            lemma_bits_bytes_prefix(self.out@, tail);
            lemma_bits_of_len(self.acc as nat, self.nb as nat);
        }
        if self.nb > 0 {
            proof {
                vstd::arithmetic::power2::lemma2_to64();
                vstd::arithmetic::power2::lemma_pow2_strictly_increases(self.nb as nat, 8);
                let a: u64 = self.acc;
                assert(a & 0xFF == a % 256) by (bit_vector);
                lemma_value_pad(tail, 8);
                lemma_value_of_bits(self.acc as nat, self.nb as nat);
                assert(skip_bits(tail, 8) =~= Seq::empty());
                assert(bits_bytes(skip_bits(tail, 8)) =~= Seq::empty());
                assert(bits_bytes(tail) =~= seq![self.acc as u8]);
            }
            out.push((self.acc & 0xFF) as u8);
        }
        assert(out@ =~= bits_bytes(self@));
        out
    }
}

/// Zero bits behind a number do not change it.
pub proof fn lemma_value_pad(s: Seq<bool>, n: nat)
    requires
        s.len() <= n,
    ensures
        peek_value(s, n) == value_of(s),
    decreases n,
{
    if n == s.len() {
        assert(peek_bits(s, n) =~= s);
    } else {
        let m = (n - 1) as nat;
        lemma_value_pad(s, m);
        lemma_value_of_push(peek_bits(s, m), false);
        assert(peek_bits(s, n) =~= peek_bits(s, m).push(false));
    }
}

} // verus!
