//! Canonical prefix codes.
//!
//! A code is given by the lengths of its words, one per symbol, zero for a
//! symbol that has none. Words of one length are consecutive numbers in symbol
//! order, and each length starts where the words of the previous length, each
//! extended by a zero bit, leave off. A word travels with its high bit first.
use super::bits::{
    bits_of, lemma_bits_of_index, lemma_bits_of_len, lemma_bits_of_value, lemma_peek_prefix,
    lemma_skip_skip, lemma_value_bound, lemma_value_of_bits, lemma_value_of_push, peek_bits,
    skip_bits, value_of, BitR,
};
use std::collections::HashMap;
use vstd::arithmetic::power2::{
    lemma_pow2_adds, lemma_pow2_pos, lemma_pow2_strictly_increases, lemma_pow2_unfold, pow2,
};
use vstd::prelude::*;

verus! {

broadcast use vstd::std_specs::hash::group_hash_axioms;

/// The longest word a code may have.
pub const MAX_LEN: u8 = 15;

/// How many of the first `upto` symbols have words of `b` bits.
pub open spec fn count_len(l: Seq<u8>, upto: int, b: nat) -> nat
    decreases upto,
{
    if upto <= 0 {
        0
    } else {
        count_len(l, upto - 1, b) + (if l[upto - 1] == b {
            1nat
        } else {
            0nat
        })
    }
}

/// The number of the first word of `b` bits.
pub open spec fn first_code(l: Seq<u8>, b: nat) -> nat
    decreases b,
{
    if b <= 1 {
        0
    } else {
        2 * (first_code(l, (b - 1) as nat) + count_len(l, l.len() as int, (b - 1) as nat))
    }
}

/// The number of the word of symbol `s`.
pub open spec fn code_number(l: Seq<u8>, s: int) -> nat {
    first_code(l, l[s] as nat) + count_len(l, s, l[s] as nat)
}

/// `v` as a word of `n` bits, high bit first.
pub open spec fn word_of(v: nat, n: nat) -> Seq<bool> {
    bits_of(v, n).reverse()
}

/// The word of symbol `s`.
pub open spec fn codeword(l: Seq<u8>, s: int) -> Seq<bool> {
    word_of(code_number(l, s), l[s] as nat)
}

/// The last of the first `upto` symbols whose word is `w`.
pub open spec fn last_match(l: Seq<u8>, w: Seq<bool>, upto: int) -> Option<nat>
    decreases upto,
{
    if upto <= 0 {
        None
    } else if l[upto - 1] == w.len() && codeword(l, upto - 1) == w {
        Some((upto - 1) as nat)
    } else {
        last_match(l, w, upto - 1)
    }
}

/// The symbol whose word is `w`.
pub open spec fn symbol_of(l: Seq<u8>, w: Seq<bool>) -> Option<nat> {
    last_match(l, w, l.len() as int)
}

/// The symbol with the shortest word of `len` bits or more that `s` starts with.
pub open spec fn match_from(l: Seq<u8>, s: Seq<bool>, len: nat) -> Option<(nat, Seq<bool>)>
    decreases MAX_LEN + 1 - len,
{
    if len > MAX_LEN {
        None
    } else {
        match symbol_of(l, peek_bits(s, len)) {
            Some(sym) => Some((sym, skip_bits(s, len))),
            None => match_from(l, s, len + 1),
        }
    }
}

/// A decoder's code: one symbol that takes no bits at all, or word lengths.
pub ghost enum Code {
    Single(nat),
    Lengths(Seq<u8>),
}

/// Decode one symbol: the symbol and what follows it in the stream.
pub open spec fn decode_symbol(c: Code, s: Seq<bool>) -> Option<(nat, Seq<bool>)> {
    match c {
        Code::Single(sym) => Some((sym, s)),
        Code::Lengths(l) => match_from(l, s, 1),
    }
}

/// The number of symbols of a code.
pub open spec fn in_alphabet(c: Code, n: nat) -> bool {
    match c {
        Code::Single(sym) => sym < n,
        Code::Lengths(l) => l.len() <= n,
    }
}

pub open spec fn lengths_ok(l: Seq<u8>) -> bool {
    &&& l.len() <= 0xFFFF
    &&& forall|i: int| 0 <= i < l.len() ==> #[trigger] l[i] <= MAX_LEN
}

// ── words ───────────────────────────────────────────────────────────────────

proof fn lemma_bits_of_mod(v: nat, n: nat, m: nat)
    requires
        n <= m,
    ensures
        bits_of(v % pow2(m), n) == bits_of(v, n),
    decreases n,
{
    lemma_pow2_pos(m);
    if n > 0 {
        lemma_pow2_unfold(m);
        let p = pow2((m - 1) as nat);
        lemma_pow2_pos((m - 1) as nat);
        vstd::arithmetic::div_mod::lemma_mod_breakdown(v as int, 2, p as int);
        let u = v % pow2(m);
        assert(u == 2 * ((v / 2) % p) + v % 2);
        assert(u % 2 == v % 2 && u / 2 == (v / 2) % p);
        lemma_bits_of_mod(v / 2, (n - 1) as nat, (m - 1) as nat);
        assert(bits_of(u, n) =~= bits_of(v, n));
    }
}

pub proof fn lemma_word_len(v: nat, n: nat)
    ensures
        word_of(v, n).len() == n,
{
    lemma_bits_of_len(v, n);
}

pub proof fn lemma_word_injective(a: nat, b: nat, n: nat)
    requires
        a < pow2(n),
        b < pow2(n),
        word_of(a, n) == word_of(b, n),
    ensures
        a == b,
{
    lemma_bits_of_len(a, n);
    lemma_bits_of_len(b, n);
    let x = bits_of(a, n);
    let y = bits_of(b, n);
    assert forall|i: int| 0 <= i < n implies x[i] == y[i] by {
        assert(word_of(a, n)[n - 1 - i] == x[i]);
        assert(word_of(b, n)[n - 1 - i] == y[i]);
    }
    assert(x =~= y);
    lemma_value_of_bits(a, n);
    lemma_value_of_bits(b, n);
}

/// The first `m` bits of a word are the word of its high part.
pub proof fn lemma_word_prefix(v: nat, n: nat, m: nat)
    requires
        m <= n,
    ensures
        word_of(v, n).subrange(0, m as int) == word_of(v / pow2((n - m) as nat), m),
{
    let d = (n - m) as nat;
    let u = v / pow2(d);
    lemma_bits_of_len(v, n);
    lemma_bits_of_len(u, m);
    let x = word_of(v, n).subrange(0, m as int);
    let y = word_of(u, m);
    assert forall|i: int| 0 <= i < m implies x[i] == y[i] by {
        let k = (m - 1 - i) as nat;
        lemma_bits_of_index(u, m, k);
        lemma_bits_of_index(v, n, k + d);
        lemma_pow2_adds(d, k);
        lemma_pow2_pos(d);
        lemma_pow2_pos(k);
        vstd::arithmetic::div_mod::lemma_div_denominator(v as int, pow2(d) as int, pow2(k) as int);
    }
    assert(x =~= y);
}

proof fn lemma_pow2_small(i: nat)
    requires
        i <= 15,
    ensures
        pow2(i) <= 32768,
{
    vstd::arithmetic::power2::lemma2_to64();
    if i < 15 {
        lemma_pow2_strictly_increases(i, 15);
    }
}

/// The `n` low bits of `v` in the opposite order.
pub fn reverse_bits(v: u16, n: u8) -> (r: u16)
    requires
        n <= 16,
    ensures
        r < pow2(n as nat),
        bits_of(r as nat, n as nat) == word_of(v as nat, n as nat),
{
    let mut x: u16 = v;
    let mut r: u16 = 0;
    let mut i: u8 = 0;
    let ghost w = bits_of(v as nat, n as nat);
    proof {
        lemma_bits_of_len(v as nat, n as nat);
        lemma_pow2_pos(0);
        vstd::arithmetic::power2::lemma2_to64();
        assert(value_of(w.subrange(0, 0).reverse()) == 0);
        assert(v as nat / pow2(0) == v);
    }
    while i < n
        invariant
            i <= n <= 16,
            w == bits_of(v as nat, n as nat),
            w.len() == n,
            x == v as nat / pow2(i as nat),
            r == value_of(w.subrange(0, i as int).reverse()),
        decreases n - i,
    {
        proof {
            let head = w.subrange(0, i as int).reverse();
            lemma_value_bound(head);
            lemma_bits_of_index(v as nat, n as nat, i as nat);
            let next = w.subrange(0, i + 1).reverse();
            assert(next =~= seq![w[i as int]] + head);
            assert(next.drop_first() =~= head);
            lemma_pow2_small(i as nat);
            assert(r < 32768);
            assert(((r << 1u16) | (x & 1u16)) == 2 * r + x % 2) by (bit_vector)
                requires
                    r < 32768u16,
            ;
            assert(x >> 1u16 == x / 2) by (bit_vector);
            lemma_pow2_unfold((i + 1) as nat);
            lemma_pow2_pos(i as nat);
            vstd::arithmetic::div_mod::lemma_div_denominator(v as int, pow2(i as nat) as int, 2);
        }
        r = (r << 1) | (x & 1);
        x = x >> 1;
        i = i + 1;
    }
    proof {
        assert(w.subrange(0, n as int) =~= w);
        lemma_value_bound(w.reverse());
        lemma_bits_of_value(w.reverse());
    }
    r
}

/// Reversing twice gives back the low bits.
pub proof fn law_reverse_twice(v: nat, n: nat)
    ensures
        word_of(value_of(word_of(v, n)), n) == bits_of(v, n),
{
    lemma_bits_of_len(v, n);
    lemma_bits_of_value(word_of(v, n));
    assert(word_of(v, n).reverse() =~= bits_of(v, n));
}

// ── canonical numbering ─────────────────────────────────────────────────────

proof fn lemma_count_bound(l: Seq<u8>, upto: int, b: nat)
    requires
        0 <= upto,
    ensures
        count_len(l, upto, b) <= upto,
    decreases upto,
{
    if upto > 0 {
        lemma_count_bound(l, upto - 1, b);
    }
}

proof fn lemma_first_bound(l: Seq<u8>, b: nat)
    requires
        l.len() <= 0xFFFF,
    ensures
        first_code(l, b) <= (pow2(b) - 1) * 131070,
    decreases b,
{
    lemma_pow2_pos(b);
    if b > 1 {
        lemma_first_bound(l, (b - 1) as nat);
        lemma_count_bound(l, l.len() as int, (b - 1) as nat);
        lemma_pow2_unfold(b);
    }
}

/// Canonical codes, in the order in which a stream carries their bits: the
/// number in `codes[i]` written low bit first is the word of symbol `i`.
pub fn canonical_codes(lengths: &[u8]) -> (codes: Vec<u16>)
    requires
        lengths_ok(lengths@),
    ensures
        codes@.len() == lengths@.len(),
        forall|i: int|
            0 <= i < codes@.len() ==> #[trigger] codes@[i] < pow2(lengths@[i] as nat),
        forall|i: int|
            0 <= i < codes@.len() ==> bits_of(#[trigger] codes@[i] as nat, lengths@[i] as nat)
                == codeword(lengths@, i),
{
    let n: usize = lengths.len();
    let ghost l = lengths@;
    let mut count: [u64; 16] = [0;16];
    let mut i: usize = 0;
    while i < n
        invariant
            i <= n == lengths.len(),
            l == lengths@,
            lengths_ok(l),
            forall|b: int| 0 < b < 16 ==> #[trigger] count@[b] == count_len(l, i as int, b as nat),
        decreases n - i,
    {
        let k: usize = lengths[i] as usize;
        proof {
            lemma_count_bound(l, i as int, k as nat);
        }
        if k > 0 {
            count[k] = count[k] + 1;
        }
        i = i + 1;
    }
    let mut next: [u64; 16] = [0;16];
    let mut code: u64 = 0;
    let mut bits: usize = 2;
    while bits <= 15
        invariant
            2 <= bits <= 16,
            lengths_ok(l),
            forall|b: int|
                0 < b < 16 ==> #[trigger] count@[b] == count_len(l, l.len() as int, b as nat),
            code == first_code(l, (bits - 1) as nat),
            forall|b: int| 0 < b < bits ==> #[trigger] next@[b] == first_code(l, b as nat),
        decreases 16 - bits,
    {
        proof {
            lemma_first_bound(l, (bits - 1) as nat);
            lemma_count_bound(l, l.len() as int, (bits - 1) as nat);
            vstd::arithmetic::power2::lemma2_to64();
            lemma_pow2_strictly_increases((bits - 1) as nat, 15);
        }
        code = 2 * (code + count[bits - 1]);
        next[bits] = code;
        bits = bits + 1;
    }
    let mut codes: Vec<u16> = Vec::with_capacity(n);
    let mut i: usize = 0;
    proof {
        assert forall|b: int| 0 < b < 16 implies #[trigger] next@[b] == first_code(l, b as nat)
            + count_len(l, 0, b as nat) by {}
    }
    while i < n
        invariant
            i <= n == lengths.len(),
            l == lengths@,
            lengths_ok(l),
            codes@.len() == i,
            forall|b: int|
                0 < b < 16 ==> #[trigger] next@[b] == first_code(l, b as nat) + count_len(
                    l,
                    i as int,
                    b as nat,
                ),
            forall|j: int| 0 <= j < i ==> #[trigger] codes@[j] < pow2(l[j] as nat),
            forall|j: int|
                0 <= j < i ==> bits_of(#[trigger] codes@[j] as nat, l[j] as nat) == codeword(l, j),
        decreases n - i,
    {
        let b: u8 = lengths[i];
        if b > 0 {
            let c: u64 = next[b as usize];
            proof {
                lemma_first_bound(l, b as nat);
                lemma_count_bound(l, i as int, b as nat);
                vstd::arithmetic::power2::lemma2_to64();
                if b < 15 {
                    lemma_pow2_strictly_increases(b as nat, 15);
                }
                lemma_bits_of_mod(c as nat, b as nat, 16);
            }
            next[b as usize] = c + 1;
            codes.push(reverse_bits((c % 0x10000) as u16, b));
        } else {
            proof {
                lemma_pow2_pos(0);
                assert(bits_of(0, 0) =~= codeword(l, i as int));
            }
            codes.push(0);
        }
        i = i + 1;
    }
    codes
}

// ── decodability ────────────────────────────────────────────────────────────

/// The share of the code space that a word of `b` bits takes up, in units of
/// the longest words.
pub open spec fn share(b: u8) -> nat {
    if b == 0 || b > MAX_LEN {
        0
    } else {
        pow2((MAX_LEN - b) as nat)
    }
}

/// The code space taken up by the first `upto` symbols.
pub open spec fn space(l: Seq<u8>, upto: int) -> nat
    decreases upto,
{
    if upto <= 0 {
        0
    } else {
        space(l, upto - 1) + share(l[upto - 1])
    }
}

/// The words fit side by side: no word needs to be the start of another.
pub open spec fn fits(l: Seq<u8>) -> bool {
    &&& lengths_ok(l)
    &&& space(l, l.len() as int) <= pow2(MAX_LEN as nat)
}

/// The code space of the words of at most `b` bits among the first `upto`.
spec fn space_upto(l: Seq<u8>, upto: int, b: nat) -> nat
    decreases b,
{
    if b == 0 {
        0
    } else {
        space_upto(l, upto, (b - 1) as nat) + count_len(l, upto, b) * pow2((MAX_LEN - b) as nat)
    }
}

proof fn lemma_space_upto_step(l: Seq<u8>, upto: int, b: nat)
    requires
        0 < upto <= l.len(),
        b <= MAX_LEN,
    ensures
        space_upto(l, upto, b) == space_upto(l, upto - 1, b) + (if l[upto - 1] <= b {
            share(l[upto - 1])
        } else {
            0
        }),
    decreases b,
{
    if b > 0 {
        lemma_space_upto_step(l, upto, (b - 1) as nat);
        let p = pow2((MAX_LEN - b) as nat);
        let c0 = count_len(l, upto - 1, b);
        let c1 = count_len(l, upto, b);
        if l[upto - 1] == b {
            assert(c1 * p == c0 * p + p) by (nonlinear_arith)
                requires
                    c1 == c0 + 1,
            ;
        }
    }
}

proof fn lemma_space_upto_empty(l: Seq<u8>, b: nat)
    requires
        b <= MAX_LEN,
    ensures
        space_upto(l, 0, b) == 0,
    decreases b,
{
    if b > 0 {
        lemma_space_upto_empty(l, (b - 1) as nat);
        assert(count_len(l, 0, b) == 0);
        assert(0 * pow2((MAX_LEN - b) as nat) == 0);
    }
}

proof fn lemma_space_is(l: Seq<u8>, upto: int)
    requires
        0 <= upto <= l.len(),
        lengths_ok(l),
    ensures
        space(l, upto) == space_upto(l, upto, MAX_LEN as nat),
    decreases upto,
{
    if upto == 0 {
        lemma_space_upto_empty(l, MAX_LEN as nat);
    } else {
        lemma_space_is(l, upto - 1);
        lemma_space_upto_step(l, upto, MAX_LEN as nat);
    }
}

proof fn lemma_space_upto_monotone(l: Seq<u8>, upto: int, b: nat, c: nat)
    requires
        b <= c <= MAX_LEN,
    ensures
        space_upto(l, upto, b) <= space_upto(l, upto, c),
    decreases c,
{
    if b < c {
        lemma_space_upto_monotone(l, upto, b, (c - 1) as nat);
    }
}

proof fn lemma_first_is_space(l: Seq<u8>, b: nat)
    requires
        1 <= b <= MAX_LEN,
    ensures
        first_code(l, b) * pow2((MAX_LEN - b) as nat) == space_upto(
            l,
            l.len() as int,
            (b - 1) as nat,
        ),
    decreases b,
{
    if b > 1 {
        let a = (b - 1) as nat;
        lemma_first_is_space(l, a);
        lemma_pow2_unfold((MAX_LEN - a) as nat);
        let f = first_code(l, a);
        let c = count_len(l, l.len() as int, a);
        let p = pow2((MAX_LEN - b) as nat);
        let q = pow2((MAX_LEN - a) as nat);
        assert((MAX_LEN - a) as nat - 1 == (MAX_LEN - b) as nat);
        assert(2 * (f + c) * p == f * q + c * q) by (nonlinear_arith)
            requires
                q == 2 * p,
        ;
        assert(first_code(l, b) == 2 * (f + c));
        assert(space_upto(l, l.len() as int, a) == f * q + c * q);
    } else {
        assert(space_upto(l, l.len() as int, 0) == 0);
        assert(first_code(l, b) == 0);
        assert(0 * pow2((MAX_LEN - b) as nat) == 0);
    }
}

/// Every word number fits its word.
proof fn lemma_number_fits(l: Seq<u8>, b: nat)
    requires
        fits(l),
        1 <= b <= MAX_LEN,
    ensures
        first_code(l, b) + count_len(l, l.len() as int, b) <= pow2(b),
{
    lemma_first_is_space(l, b);
    lemma_space_is(l, l.len() as int);
    lemma_space_upto_monotone(l, l.len() as int, b, MAX_LEN as nat);
    let p = pow2((MAX_LEN - b) as nat);
    lemma_pow2_pos((MAX_LEN - b) as nat);
    lemma_pow2_adds(b, (MAX_LEN - b) as nat);
    let f = first_code(l, b);
    let c = count_len(l, l.len() as int, b);
    assert(f + c <= pow2(b)) by (nonlinear_arith)
        requires
            f * p + c * p <= pow2(b) * p,
            p > 0,
    ;
}

proof fn lemma_first_grows(l: Seq<u8>, a: nat, b: nat)
    requires
        1 <= a < b,
    ensures
        first_code(l, b) >= (first_code(l, a) + count_len(l, l.len() as int, a)) * pow2(
            (b - a) as nat,
        ),
    decreases b,
{
    let t = first_code(l, a) + count_len(l, l.len() as int, a);
    if b == a + 1 {
        vstd::arithmetic::power2::lemma2_to64();
        assert(first_code(l, b) == 2 * t);
        let q = pow2((b - a) as nat);
        assert(t * q == 2 * t) by (nonlinear_arith)
            requires
                q == 2,
        ;
    } else {
        let c = (b - 1) as nat;
        lemma_first_grows(l, a, c);
        lemma_pow2_unfold((b - a) as nat);
        let p = pow2((c - a) as nat);
        assert((b - a) as nat - 1 == (c - a) as nat);
        assert(t * (2 * p) == 2 * (t * p)) by (nonlinear_arith);
        assert(first_code(l, b) >= 2 * first_code(l, c));
        assert(t * pow2((b - a) as nat) == 2 * (t * p));
    }
}

proof fn lemma_count_strict(l: Seq<u8>, s: int, t: int, b: nat)
    requires
        0 <= s < t <= l.len(),
        l[s] == b,
    ensures
        count_len(l, s, b) < count_len(l, t, b),
    decreases t,
{
    if s + 1 < t {
        lemma_count_strict(l, s, t - 1, b);
    }
}

proof fn lemma_word_number(l: Seq<u8>, s: int)
    requires
        fits(l),
        0 <= s < l.len(),
        l[s] > 0,
    ensures
        code_number(l, s) < first_code(l, l[s] as nat) + count_len(
            l,
            l.len() as int,
            l[s] as nat,
        ) <= pow2(l[s] as nat),
{
    lemma_count_strict(l, s, l.len() as int, l[s] as nat);
    lemma_number_fits(l, l[s] as nat);
}

/// No word is the start of another, and no two symbols share one.
pub proof fn law_prefix_free(l: Seq<u8>, s: int, t: int)
    requires
        fits(l),
        0 <= s < l.len(),
        0 <= t < l.len(),
        0 < l[t] <= l[s],
        s != t,
    ensures
        codeword(l, s).subrange(0, l[t] as int) != codeword(l, t),
{
    let a = l[t] as nat;
    let b = l[s] as nat;
    lemma_word_number(l, s);
    lemma_word_number(l, t);
    let vs = code_number(l, s);
    let vt = code_number(l, t);
    let d = (b - a) as nat;
    lemma_word_prefix(vs, b, a);
    lemma_pow2_pos(d);
    if a == b {
        vstd::arithmetic::power2::lemma2_to64();
        assert(vs / pow2(0) == vs);
        if s < t {
            lemma_count_strict(l, s, t, a);
        } else {
            lemma_count_strict(l, t, s, a);
        }
        if codeword(l, s).subrange(0, a as int) == codeword(l, t) {
            lemma_word_injective(vs, vt, a);
        }
    } else {
        lemma_first_grows(l, a, b);
        let f = first_code(l, a) + count_len(l, l.len() as int, a);
        let u = vs / pow2(d);
        assert(u >= f) by (nonlinear_arith)
            requires
                vs >= f * pow2(d),
                u == vs / pow2(d),
                pow2(d) > 0,
        ;
        lemma_pow2_adds(a, d);
        assert(u < pow2(a)) by (nonlinear_arith)
            requires
                vs < pow2(b),
                pow2(b) == pow2(a) * pow2(d),
                u == vs / pow2(d),
                pow2(d) > 0,
        ;
        if codeword(l, s).subrange(0, a as int) == codeword(l, t) {
            lemma_word_injective(u, vt, a);
        }
    }
}

proof fn lemma_no_match(l: Seq<u8>, w: Seq<bool>, upto: int)
    requires
        0 <= upto <= l.len(),
        forall|t: int|
            0 <= t < upto && l[t] == w.len() ==> #[trigger] codeword(l, t) != w,
    ensures
        last_match(l, w, upto) is None,
    decreases upto,
{
    if upto > 0 {
        lemma_no_match(l, w, upto - 1);
    }
}

proof fn lemma_only_match(l: Seq<u8>, w: Seq<bool>, upto: int, s: int)
    requires
        0 <= s < upto <= l.len(),
        l[s] == w.len(),
        codeword(l, s) == w,
        forall|t: int|
            0 <= t < upto && l[t] == w.len() && t != s ==> #[trigger] codeword(l, t) != w,
    ensures
        last_match(l, w, upto) == Some(s as nat),
    decreases upto,
{
    if upto - 1 != s {
        lemma_only_match(l, w, upto - 1, s);
    }
}

proof fn lemma_match_from(l: Seq<u8>, s: int, rest: Seq<bool>, len: nat)
    requires
        fits(l),
        0 <= s < l.len(),
        1 <= len <= l[s],
    ensures
        match_from(l, codeword(l, s) + rest, len) == Some((s as nat, rest)),
    decreases l[s] - len,
{
    let w = codeword(l, s);
    lemma_word_len(code_number(l, s), l[s] as nat);
    let x = peek_bits(w + rest, len);
    assert(x =~= w.subrange(0, len as int));
    if len < l[s] {
        assert forall|t: int| 0 <= t < l.len() && l[t] == x.len() implies #[trigger] codeword(l, t)
            != x by {
            law_prefix_free(l, s, t);
        }
        lemma_no_match(l, x, l.len() as int);
        lemma_match_from(l, s, rest, len + 1);
    } else {
        assert(x =~= w);
        assert forall|t: int|
            0 <= t < l.len() && l[t] == x.len() && t != s implies #[trigger] codeword(l, t)
            != x by {
            law_prefix_free(l, s, t);
        }
        lemma_only_match(l, x, l.len() as int, s);
        lemma_peek_prefix(w, rest);
    }
}

/// A word in front of a stream decodes to its symbol and leaves the stream.
pub proof fn law_decode_codeword(l: Seq<u8>, s: int, rest: Seq<bool>)
    requires
        fits(l),
        0 <= s < l.len(),
        l[s] > 0,
    ensures
        decode_symbol(Code::Lengths(l), codeword(l, s) + rest) == Some((s as nat, rest)),
{
    lemma_match_from(l, s, rest, 1);
}

// ── decoder ─────────────────────────────────────────────────────────────────

/// A decode table: words, found by length and number, to symbols.
pub struct Huff {
    map: HashMap<u32, u16>,
    max_len: u8,
    single: Option<u16>,
    lengths: Ghost<Seq<u8>>,
}

spec fn key_of(len: nat, code: nat) -> u32 {
    (len * 0x10000 + code) as u32
}

proof fn lemma_match_is_symbol(l: Seq<u8>, w: Seq<bool>, upto: int)
    requires
        upto <= l.len(),
    ensures
        last_match(l, w, upto) matches Some(s) ==> s < upto && l[s as int] == w.len() && codeword(
            l,
            s as int,
        ) == w,
    decreases upto,
{
    if upto > 0 {
        lemma_match_is_symbol(l, w, upto - 1);
    }
}

proof fn lemma_match_from_long(l: Seq<u8>, s: Seq<bool>, len: nat)
    requires
        forall|i: int| 0 <= i < l.len() ==> #[trigger] l[i] < len,
    ensures
        match_from(l, s, len) is None,
    decreases MAX_LEN + 1 - len,
{
    if len <= MAX_LEN {
        let w = peek_bits(s, len);
        lemma_match_is_symbol(l, w, l.len() as int);
        lemma_match_from_long(l, s, len + 1);
    }
}

/// A decoded symbol belongs to the alphabet.
pub proof fn lemma_symbol_in_alphabet(c: Code, n: nat, s: Seq<bool>)
    requires
        in_alphabet(c, n),
    ensures
        decode_symbol(c, s) matches Some(r) ==> r.0 < n,
{
    if let Code::Lengths(l) = c {
        lemma_match_from_alphabet(l, s, 1);
    }
}

proof fn lemma_match_from_alphabet(l: Seq<u8>, s: Seq<bool>, len: nat)
    ensures
        match_from(l, s, len) matches Some(r) ==> r.0 < l.len(),
    decreases MAX_LEN + 1 - len,
{
    if len <= MAX_LEN {
        lemma_match_is_symbol(l, peek_bits(s, len), l.len() as int);
        lemma_match_from_alphabet(l, s, len + 1);
    }
}

impl View for Huff {
    type V = Code;

    closed spec fn view(&self) -> Code {
        match self.single {
            Some(s) => Code::Single(s as nat),
            None => Code::Lengths(self.lengths@),
        }
    }
}

impl Huff {
    spec fn table_upto(map: Map<u32, u16>, l: Seq<u8>, upto: int) -> bool {
        forall|len: nat, c: nat|
            1 <= len <= MAX_LEN && c < pow2(len) ==> match last_match(l, bits_of(c, len), upto) {
                Some(s) => map.contains_key(#[trigger] key_of(len, c)) && map[key_of(len, c)] == s,
                None => !map.contains_key(key_of(len, c)),
            }
    }

    pub closed spec fn wf(&self) -> bool {
        self.single is None ==> {
            &&& lengths_ok(self.lengths@)
            &&& self.max_len <= MAX_LEN
            &&& forall|i: int|
                0 <= i < self.lengths@.len() ==> #[trigger] self.lengths@[i] <= self.max_len
            &&& Self::table_upto(self.map@, self.lengths@, self.lengths@.len() as int)
        }
    }

    /// The table of the canonical code with these word lengths.
    pub fn from_lengths(lengths: &[u8]) -> (h: Huff)
        requires
            lengths_ok(lengths@),
        ensures
            h.wf(),
            h@ == Code::Lengths(lengths@),
    {
        let codes: Vec<u16> = canonical_codes(lengths);
        let ghost l = lengths@;
        let mut map: HashMap<u32, u16> = HashMap::new();
        let mut max_len: u8 = 0;
        let mut i: usize = 0;
        while i < lengths.len()
            invariant
                i <= lengths.len(),
                l == lengths@,
                lengths_ok(l),
                max_len <= MAX_LEN,
                codes@.len() == l.len(),
                forall|j: int| 0 <= j < l.len() ==> #[trigger] codes@[j] < pow2(l[j] as nat),
                forall|j: int|
                    0 <= j < l.len() ==> bits_of(#[trigger] codes@[j] as nat, l[j] as nat)
                        == codeword(l, j),
                forall|j: int| 0 <= j < i ==> #[trigger] l[j] <= max_len,
                Self::table_upto(map@, l, i as int),
            decreases lengths.len() - i,
        {
            let b: u8 = lengths[i];
            let c: u16 = codes[i];
            let ghost before = map@;
            if b > 0 {
                let key: u32 = (b as u32) * 0x10000 + (c as u32);
                map.insert(key, i as u16);
                if b > max_len {
                    max_len = b;
                }
            }
            proof {
                assert forall|len: nat, d: nat| 1 <= len <= MAX_LEN && d < pow2(len) implies (
                match last_match(l, bits_of(d, len), i + 1) {
                    Some(s) => map@.contains_key(#[trigger] key_of(len, d)) && map@[key_of(len, d)]
                        == s,
                    None => !map@.contains_key(key_of(len, d)),
                }) by {
                    vstd::arithmetic::power2::lemma2_to64();
                    lemma_pow2_strictly_increases(len, 16);
                    lemma_bits_of_len(d, len);
                    assert(key_of(len, d) == len * 0x10000 + d);
                    if b > 0 {
                        lemma_pow2_strictly_increases(b as nat, 16);
                        if key_of(len, d) == key_of(b as nat, c as nat) {
                            assert(len == b && d == c);
                        } else if len == b {
                            lemma_value_of_bits(d, len);
                            lemma_value_of_bits(c as nat, len);
                            assert(bits_of(d, len) != codeword(l, i as int));
                        }
                    }
                    assert(before.contains_key(key_of(len, d)) <==> last_match(
                        l,
                        bits_of(d, len),
                        i as int,
                    ) is Some);
                }
            }
            i = i + 1;
        }
        Huff { map, max_len, single: None, lengths: Ghost(l) }
    }

    /// A code whose one symbol takes no bits.
    pub fn single(sym: u16) -> (h: Huff)
        ensures
            h.wf(),
            h@ == Code::Single(sym as nat),
    {
        Huff { map: HashMap::new(), max_len: 0, single: Some(sym), lengths: Ghost(Seq::empty()) }
    }

    /// Read one symbol. `None` when no word matches.
    pub fn decode(&self, r: &mut BitR) -> (sym: Option<u16>)
        requires
            self.wf(),
            old(r).wf(),
        ensures
            final(r).wf(),
            match decode_symbol(self@, old(r)@) {
                Some(d) => sym == Some(d.0 as u16) && d.0 <= 0xFFFF && final(r)@ == d.1,
                None => sym is None,
            },
    {
        if let Some(s) = self.single {
            return Some(s);
        }
        let ghost l = self.lengths@;
        let ghost s = r@;
        let mut code: u32 = 0;
        let mut len: u8 = 1;
        proof {
            assert(peek_bits(s, 0) =~= Seq::empty());
            assert(skip_bits(s, 0) =~= s);
        }
        while len <= self.max_len
            invariant
                self.wf(),
                self.single is None,
                l == self.lengths@,
                s == old(r)@,
                1 <= len <= self.max_len + 1,
                r.wf(),
                r@ == skip_bits(s, (len - 1) as nat),
                code == value_of(peek_bits(s, (len - 1) as nat)),
                decode_symbol(self@, s) == match_from(l, s, len as nat),
            decreases self.max_len + 1 - len,
        {
            let ghost head = peek_bits(s, (len - 1) as nat);
            let b: u32 = r.read(1);
            proof {
                let bit = peek_bits(skip_bits(s, (len - 1) as nat), 1);
                assert(peek_bits(s, len as nat) =~= head.push(bit[0]));
                assert(bit.drop_first() =~= Seq::empty());
                reveal_with_fuel(value_of, 2);
                assert(value_of(bit) == if bit[0] {
                    1nat
                } else {
                    0nat
                });
                lemma_value_of_push(head, bit[0]);
                lemma_value_bound(head);
                lemma_skip_skip(s, (len - 1) as nat, 1);
                lemma_value_bound(peek_bits(s, len as nat));
                lemma_bits_of_value(peek_bits(s, len as nat));
                vstd::arithmetic::power2::lemma2_to64();
                lemma_pow2_strictly_increases((len - 1) as nat, 15);
                vstd::bits::lemma_u32_shl_is_mul(1u32, (len - 1) as u32);
                lemma_pow2_strictly_increases(len as nat, 16);
            }
            if b == 1 {
                code = code + (1u32 << (len - 1));
            }
            let key: u32 = (len as u32) * 0x10000 + code;
            assert(key == key_of(len as nat, code as nat));
            proof {
                lemma_match_is_symbol(l, peek_bits(s, len as nat), l.len() as int);
            }
            if let Some(sym) = self.map.get(&key) {
                return Some(*sym);
            }
            len = len + 1;
        }
        proof {
            lemma_match_from_long(l, s, len as nat);
        }
        None
    }
}

} // verus!
