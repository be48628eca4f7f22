//! Prefix codes as they stand in a lossless WebP stream.
//!
//! Word lengths are run-length encoded into tokens, and the tokens are written
//! with a small prefix code of their own, whose word lengths come first.
use super::bits::{
    bits_of, lemma_bits_of_len, lemma_read_back, peek_value, skip_bits, BitR, BitW,
};
use super::code_lengths::{
    code_lengths, huffman_lengths, lemma_code_lengths, lemma_leaves_len,
};
use super::huffman::{
    canonical_codes, codeword, decode_symbol, fits, law_decode_codeword, lemma_symbol_in_alphabet,
    lengths_ok, Code, Huff,
};
use vstd::arithmetic::power2::{lemma_pow2_strictly_increases, pow2};
use vstd::prelude::*;

verus! {

/// The order in which the word lengths of the token code are stored.
pub const CODE_LENGTH_ORDER: [usize; 19] = [
    17,
    18,
    0,
    1,
    2,
    3,
    4,
    5,
    16,
    6,
    7,
    8,
    9,
    10,
    11,
    12,
    13,
    14,
    15,
];

/// A token of the run-length code: a symbol and the number in its extra bits.
pub type Token = (u8, u32);

/// How many extra bits follow a symbol of the token code.
pub open spec fn extra_bits(sym: nat) -> nat {
    if sym == 16 {
        2
    } else if sym == 17 {
        3
    } else if sym == 18 {
        7
    } else {
        0
    }
}

// ── run-length code ─────────────────────────────────────────────────────────

/// How many entries from `i` on equal entry `i`.
pub open spec fn run_len(l: Seq<u8>, i: int) -> nat
    decreases l.len() - i,
{
    if i + 1 < l.len() && l[i + 1] == l[i] {
        1 + run_len(l, i + 1)
    } else {
        1
    }
}

pub open spec fn literals(v: u8, n: nat) -> Seq<Token> {
    Seq::new(n, |i: int| (v, 0u32))
}

/// Tokens for `n` zeros.
pub open spec fn zero_tokens(n: nat) -> Seq<Token>
    decreases n,
{
    if n >= 11 {
        let take = if n < 138 {
            n
        } else {
            138
        };
        seq![(18u8, (take - 11) as u32)] + zero_tokens((n - take) as nat)
    } else if n >= 3 {
        let take = if n < 10 {
            n
        } else {
            10
        };
        seq![(17u8, (take - 3) as u32)] + zero_tokens((n - take) as nat)
    } else {
        literals(0, n)
    }
}

/// Tokens for `n` more copies of `v`, with repeat tokens or without.
pub open spec fn repeat_tokens(v: u8, n: nat, repeats: bool) -> Seq<Token>
    decreases n,
{
    if repeats && n >= 3 {
        let take = if n < 6 {
            n
        } else {
            6
        };
        seq![(16u8, (take - 3) as u32)] + repeat_tokens(v, (n - take) as nat, repeats)
    } else {
        literals(v, n)
    }
}

/// Tokens for a run of `n` entries `v`; `prev` is the last entry before it that
/// was not zero.
pub open spec fn run_tokens(v: u8, n: nat, prev: u8) -> Seq<Token> {
    if v == 0 {
        zero_tokens(n)
    } else {
        seq![(v, 0u32)] + repeat_tokens(v, (n - 1) as nat, v == prev)
    }
}

/// Tokens for the entries from `i` on.
pub open spec fn tokens_from(l: Seq<u8>, i: int, prev: u8) -> Seq<Token>
    decreases l.len() - i,
{
    if i < 0 || i >= l.len() {
        Seq::empty()
    } else {
        let n = run_len(l, i);
        proof {
            lemma_run_len(l, i);
        }
        run_tokens(l[i], n, prev) + tokens_from(
            l,
            i + n,
            if l[i] == 0 {
                prev
            } else {
                l[i]
            },
        )
    }
}

/// The tokens of a list of word lengths.
pub open spec fn tokens(l: Seq<u8>) -> Seq<Token> {
    tokens_from(l, 0, 8)
}

pub open spec fn copies(v: u8, n: nat) -> Seq<u8> {
    Seq::new(n, |i: int| v)
}

/// What one token appends.
pub open spec fn token_entries(t: Token, prev: u8) -> Seq<u8> {
    if t.0 <= 15 {
        seq![t.0]
    } else if t.0 == 16 {
        copies(prev, (3 + t.1) as nat)
    } else if t.0 == 17 {
        copies(0, (3 + t.1) as nat)
    } else {
        copies(0, (11 + t.1) as nat)
    }
}

/// The last entry that was not zero, after one more token.
pub open spec fn token_prev(t: Token, prev: u8) -> u8 {
    if 1 <= t.0 <= 15 {
        t.0
    } else {
        prev
    }
}

/// The entries that tokens stand for.
pub open spec fn expand(ts: Seq<Token>, prev: u8) -> Seq<u8>
    decreases ts.len(),
{
    if ts.len() == 0 {
        Seq::empty()
    } else {
        token_entries(ts[0], prev) + expand(ts.drop_first(), token_prev(ts[0], prev))
    }
}

/// The last entry that was not zero, after all tokens.
pub open spec fn prev_after(ts: Seq<Token>, prev: u8) -> u8
    decreases ts.len(),
{
    if ts.len() == 0 {
        prev
    } else {
        prev_after(ts.drop_first(), token_prev(ts[0], prev))
    }
}

/// The extra bits of a token hold its number.
pub open spec fn token_ok(t: Token) -> bool {
    t.0 <= 18 && t.1 < pow2(extra_bits(t.0 as nat))
}

proof fn lemma_expand_concat(a: Seq<Token>, b: Seq<Token>, prev: u8)
    ensures
        expand(a + b, prev) == expand(a, prev) + expand(b, prev_after(a, prev)),
        prev_after(a + b, prev) == prev_after(b, prev_after(a, prev)),
    decreases a.len(),
{
    if a.len() == 0 {
        assert(a + b =~= b);
        assert(expand(a, prev) + expand(b, prev) =~= expand(b, prev));
    } else {
        lemma_expand_concat(a.drop_first(), b, token_prev(a[0], prev));
        assert((a + b).drop_first() =~= a.drop_first() + b);
        assert(expand(a + b, prev) =~= expand(a, prev) + expand(b, prev_after(a, prev)));
    }
}

proof fn lemma_expand_one(t: Token, ts: Seq<Token>, prev: u8)
    ensures
        expand(seq![t] + ts, prev) == token_entries(t, prev) + expand(ts, token_prev(t, prev)),
        prev_after(seq![t] + ts, prev) == prev_after(ts, token_prev(t, prev)),
{
    assert((seq![t] + ts).drop_first() =~= ts);
}

proof fn lemma_expand_literals(v: u8, n: nat, prev: u8)
    requires
        v <= 15,
    ensures
        expand(literals(v, n), prev) == copies(v, n),
        prev_after(literals(v, n), prev) == if v == 0 || n == 0 {
            prev
        } else {
            v
        },
    decreases n,
{
    if n == 0 {
        assert(expand(literals(v, n), prev) =~= copies(v, n));
    } else {
        let m = (n - 1) as nat;
        let p = if v == 0 {
            prev
        } else {
            v
        };
        lemma_expand_literals(v, m, p);
        assert(literals(v, n) =~= seq![(v, 0u32)] + literals(v, m));
        lemma_expand_one((v, 0u32), literals(v, m), prev);
        assert(seq![v] + copies(v, m) =~= copies(v, n));
    }
}

proof fn lemma_expand_zeros(n: nat, prev: u8)
    ensures
        expand(zero_tokens(n), prev) == copies(0, n),
        prev_after(zero_tokens(n), prev) == prev,
        forall|i: int|
            0 <= i < zero_tokens(n).len() ==> token_ok(#[trigger] zero_tokens(n)[i]),
    decreases n,
{
    vstd::arithmetic::power2::lemma2_to64();
    if n >= 11 {
        let take: nat = if n < 138 {
            n
        } else {
            138
        };
        let rest = (n - take) as nat;
        lemma_expand_zeros(rest, prev);
        lemma_expand_one((18u8, (take - 11) as u32), zero_tokens(rest), prev);
        assert(copies(0, take) + copies(0, rest) =~= copies(0, n));
    } else if n >= 3 {
        let take: nat = if n < 10 {
            n
        } else {
            10
        };
        let rest = (n - take) as nat;
        lemma_expand_zeros(rest, prev);
        lemma_expand_one((17u8, (take - 3) as u32), zero_tokens(rest), prev);
        assert(copies(0, take) + copies(0, rest) =~= copies(0, n));
    } else {
        lemma_expand_literals(0, n, prev);
    }
}

proof fn lemma_expand_repeats(v: u8, n: nat, repeats: bool)
    requires
        0 < v <= 15,
    ensures
        expand(repeat_tokens(v, n, repeats), v) == copies(v, n),
        prev_after(repeat_tokens(v, n, repeats), v) == v,
        forall|i: int|
            0 <= i < repeat_tokens(v, n, repeats).len() ==> token_ok(
                #[trigger] repeat_tokens(v, n, repeats)[i],
            ),
    decreases n,
{
    vstd::arithmetic::power2::lemma2_to64();
    if repeats && n >= 3 {
        let take: nat = if n < 6 {
            n
        } else {
            6
        };
        let rest = (n - take) as nat;
        lemma_expand_repeats(v, rest, repeats);
        lemma_expand_one((16u8, (take - 3) as u32), repeat_tokens(v, rest, repeats), v);
        assert(copies(v, take) + copies(v, rest) =~= copies(v, n));
    } else {
        lemma_expand_literals(v, n, v);
    }
}

pub proof fn lemma_run_len(l: Seq<u8>, i: int)
    requires
        0 <= i < l.len(),
    ensures
        1 <= run_len(l, i) <= l.len() - i,
        forall|k: int| i <= k < i + run_len(l, i) ==> #[trigger] l[k] == l[i],
    decreases l.len() - i,
{
    if i + 1 < l.len() && l[i + 1] == l[i] {
        lemma_run_len(l, i + 1);
    }
}

proof fn lemma_expand_run(v: u8, n: nat, prev: u8)
    requires
        v <= 15,
        n >= 1,
    ensures
        expand(run_tokens(v, n, prev), prev) == copies(v, n),
        prev_after(run_tokens(v, n, prev), prev) == if v == 0 {
            prev
        } else {
            v
        },
        forall|i: int|
            0 <= i < run_tokens(v, n, prev).len() ==> token_ok(
                #[trigger] run_tokens(v, n, prev)[i],
            ),
{
    vstd::arithmetic::power2::lemma2_to64();
    if v == 0 {
        lemma_expand_zeros(n, prev);
    } else {
        let m = (n - 1) as nat;
        lemma_expand_repeats(v, m, v == prev);
        lemma_expand_one((v, 0u32), repeat_tokens(v, m, v == prev), prev);
        assert(seq![v] + copies(v, m) =~= copies(v, n));
    }
}

proof fn lemma_expand_tokens(l: Seq<u8>, i: int, prev: u8)
    requires
        lengths_ok(l),
        0 <= i <= l.len(),
    ensures
        expand(tokens_from(l, i, prev), prev) == l.skip(i),
        forall|k: int|
            0 <= k < tokens_from(l, i, prev).len() ==> token_ok(
                #[trigger] tokens_from(l, i, prev)[k],
            ),
    decreases l.len() - i,
{
    if i < l.len() {
        let n = run_len(l, i);
        lemma_run_len(l, i);
        let next = if l[i] == 0 {
            prev
        } else {
            l[i]
        };
        lemma_expand_run(l[i], n, prev);
        lemma_expand_tokens(l, i + n, next);
        lemma_expand_concat(run_tokens(l[i], n, prev), tokens_from(l, i + n, next), prev);
        assert(copies(l[i], n) + l.skip(i + n) =~= l.skip(i));
    } else {
        assert(l.skip(i) =~= Seq::empty());
    }
}

/// Expanding the tokens of a list gives the list.
pub proof fn law_expand_tokens(l: Seq<u8>)
    requires
        lengths_ok(l),
    ensures
        expand(tokens(l), 8) == l,
{
    lemma_expand_tokens(l, 0, 8);
    assert(l.skip(0) =~= l);
}

fn push_literals(out: &mut Vec<Token>, v: u8, n: usize)
    ensures
        final(out)@ == old(out)@ + literals(v, n as nat),
{
    let ghost out0 = out@;
    let mut k: usize = 0;
    assert(out@ =~= out0 + literals(v, 0));
    while k < n
        invariant
            k <= n,
            out@ == out0 + literals(v, k as nat),
        decreases n - k,
    {
        out.push((v, 0));
        k = k + 1;
        assert(out@ =~= out0 + literals(v, k as nat));
    }
}

/// Run-length encode word lengths: symbols up to 15 stand for themselves, 16
/// repeats the previous length that was not zero, 17 and 18 stand for runs of
/// zeros.
pub fn rle_lengths(lengths: &[u8]) -> (out: Vec<Token>)
    requires
        lengths_ok(lengths@),
    ensures
        out@ == tokens(lengths@),
{
    let ghost l = lengths@;
    let mut out: Vec<Token> = Vec::new();
    let mut i: usize = 0;
    let mut prev: u8 = 8;
    assert(out@ + tokens_from(l, 0, 8) =~= tokens(l));
    while i < lengths.len()
        invariant
            i <= lengths.len() <= 0xFFFF,
            l == lengths@,
            out@ + tokens_from(l, i as int, prev) == tokens(l),
        decreases lengths.len() - i,
    {
        let ghost out0 = out@;
        let ghost prev0 = prev;
        let v: u8 = lengths[i];
        let mut run: usize = 1;
        proof {
            lemma_run_len(l, i as int);
        }
        while i + run < lengths.len() && lengths[i + run] == v
            invariant
                i + run <= lengths.len() <= 0xFFFF,
                1 <= run,
                l == lengths@,
                v == l[i as int],
                l[i + run - 1] == v,
                run_len(l, i as int) == run - 1 + run_len(l, i + run - 1),
            decreases lengths.len() - run,
        {
            run = run + 1;
        }
        assert(run == run_len(l, i as int));
        if v == 0 {
            let mut rem: usize = run;
            assert(out@ + zero_tokens(rem as nat) =~= out0 + zero_tokens(run as nat));
            while rem >= 11
                invariant
                    out@ + zero_tokens(rem as nat) == out0 + zero_tokens(run as nat),
                decreases rem,
            {
                let take: usize = if rem < 138 {
                    rem
                } else {
                    138
                };
                let ghost cur = out@;
                out.push((18, (take - 11) as u32));
                assert(out@ + zero_tokens((rem - take) as nat) =~= cur + zero_tokens(rem as nat));
                rem = rem - take;
            }
            while rem >= 3
                invariant
                    rem < 11,
                    out@ + zero_tokens(rem as nat) == out0 + zero_tokens(run as nat),
                decreases rem,
            {
                let take: usize = if rem < 10 {
                    rem
                } else {
                    10
                };
                let ghost cur = out@;
                out.push((17, (take - 3) as u32));
                assert(out@ + zero_tokens((rem - take) as nat) =~= cur + zero_tokens(rem as nat));
                rem = rem - take;
            }
            push_literals(&mut out, 0, rem);
        } else {
            out.push((v, 0));
            let mut rem: usize = run - 1;
            let ghost same = v == prev0;
            let ghost goal = out0 + run_tokens(v, run as nat, prev0);
            assert(out@ + repeat_tokens(v, rem as nat, same) =~= goal);
            if v == prev {
                while rem >= 3
                    invariant
                        same,
                        out@ + repeat_tokens(v, rem as nat, same) == goal,
                    decreases rem,
                {
                    let take: usize = if rem < 6 {
                        rem
                    } else {
                        6
                    };
                    let ghost cur = out@;
                    out.push((16, (take - 3) as u32));
                    assert(out@ + repeat_tokens(v, (rem - take) as nat, same) =~= cur
                        + repeat_tokens(v, rem as nat, same));
                    rem = rem - take;
                }
            }
            push_literals(&mut out, v, rem);
            prev = v;
        }
        assert(out@ =~= out0 + run_tokens(v, run as nat, prev0));
        assert(out@ + tokens_from(l, i + run, prev) =~= out0 + tokens_from(l, i as int, prev0));
        i = i + run;
    }
    assert(out@ =~= tokens(l));
    out
}

// ── writing ─────────────────────────────────────────────────────────────────

/// How many of the first `upto` tokens have symbol `s`.
pub open spec fn count_symbol(ts: Seq<Token>, upto: int, s: int) -> nat
    decreases upto,
{
    if upto <= 0 {
        0
    } else {
        count_symbol(ts, upto - 1, s) + (if ts[upto - 1].0 == s {
            1nat
        } else {
            0nat
        })
    }
}

/// The frequencies of the token symbols.
pub open spec fn token_freq(ts: Seq<Token>) -> Seq<u32> {
    Seq::new(19, |s: int| count_symbol(ts, ts.len() as int, s) as u32)
}

/// The word lengths of the token code.
pub open spec fn token_code(ts: Seq<Token>) -> Seq<u8> {
    code_lengths(token_freq(ts), 7)
}

/// How many of the stored word lengths are left when zeros at the end go,
/// though never fewer than four.
pub open spec fn trimmed(cl: Seq<u8>, n: nat) -> nat
    decreases n,
{
    if n > 4 && cl[CODE_LENGTH_ORDER@[n - 1] as int] == 0 {
        trimmed(cl, (n - 1) as nat)
    } else {
        n
    }
}

/// The first `n` stored word lengths of the token code.
pub open spec fn order_bits(cl: Seq<u8>, n: nat) -> Seq<bool>
    decreases n,
{
    if n == 0 {
        Seq::empty()
    } else {
        order_bits(cl, (n - 1) as nat) + bits_of(cl[CODE_LENGTH_ORDER@[n - 1] as int] as nat, 3)
    }
}

pub open spec fn token_bits(cl: Seq<u8>, t: Token) -> Seq<bool> {
    codeword(cl, t.0 as int) + bits_of(t.1 as nat, extra_bits(t.0 as nat))
}

/// The first `upto` tokens.
pub open spec fn tokens_bits(cl: Seq<u8>, ts: Seq<Token>, upto: int) -> Seq<bool>
    decreases upto,
{
    if upto <= 0 {
        Seq::empty()
    } else {
        tokens_bits(cl, ts, upto - 1) + token_bits(cl, ts[upto - 1])
    }
}

/// A prefix code as it stands in the stream.
pub open spec fn tree_bits(l: Seq<u8>) -> Seq<bool> {
    let ts = tokens(l);
    let cl = token_code(ts);
    let num = trimmed(cl, 19);
    bits_of(0, 1) + bits_of((num - 4) as nat, 4) + order_bits(cl, num) + bits_of(0, 1)
        + tokens_bits(cl, ts, ts.len() as int)
}

proof fn lemma_count_symbol(ts: Seq<Token>, upto: int, s: int)
    requires
        0 <= upto <= ts.len(),
    ensures
        count_symbol(ts, upto, s) <= upto,
        forall|k: int|
            0 <= k < upto && (#[trigger] ts[k]).0 == s ==> count_symbol(ts, upto, s) > 0,
    decreases upto,
{
    if upto > 0 {
        lemma_count_symbol(ts, upto - 1, s);
    }
}

proof fn lemma_tokens_short(l: Seq<u8>)
    requires
        lengths_ok(l),
    ensures
        tokens(l).len() <= l.len(),
{
    law_expand_tokens(l);
    lemma_expand_longer(tokens(l), 8);
}

proof fn lemma_expand_longer(ts: Seq<Token>, prev: u8)
    ensures
        ts.len() <= expand(ts, prev).len(),
    decreases ts.len(),
{
    if ts.len() > 0 {
        lemma_expand_longer(ts.drop_first(), token_prev(ts[0], prev));
    }
}

/// Every token has a word in the token code.
proof fn lemma_token_code(l: Seq<u8>)
    requires
        lengths_ok(l),
    ensures
        forall|k: int|
            0 <= k < tokens(l).len() ==> {
                &&& token_ok(#[trigger] tokens(l)[k])
                &&& token_freq(tokens(l))[tokens(l)[k].0 as int] > 0
            },
{
    let ts = tokens(l);
    lemma_expand_tokens(l, 0, 8);
    lemma_tokens_short(l);
    assert forall|k: int| 0 <= k < ts.len() implies token_ok(#[trigger] ts[k]) && token_freq(
        ts,
    )[ts[k].0 as int] > 0 by {
        lemma_count_symbol(ts, ts.len() as int, ts[k].0 as int);
    }
}

/// The lengths of the words that the tokens are written with.
fn token_lengths(rle: &Vec<Token>) -> (cl: Vec<u8>)
    requires
        rle@.len() <= 0xFFFF,
        forall|k: int| 0 <= k < rle@.len() ==> token_ok(#[trigger] rle@[k]),
    ensures
        cl@ == token_code(rle@),
        cl@.len() == 19,
        forall|j: int| 0 <= j < 19 ==> #[trigger] cl@[j] <= 7,
{
    let ghost ts = rle@;
    let mut freq: Vec<u32> = vec![0u32; 19];
    let mut i: usize = 0;
    while i < rle.len()
        invariant
            i <= rle.len() <= 0xFFFF,
            ts == rle@,
            freq@.len() == 19,
            forall|k: int| 0 <= k < ts.len() ==> token_ok(#[trigger] ts[k]),
            forall|s: int| 0 <= s < 19 ==> #[trigger] freq@[s] == count_symbol(ts, i as int, s),
        decreases rle.len() - i,
    {
        let s: usize = rle[i].0 as usize;
        proof {
            assert(token_ok(ts[i as int]));
            lemma_count_symbol(ts, i as int, s as int);
        }
        freq.set(s, freq[s] + 1);
        i = i + 1;
    }
    assert(freq@ =~= token_freq(ts));
    proof {
        vstd::arithmetic::power2::lemma2_to64();
        lemma_leaves_len(freq@, 19);
    }
    huffman_lengths(freq.as_slice(), 7)
}

/// Write a prefix code, given its word lengths.
pub fn write_tree(w: &mut BitW, lengths: &[u8])
    requires
        old(w).wf(),
        lengths_ok(lengths@),
    ensures
        final(w).wf(),
        final(w)@ == old(w)@ + tree_bits(lengths@),
{
    let ghost w0 = w@;
    let ghost l = lengths@;
    proof {
        vstd::arithmetic::power2::lemma2_to64();
        lemma_token_code(l);
        lemma_tokens_short(l);
    }
    w.write(0, 1);
    let rle: Vec<Token> = rle_lengths(lengths);
    let ghost ts = rle@;
    let cl: Vec<u8> = token_lengths(&rle);
    let codes: Vec<u16> = canonical_codes(cl.as_slice());
    let mut num: usize = 19;
    while num > 4 && cl[CODE_LENGTH_ORDER[num - 1]] == 0
        invariant
            4 <= num <= 19,
            cl@.len() == 19,
            trimmed(cl@, num as nat) == trimmed(cl@, 19),
            forall|k: int| 0 <= k < 19 ==> #[trigger] CODE_LENGTH_ORDER@[k] < 19,
        decreases num,
    {
        num = num - 1;
    }
    w.write((num - 4) as u32, 4);
    let ghost w1 = w@;
    let mut k: usize = 0;
    assert(w@ =~= w1 + order_bits(cl@, 0));
    while k < num
        invariant
            k <= num <= 19,
            cl@.len() == 19,
            w.wf(),
            forall|j: int| 0 <= j < 19 ==> #[trigger] cl@[j] <= 7,
            forall|j: int| 0 <= j < 19 ==> #[trigger] CODE_LENGTH_ORDER@[j] < 19,
            w@ == w1 + order_bits(cl@, k as nat),
        decreases num - k,
    {
        let b: u8 = cl[CODE_LENGTH_ORDER[k]];
        proof {
            vstd::arithmetic::power2::lemma2_to64();
            assert(b <= 7);
        }
        w.write(b as u32, 3);
        k = k + 1;
        assert(w@ =~= w1 + order_bits(cl@, k as nat));
    }
    w.write(0, 1);
    let ghost w2 = w@;
    let mut i: usize = 0;
    assert(w@ =~= w2 + tokens_bits(cl@, ts, 0));
    while i < rle.len()
        invariant
            i <= rle.len() <= 0xFFFF,
            ts == rle@,
            cl@.len() == 19,
            codes@.len() == 19,
            lengths_ok(cl@),
            w.wf(),
            forall|k: int| 0 <= k < ts.len() ==> token_ok(#[trigger] ts[k]),
            forall|j: int| 0 <= j < 19 ==> #[trigger] codes@[j] < pow2(cl@[j] as nat),
            forall|j: int|
                0 <= j < 19 ==> bits_of(#[trigger] codes@[j] as nat, cl@[j] as nat) == codeword(
                    cl@,
                    j,
                ),
            w@ == w2 + tokens_bits(cl@, ts, i as int),
        decreases rle.len() - i,
    {
        let t: Token = rle[i];
        let s: usize = t.0 as usize;
        proof {
            assert(token_ok(ts[i as int]));
            vstd::arithmetic::div_mod::lemma_small_mod(
                codes@[s as int] as nat,
                pow2(cl@[s as int] as nat),
            );
            vstd::arithmetic::div_mod::lemma_small_mod(t.1 as nat, pow2(extra_bits(s as nat)));
        }
        w.write(codes[s] as u32, cl[s] as u32);
        if s == 16 {
            w.write(t.1, 2);
        } else if s == 17 {
            w.write(t.1, 3);
        } else if s == 18 {
            w.write(t.1, 7);
        } else {
            assert(bits_of(t.1 as nat, 0) =~= Seq::empty());
        }
        i = i + 1;
        assert(w@ =~= w2 + tokens_bits(cl@, ts, i as int));
    }
    assert(w@ =~= w0 + tree_bits(l));
}

// ── reading ─────────────────────────────────────────────────────────────────

/// `acc`, filled up with zeros to `n` entries.
pub open spec fn padded(acc: Seq<u8>, n: nat) -> Seq<u8> {
    Seq::new(n, |i: int| if i < acc.len() {
        acc[i]
    } else {
        0
    })
}

/// `acc` and `k` copies of `v`, no more than `n` entries in all.
pub open spec fn extended(acc: Seq<u8>, v: u8, k: nat, n: nat) -> Seq<u8> {
    acc + copies(
        v,
        if acc.len() + k <= n {
            k
        } else {
            (n - acc.len()) as nat
        },
    )
}

/// Read word lengths until there are `n` of them or `left` tokens are used up.
pub open spec fn parse_lengths(
    cl: Seq<u8>,
    s: Seq<bool>,
    n: nat,
    acc: Seq<u8>,
    prev: u8,
    left: nat,
) -> Option<(Seq<u8>, Seq<bool>)>
    decreases n - acc.len(),
{
    if acc.len() >= n || left == 0 {
        Some((padded(acc, n), s))
    } else {
        match decode_symbol(Code::Lengths(cl), s) {
            None => None,
            Some((sym, s1)) => {
                let rest = (left - 1) as nat;
                if sym <= 15 {
                    let p = if sym == 0 {
                        prev
                    } else {
                        sym as u8
                    };
                    parse_lengths(cl, s1, n, acc.push(sym as u8), p, rest)
                } else if sym == 16 {
                    let k = 3 + peek_value(s1, 2);
                    parse_lengths(cl, skip_bits(s1, 2), n, extended(acc, prev, k, n), prev, rest)
                } else if sym == 17 {
                    let k = 3 + peek_value(s1, 3);
                    parse_lengths(cl, skip_bits(s1, 3), n, extended(acc, 0, k, n), prev, rest)
                } else if sym == 18 {
                    let k = 11 + peek_value(s1, 7);
                    parse_lengths(cl, skip_bits(s1, 7), n, extended(acc, 0, k, n), prev, rest)
                } else {
                    None
                }
            },
        }
    }
}

/// The word lengths of the token code after the first `n` stored ones.
pub open spec fn parse_order(s: Seq<bool>, n: nat) -> Seq<u8>
    decreases n,
{
    if n == 0 {
        Seq::new(19, |i: int| 0u8)
    } else {
        parse_order(s, (n - 1) as nat).update(
            CODE_LENGTH_ORDER@[n - 1] as int,
            peek_value(skip_bits(s, (3 * (n - 1)) as nat), 3) as u8,
        )
    }
}

/// Mark symbol `sym` with a word of one bit, if the alphabet has it.
pub open spec fn marked(l: Seq<u8>, sym: nat) -> Seq<u8> {
    if sym < l.len() {
        l.update(sym as int, 1)
    } else {
        l
    }
}

/// A code of one symbol, which takes no bits, or of two, one bit each.
pub open spec fn parse_simple(s: Seq<bool>, n: nat) -> (Code, Seq<bool>) {
    let two = peek_value(s, 1) == 1;
    let wide = peek_value(skip_bits(s, 1), 1) == 1;
    let k: nat = if wide {
        8
    } else {
        1
    };
    let s1 = skip_bits(s, 2);
    let a = peek_value(s1, k);
    let s2 = skip_bits(s1, k);
    if two {
        let b = peek_value(s2, 8);
        (Code::Lengths(marked(marked(copies(0, n), a), b)), skip_bits(s2, 8))
    } else {
        (
            Code::Single(
                if a < n {
                    a
                } else if n > 0 {
                    (n - 1) as nat
                } else {
                    0
                },
            ),
            s2,
        )
    }
}

/// The number of tokens that follow.
pub open spec fn parse_max_symbol(s: Seq<bool>, n: nat) -> (nat, Seq<bool>) {
    if peek_value(s, 1) == 1 {
        let k = 2 + 2 * peek_value(skip_bits(s, 1), 3);
        let s1 = skip_bits(s, 4);
        (2 + peek_value(s1, k), skip_bits(s1, k))
    } else {
        (n, skip_bits(s, 1))
    }
}

/// A prefix code over `n` symbols.
pub open spec fn parse_tree(s: Seq<bool>, n: nat) -> Option<(Code, Seq<bool>)> {
    let s1 = skip_bits(s, 1);
    if peek_value(s, 1) == 1 {
        Some(parse_simple(s1, n))
    } else {
        let num = peek_value(s1, 4) + 4;
        let s2 = skip_bits(s1, 4);
        let cl = parse_order(s2, num);
        let s3 = skip_bits(s2, 3 * num);
        let (left, s4) = parse_max_symbol(s3, n);
        match parse_lengths(cl, s4, n, Seq::empty(), 8, left) {
            Some((l, rest)) => Some((Code::Lengths(l), rest)),
            None => None,
        }
    }
}

fn push_copies(out: &mut Vec<u8>, v: u8, k: usize, n: usize)
    requires
        old(out)@.len() <= n,
        n + k <= usize::MAX,
    ensures
        final(out)@ == extended(old(out)@, v, k as nat, n as nat),
{
    let ghost out0 = out@;
    let mut j: usize = 0;
    assert(out@ =~= out0 + copies(v, 0));
    while j < k && out.len() < n
        invariant
            j <= k,
            out@ == out0 + copies(v, j as nat),
            out@.len() <= n,
        decreases k - j,
    {
        out.push(v);
        j = j + 1;
        assert(out@ =~= out0 + copies(v, j as nat));
    }
}

fn read_simple(r: &mut BitR, alphabet: usize) -> (h: Huff)
    requires
        old(r).wf(),
        alphabet <= 0xFFFF,
    ensures
        final(r).wf(),
        h.wf(),
        h@ == parse_simple(old(r)@, alphabet as nat).0,
        final(r)@ == parse_simple(old(r)@, alphabet as nat).1,
{
    let ghost s = r@;
    proof {
        vstd::arithmetic::power2::lemma2_to64();
        super::bits::lemma_skip_skip(s, 1, 1);
    }
    let two: bool = r.read(1) == 1;
    let first_bits: u32 = if r.read(1) == 1 {
        8
    } else {
        1
    };
    let a: usize = r.read(first_bits) as usize;
    assert(a < 256);
    if !two {
        let sym: usize = if a < alphabet {
            a
        } else if alphabet > 0 {
            alphabet - 1
        } else {
            0
        };
        return Huff::single(sym as u16);
    }
    let mut lengths: Vec<u8> = vec![0u8; alphabet];
    assert(lengths@ =~= copies(0, alphabet as nat));
    if a < alphabet {
        lengths.set(a, 1);
    }
    let b: usize = r.read(8) as usize;
    if b < alphabet {
        lengths.set(b, 1);
    }
    Huff::from_lengths(lengths.as_slice())
}

/// Read a prefix code over `alphabet` symbols. `None` when a token cannot be
/// decoded.
pub fn read_tree(r: &mut BitR, alphabet: usize) -> (h: Option<Huff>)
    requires
        old(r).wf(),
        alphabet <= 0xFFFF,
    ensures
        final(r).wf(),
        match parse_tree(old(r)@, alphabet as nat) {
            Some(d) => h is Some && h->0.wf() && h->0@ == d.0 && final(r)@ == d.1,
            None => h is None,
        },
{
    let ghost n = alphabet as nat;
    proof {
        vstd::arithmetic::power2::lemma2_to64();
    }
    if r.read(1) == 1 {
        return Some(read_simple(r, alphabet));
    }
    let num: usize = (r.read(4) + 4) as usize;
    let ghost s2 = r@;
    let mut cl: Vec<u8> = vec![0u8; 19];
    let mut k: usize = 0;
    proof {
        assert(cl@ =~= parse_order(s2, 0));
        assert(skip_bits(s2, 0) =~= s2);
    }
    while k < num
        invariant
            k <= num <= 19,
            cl@ == parse_order(s2, k as nat),
            cl@.len() == 19,
            r.wf(),
            r@ == skip_bits(s2, (3 * k) as nat),
            forall|j: int| 0 <= j < 19 ==> #[trigger] cl@[j] <= 7,
            forall|j: int| 0 <= j < 19 ==> #[trigger] CODE_LENGTH_ORDER@[j] < 19,
        decreases num - k,
    {
        proof {
            vstd::arithmetic::power2::lemma2_to64();
            super::bits::lemma_skip_skip(s2, (3 * k) as nat, 3);
        }
        let b: u8 = r.read(3) as u8;
        cl.set(CODE_LENGTH_ORDER[k], b);
        k = k + 1;
    }
    let ghost s3 = r@;
    let code: Huff = Huff::from_lengths(cl.as_slice());
    proof {
        super::bits::lemma_skip_skip(s3, 1, 3);
    }
    let max_symbol: usize = if r.read(1) == 1 {
        let len: u32 = 2 + 2 * r.read(3);
        proof {
            if len < 16 {
                lemma_pow2_strictly_increases(len as nat, 16);
            }
        }
        2 + r.read(len) as usize
    } else {
        alphabet
    };
    let ghost s4 = r@;
    assert(parse_max_symbol(s3, n) == (max_symbol as nat, s4));
    let ghost goal = parse_lengths(cl@, s4, n, Seq::empty(), 8, max_symbol as nat);
    let mut lengths: Vec<u8> = Vec::new();
    let mut prev: u8 = 8;
    let mut left: usize = max_symbol;
    assert(lengths@ =~= Seq::empty());
    while lengths.len() < alphabet && left > 0
        invariant
            r.wf(),
            code.wf(),
            code@ == Code::Lengths(cl@),
            cl@.len() == 19,
            n == alphabet <= 0xFFFF,
            lengths@.len() <= alphabet,
            prev <= 15,
            forall|j: int| 0 <= j < lengths@.len() ==> #[trigger] lengths@[j] <= 15,
            parse_lengths(cl@, r@, n, lengths@, prev, left as nat) == goal,
            goal is None ==> parse_tree(old(r)@, n) is None,
        decreases alphabet - lengths@.len(),
    {
        let ghost acc = lengths@;
        proof {
            vstd::arithmetic::power2::lemma2_to64();
            lemma_symbol_in_alphabet(code@, 19, r@);
        }
        let sym: u16 = match code.decode(r) {
            Some(sym) => sym,
            None => {
                return None;
            },
        };
        left = left - 1;
        if sym <= 15 {
            lengths.push(sym as u8);
            if sym != 0 {
                prev = sym as u8;
            }
        } else if sym == 16 {
            let rep: usize = 3 + r.read(2) as usize;
            push_copies(&mut lengths, prev, rep, alphabet);
        } else if sym == 17 {
            let rep: usize = 3 + r.read(3) as usize;
            push_copies(&mut lengths, 0, rep, alphabet);
        } else if sym == 18 {
            let rep: usize = 11 + r.read(7) as usize;
            push_copies(&mut lengths, 0, rep, alphabet);
        } else {
            return None;
        }
    }
    let ghost acc = lengths@;
    let pad: usize = alphabet - lengths.len();
    push_copies(&mut lengths, 0, pad, alphabet);
    assert(lengths@ =~= padded(acc, n));
    Some(Huff::from_lengths(lengths.as_slice()))
}

// ── round trip ──────────────────────────────────────────────────────────────

proof fn lemma_order_bits_len(cl: Seq<u8>, n: nat)
    ensures
        order_bits(cl, n).len() == 3 * n,
    decreases n,
{
    if n > 0 {
        lemma_order_bits_len(cl, (n - 1) as nat);
        lemma_bits_of_len(cl[CODE_LENGTH_ORDER@[n - 1] as int] as nat, 3);
    }
}

/// The word lengths stored first, zero for the others.
spec fn stored(cl: Seq<u8>, n: nat) -> Seq<u8> {
    Seq::new(
        19,
        |i: int|
            if exists|k: int| 0 <= k < n && #[trigger] CODE_LENGTH_ORDER@[k] == i {
                cl[i]
            } else {
                0
            },
    )
}

proof fn lemma_parse_order(cl: Seq<u8>, m: nat, n: nat, rest: Seq<bool>)
    requires
        cl.len() == 19,
        forall|i: int| 0 <= i < 19 ==> #[trigger] cl[i] <= 7,
        m <= n <= 19,
    ensures
        parse_order(order_bits(cl, n) + rest, m) == stored(cl, m),
    decreases m,
{
    let s = order_bits(cl, n) + rest;
    if m == 0 {
        assert(parse_order(s, m) =~= stored(cl, m));
    } else {
        let a = (m - 1) as nat;
        let x = CODE_LENGTH_ORDER@[a as int] as int;
        lemma_parse_order(cl, a, n, rest);
        lemma_order_tail(cl, a, n);
        let tail = order_tail(cl, m, n);
        lemma_order_bits_len(cl, a);
        let f = bits_of(cl[x] as nat, 3);
        assert(s =~= order_bits(cl, a) + (f + (tail + rest)));
        super::bits::lemma_peek_prefix(order_bits(cl, a), f + (tail + rest));
        vstd::arithmetic::power2::lemma2_to64();
        assert(0 <= x < 19);
        lemma_read_back(cl[x] as nat, 3, tail + rest);
        assert forall|i: int| 0 <= i < 19 implies stored(cl, m)[i] == stored(cl, a).update(
            x,
            cl[x],
        )[i] by {
            if exists|k: int| 0 <= k < m && #[trigger] CODE_LENGTH_ORDER@[k] == i {
                let k = choose|k: int| 0 <= k < m && #[trigger] CODE_LENGTH_ORDER@[k] == i;
                if k < a {
                    assert(stored(cl, a)[i] == cl[i]);
                }
            }
            if i == x {
                assert(CODE_LENGTH_ORDER@[a as int] == i);
            }
        }
        assert(parse_order(s, m) =~= stored(cl, m));
    }
}

/// The stored word lengths from `m` to `n`.
spec fn order_tail(cl: Seq<u8>, m: nat, n: nat) -> Seq<bool>
    decreases n,
{
    if n <= m {
        Seq::empty()
    } else {
        order_tail(cl, m, (n - 1) as nat) + bits_of(cl[CODE_LENGTH_ORDER@[n - 1] as int] as nat, 3)
    }
}

proof fn lemma_order_tail(cl: Seq<u8>, a: nat, n: nat)
    requires
        a < n,
    ensures
        order_bits(cl, n) == order_bits(cl, a) + (bits_of(
            cl[CODE_LENGTH_ORDER@[a as int] as int] as nat,
            3,
        ) + order_tail(cl, a + 1, n)),
    decreases n,
{
    let f = bits_of(cl[CODE_LENGTH_ORDER@[a as int] as int] as nat, 3);
    if n == a + 1 {
        assert(order_bits(cl, n) =~= order_bits(cl, a) + (f + order_tail(cl, a + 1, n)));
    } else {
        lemma_order_tail(cl, a, (n - 1) as nat);
        assert(order_bits(cl, n) =~= order_bits(cl, a) + (f + order_tail(cl, a + 1, n)));
    }
}

proof fn lemma_trimmed(cl: Seq<u8>, n: nat)
    requires
        cl.len() == 19,
        4 <= n <= 19,
    ensures
        4 <= trimmed(cl, n) <= n,
        forall|k: int|
            trimmed(cl, n) <= k < n ==> cl[#[trigger] CODE_LENGTH_ORDER@[k] as int] == 0,
    decreases n,
{
    if n > 4 && cl[CODE_LENGTH_ORDER@[n - 1] as int] == 0 {
        lemma_trimmed(cl, (n - 1) as nat);
    }
}

/// The place at which a symbol's word length is stored.
spec fn place(i: int) -> int {
    if i == 17 {
        0
    } else if i == 18 {
        1
    } else if i <= 5 {
        i + 2
    } else if i == 16 {
        8
    } else {
        i + 3
    }
}

proof fn lemma_stored_all(cl: Seq<u8>)
    requires
        cl.len() == 19,
    ensures
        stored(cl, trimmed(cl, 19)) == cl,
{
    let n = trimmed(cl, 19);
    lemma_trimmed(cl, 19);
    assert forall|i: int| 0 <= i < 19 implies stored(cl, n)[i] == cl[i] by {
        let k = place(i);
        assert(0 <= k < 19 && CODE_LENGTH_ORDER@[k] == i);
    }
    assert(stored(cl, n) =~= cl);
}

/// The tokens from `i` on.
spec fn bits_from(cl: Seq<u8>, ts: Seq<Token>, i: int) -> Seq<bool>
    decreases ts.len() - i,
{
    if i < 0 || i >= ts.len() {
        Seq::empty()
    } else {
        token_bits(cl, ts[i]) + bits_from(cl, ts, i + 1)
    }
}

proof fn lemma_bits_from(cl: Seq<u8>, ts: Seq<Token>, i: int)
    requires
        0 <= i <= ts.len(),
    ensures
        tokens_bits(cl, ts, ts.len() as int) == tokens_bits(cl, ts, i) + bits_from(cl, ts, i),
    decreases ts.len() - i,
{
    if i < ts.len() {
        lemma_bits_from(cl, ts, i + 1);
        assert(tokens_bits(cl, ts, i + 1) == tokens_bits(cl, ts, i) + token_bits(cl, ts[i]));
        assert(tokens_bits(cl, ts, i) + bits_from(cl, ts, i) =~= tokens_bits(cl, ts, i + 1)
            + bits_from(cl, ts, i + 1));
    } else {
        assert(tokens_bits(cl, ts, i) + bits_from(cl, ts, i) =~= tokens_bits(cl, ts, i));
    }
}

proof fn lemma_parse_tokens(
    cl: Seq<u8>,
    ts: Seq<Token>,
    i: int,
    acc: Seq<u8>,
    prev: u8,
    n: nat,
    left: nat,
    rest: Seq<bool>,
)
    requires
        fits(cl),
        cl.len() == 19,
        0 <= i <= ts.len(),
        forall|k: int| 0 <= k < ts.len() ==> token_ok(#[trigger] ts[k]),
        forall|k: int| 0 <= k < ts.len() ==> cl[(#[trigger] ts[k]).0 as int] > 0,
        (acc + expand(ts.skip(i), prev)).len() == n,
        left >= ts.len() - i,
    ensures
        parse_lengths(cl, bits_from(cl, ts, i) + rest, n, acc, prev, left) == Some(
            (acc + expand(ts.skip(i), prev), rest),
        ),
    decreases ts.len() - i,
{
    let s = bits_from(cl, ts, i) + rest;
    if i == ts.len() {
        assert(ts.skip(i) =~= Seq::empty());
        assert(s =~= rest);
        assert(padded(acc, n) =~= acc + expand(ts.skip(i), prev));
    } else {
        let t = ts[i];
        let sym = t.0 as int;
        let after = bits_from(cl, ts, i + 1) + rest;
        let e = extra_bits(sym as nat);
        let x = bits_of(t.1 as nat, e);
        assert(token_ok(t));
        assert(s =~= codeword(cl, sym) + (x + after));
        law_decode_codeword(cl, sym, x + after);
        lemma_read_back(t.1 as nat, e, after);
        assert(ts.skip(i)[0] == t);
        assert(ts.skip(i).drop_first() =~= ts.skip(i + 1));
        lemma_expand_longer(ts.skip(i + 1), token_prev(t, prev));
        let add = token_entries(t, prev);
        let tail = expand(ts.skip(i + 1), token_prev(t, prev));
        assert(acc + expand(ts.skip(i), prev) =~= (acc + add) + tail);
        if sym <= 15 {
            assert(x + after =~= after);
            assert(acc.push(t.0) =~= acc + add);
        } else if sym == 16 {
            assert(extended(acc, prev, (3 + t.1) as nat, n) =~= acc + add);
        } else if sym == 17 {
            assert(extended(acc, 0, (3 + t.1) as nat, n) =~= acc + add);
        } else {
            assert(extended(acc, 0, (11 + t.1) as nat, n) =~= acc + add);
        }
        lemma_parse_tokens(
            cl,
            ts,
            i + 1,
            acc + add,
            token_prev(t, prev),
            n,
            (left - 1) as nat,
            rest,
        );
    }
}

/// A prefix code written in front of a stream reads back as that code and
/// leaves the stream.
pub proof fn law_tree_round_trip(l: Seq<u8>, rest: Seq<bool>)
    requires
        lengths_ok(l),
    ensures
        parse_tree(tree_bits(l) + rest, l.len()) == Some((Code::Lengths(l), rest)),
{
    let ts = tokens(l);
    let cl = token_code(ts);
    let num = trimmed(cl, 19);
    vstd::arithmetic::power2::lemma2_to64();
    lemma_token_code(l);
    lemma_leaves_len(token_freq(ts), 19);
    lemma_code_lengths(token_freq(ts), 7);
    lemma_trimmed(cl, 19);
    lemma_stored_all(cl);
    let tb = tokens_bits(cl, ts, ts.len() as int);
    let s4 = tb + rest;
    let s3 = bits_of(0, 1) + s4;
    let s2 = order_bits(cl, num) + s3;
    let s1 = bits_of((num - 4) as nat, 4) + s2;
    let s = bits_of(0, 1) + s1;
    assert(tree_bits(l) + rest =~= s);
    lemma_read_back(0, 1, s1);
    lemma_read_back((num - 4) as nat, 4, s2);
    lemma_parse_order(cl, num, num, s3);
    lemma_order_bits_len(cl, num);
    super::bits::lemma_peek_prefix(order_bits(cl, num), s3);
    lemma_read_back(0, 1, s4);
    lemma_bits_from(cl, ts, 0);
    assert(tb =~= bits_from(cl, ts, 0));
    law_expand_tokens(l);
    assert(ts.skip(0) =~= ts);
    assert(Seq::<u8>::empty() + expand(ts, 8) =~= l);
    lemma_tokens_short(l);
    lemma_parse_tokens(cl, ts, 0, Seq::empty(), 8, l.len(), l.len(), rest);
}

proof fn lemma_tokens_bits_len(cl: Seq<u8>, ts: Seq<Token>, upto: int)
    requires
        0 <= upto <= ts.len(),
        forall|k: int| 0 <= k < ts.len() ==> (#[trigger] ts[k]).0 <= 18,
        cl.len() == 19,
        forall|k: int| 0 <= k < 19 ==> #[trigger] cl[k] <= 7,
    ensures
        tokens_bits(cl, ts, upto).len() <= 14 * upto,
    decreases upto,
{
    if upto > 0 {
        lemma_tokens_bits_len(cl, ts, upto - 1);
        let t = ts[upto - 1];
        super::huffman::lemma_word_len(
            super::huffman::code_number(cl, t.0 as int),
            cl[t.0 as int] as nat,
        );
        lemma_bits_of_len(t.1 as nat, extra_bits(t.0 as nat));
    }
}

/// A stored code takes up at most 14 bits per symbol, and 64 more.
pub proof fn lemma_tree_bits_len(l: Seq<u8>)
    requires
        lengths_ok(l),
    ensures
        tree_bits(l).len() <= 14 * l.len() + 64,
{
    let ts = tokens(l);
    let cl = token_code(ts);
    let num = trimmed(cl, 19);
    vstd::arithmetic::power2::lemma2_to64();
    lemma_token_code(l);
    lemma_tokens_short(l);
    lemma_leaves_len(token_freq(ts), 19);
    lemma_code_lengths(token_freq(ts), 7);
    lemma_trimmed(cl, 19);
    assert forall|k: int| 0 <= k < ts.len() implies (#[trigger] ts[k]).0 <= 18 by {
        assert(token_ok(ts[k]));
    }
    lemma_tokens_bits_len(cl, ts, ts.len() as int);
    lemma_order_bits_len(cl, num);
    lemma_bits_of_len(0, 1);
    lemma_bits_of_len((num - 4) as nat, 4);
}

} // verus!
