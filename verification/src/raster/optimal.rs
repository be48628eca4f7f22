//! Why the word lengths are what they are: no prefix code is shorter.
//!
//! The cost of a code is the number of bits that it takes to write every symbol
//! as often as it occurs. Where no depth is cut, the depths of Huffman's tree
//! cost the least of all words that fit side by side.
use super::code_lengths::{
    assigned, code_lengths, leaves, lemma_leaves_len, lemma_lightest, lemma_merge_len, lightest,
    made_room, merge_step, merged, no_words, swap_out, used, weight, Tree,
};
use super::huffman::{fits, lengths_ok, share, space, MAX_LEN};
use vstd::arithmetic::power2::{
    lemma_pow2_pos, lemma_pow2_strictly_increases, lemma_pow2_unfold, pow2,
};
use vstd::prelude::*;

verus! {

/// How many bits the first `upto` symbols take with words of these lengths.
pub open spec fn cost(freq: Seq<u32>, l: Seq<u8>, upto: int) -> nat
    decreases upto,
{
    if upto <= 0 {
        0
    } else {
        cost(freq, l, upto - 1) + freq[upto - 1] as nat * l[upto - 1] as nat
    }
}

/// The depth of the deepest leaf.
pub open spec fn height(t: Tree) -> nat
    decreases t,
{
    match t {
        Tree::Leaf(_, _) => 0,
        Tree::Branch(_, a, b) => 1 + if height(*a) >= height(*b) {
            height(*a)
        } else {
            height(*b)
        },
    }
}

/// The tree of these frequencies.
pub open spec fn tree_for(freq: Seq<u32>) -> Tree {
    merged(leaves(freq, freq.len() as int))
}

/// No leaf of the tree is deeper than the limit.
pub open spec fn is_uncut(freq: Seq<u32>, limit: u8) -> bool {
    used(freq, freq.len() as int) > 0 ==> height(tree_for(freq)) <= limit
}

// ── what a tree costs ───────────────────────────────────────────────────────

/// Each branch weighs what its two trees weigh.
spec fn adds_up(t: Tree) -> bool
    decreases t,
{
    match t {
        Tree::Leaf(_, _) => true,
        Tree::Branch(w, a, b) => w == weight(*a) + weight(*b) && adds_up(*a) && adds_up(*b),
    }
}

/// The sum over the leaves of weight times depth, with the root at `d`.
spec fn tree_cost(t: Tree, d: nat) -> nat
    decreases t,
{
    match t {
        Tree::Leaf(w, _) => w * d,
        Tree::Branch(_, a, b) => tree_cost(*a, d + 1) + tree_cost(*b, d + 1),
    }
}

proof fn lemma_tree_cost(t: Tree, d: nat)
    requires
        adds_up(t),
    ensures
        tree_cost(t, d) == tree_cost(t, 0) + weight(t) * d,
    decreases t,
{
    match t {
        Tree::Leaf(w, _) => {
            assert(w * 0 == 0);
        },
        Tree::Branch(w, a, b) => {
            lemma_tree_cost(*a, d + 1);
            lemma_tree_cost(*b, d + 1);
            lemma_tree_cost(*a, 1);
            lemma_tree_cost(*b, 1);
            let x = weight(*a);
            let y = weight(*b);
            assert(x * (d + 1) + y * (d + 1) == x * 1 + y * 1 + (x + y) * d) by (nonlinear_arith);
        },
    }
}

/// A sum over trees of a quantity that a merge leaves as it is, or to which it
/// adds.
spec fn over(h: Seq<Tree>, f: spec_fn(Tree) -> nat, upto: int) -> nat
    decreases upto,
{
    if upto <= 0 {
        0
    } else {
        over(h, f, upto - 1) + f(h[upto - 1])
    }
}

proof fn lemma_over_same(a: Seq<Tree>, b: Seq<Tree>, f: spec_fn(Tree) -> nat, upto: int)
    requires
        forall|i: int| 0 <= i < upto ==> #[trigger] a[i] == b[i],
    ensures
        over(a, f, upto) == over(b, f, upto),
    decreases upto,
{
    if upto > 0 {
        lemma_over_same(a, b, f, upto - 1);
    }
}

proof fn lemma_over_update(h: Seq<Tree>, f: spec_fn(Tree) -> nat, i: int, t: Tree, upto: int)
    requires
        0 <= i < upto <= h.len(),
    ensures
        over(h.update(i, t), f, upto) + f(h[i]) == over(h, f, upto) + f(t),
    decreases upto,
{
    if i == upto - 1 {
        lemma_over_same(h, h.update(i, t), f, i);
    } else {
        lemma_over_update(h, f, i, t, upto - 1);
    }
}

proof fn lemma_over_swap_out(h: Seq<Tree>, f: spec_fn(Tree) -> nat, i: int)
    requires
        0 <= i < h.len(),
    ensures
        over(swap_out(h, i), f, h.len() - 1) + f(h[i]) == over(h, f, h.len() as int),
{
    lemma_over_update(h, f, i, h.last(), h.len() as int);
    lemma_over_same(h.update(i, h.last()), swap_out(h, i), f, h.len() - 1);
}

/// What a merge does to a sum over the trees: the two lightest give way to the
/// branch of both.
proof fn lemma_over_merge(h: Seq<Tree>, f: spec_fn(Tree) -> nat) -> (r: (Tree, Tree))
    requires
        h.len() >= 2,
    ensures
        ({
            let t = merge_step(h).last();
            &&& t == Tree::Branch(weight(r.0) + weight(r.1), Box::new(r.0), Box::new(r.1))
            &&& over(merge_step(h), f, h.len() - 1) + f(r.0) + f(r.1) == over(
                h,
                f,
                h.len() as int,
            ) + f(t)
        }),
{
    let i = lightest(h, h.len() as int);
    lemma_lightest(h, h.len() as int);
    let h1 = swap_out(h, i);
    let j = lightest(h1, h1.len() as int);
    lemma_lightest(h1, h1.len() as int);
    let h2 = swap_out(h1, j);
    lemma_over_swap_out(h, f, i);
    lemma_over_swap_out(h1, f, j);
    lemma_over_same(h2, merge_step(h), f, h2.len() as int);
    (h[i], h1[j])
}

/// What the merges of a forest cost: each moves its two trees one down.
spec fn merge_cost(h: Seq<Tree>) -> nat
    decreases h.len(),
{
    if h.len() <= 1 {
        0
    } else {
        proof {
            lemma_merge_len(h);
        }
        weight(merge_step(h).last()) + merge_cost(merge_step(h))
    }
}

spec fn all_add_up(h: Seq<Tree>) -> bool {
    forall|i: int| 0 <= i < h.len() ==> adds_up(#[trigger] h[i])
}

proof fn lemma_merge_adds_up(h: Seq<Tree>)
    requires
        h.len() >= 2,
        all_add_up(h),
    ensures
        all_add_up(merge_step(h)),
{
    lemma_lightest(h, h.len() as int);
    let h1 = swap_out(h, lightest(h, h.len() as int));
    lemma_lightest(h1, h1.len() as int);
    let h2 = swap_out(h1, lightest(h1, h1.len() as int));
    assert(all_add_up(h1));
    assert(all_add_up(h2));
    assert forall|i: int| 0 <= i < merge_step(h).len() implies adds_up(
        #[trigger] merge_step(h)[i],
    ) by {
        if i < h2.len() {
            assert(merge_step(h)[i] == h2[i]);
        }
    }
}

proof fn lemma_merged_cost(h: Seq<Tree>)
    requires
        h.len() >= 1,
        all_add_up(h),
    ensures
        adds_up(merged(h)),
        tree_cost(merged(h), 0) == over(h, |t: Tree| tree_cost(t, 0), h.len() as int) + merge_cost(
            h,
        ),
    decreases h.len(),
{
    let f = |t: Tree| tree_cost(t, 0);
    if h.len() == 1 {
        assert(over(h, f, 1) == over(h, f, 0) + f(h[0]));
    } else {
        lemma_merge_len(h);
        lemma_merge_adds_up(h);
        lemma_merged_cost(merge_step(h));
        let (a, b) = lemma_over_merge(h, f);
        let t = merge_step(h).last();
        assert(adds_up(merge_step(h)[h.len() - 2]));
        lemma_tree_cost(a, 1);
        lemma_tree_cost(b, 1);
    }
}

// ── what the words cost ─────────────────────────────────────────────────────

/// How many leaves of a tree stand for a symbol.
spec fn count(t: Tree, s: nat) -> nat
    decreases t,
{
    match t {
        Tree::Leaf(_, x) => if x == s {
            1
        } else {
            0
        },
        Tree::Branch(_, a, b) => count(*a, s) + count(*b, s),
    }
}

/// The leaves carry the frequencies of their symbols.
spec fn weighs(t: Tree, freq: Seq<u32>) -> bool
    decreases t,
{
    match t {
        Tree::Leaf(w, x) => x < freq.len() && w == freq[x as int],
        Tree::Branch(_, a, b) => weighs(*a, freq) && weighs(*b, freq),
    }
}

proof fn lemma_cost_update(freq: Seq<u32>, l: Seq<u8>, i: int, v: u8, upto: int)
    requires
        0 <= i < l.len(),
        0 <= upto <= l.len(),
    ensures
        i < upto ==> cost(freq, l.update(i, v), upto) + freq[i] as nat * l[i] as nat == cost(
            freq,
            l,
            upto,
        ) + freq[i] as nat * v as nat,
        i >= upto ==> cost(freq, l.update(i, v), upto) == cost(freq, l, upto),
    decreases upto,
{
    if upto > 0 {
        lemma_cost_update(freq, l, i, v, upto - 1);
    }
}

proof fn lemma_space_update_at(l: Seq<u8>, i: int, v: u8, upto: int)
    requires
        0 <= i < l.len(),
        0 <= upto <= l.len(),
    ensures
        i < upto ==> space(l.update(i, v), upto) + share(l[i]) == space(l, upto) + share(v),
        i >= upto ==> space(l.update(i, v), upto) == space(l, upto),
    decreases upto,
{
    if upto > 0 {
        lemma_space_update_at(l, i, v, upto - 1);
    }
}

/// The words that the leaves of a tree get: they cost what the tree costs, and
/// they take up the code space of its root.
proof fn lemma_assigned_cost(t: Tree, d: u8, limit: u8, l: Seq<u8>, freq: Seq<u32>)
    requires
        l.len() == freq.len(),
        weighs(t, freq),
        forall|s: nat| #[trigger] count(t, s) <= 1,
        forall|s: nat| s < l.len() && #[trigger] count(t, s) > 0 ==> l[s as int] == 0,
        d + height(t) <= limit <= MAX_LEN,
        d > 0 || t is Branch,
    ensures
        assigned(t, d, limit, l).len() == l.len(),
        cost(freq, assigned(t, d, limit, l), l.len() as int) == cost(freq, l, l.len() as int)
            + tree_cost(t, d as nat),
        space(assigned(t, d, limit, l), l.len() as int) == space(l, l.len() as int) + pow2(
            (MAX_LEN - d) as nat,
        ),
        forall|s: nat|
            s < l.len() && #[trigger] count(t, s) == 0 ==> assigned(t, d, limit, l)[s as int]
                == l[s as int],
    decreases t,
{
    match t {
        Tree::Leaf(w, x) => {
            assert(count(t, x) == 1);
            lemma_cost_update(freq, l, x as int, d, l.len() as int);
            lemma_space_update_at(l, x as int, d, l.len() as int);
            assert(freq[x as int] as nat * 0nat == 0);
            assert forall|s: nat| s < l.len() && #[trigger] count(t, s) == 0 implies assigned(
                t,
                d,
                limit,
                l,
            )[s as int] == l[s as int] by {
                assert(s != x);
            }
        },
        Tree::Branch(_, a, b) => {
            let e = (d + 1) as u8;
            let m = assigned(*a, e, limit, l);
            assert forall|s: nat| #[trigger] count(*a, s) <= 1 && (s < l.len() && count(*a, s) > 0
                ==> l[s as int] == 0 && count(*b, s) == 0) by {
                assert(count(t, s) == count(*a, s) + count(*b, s));
            }
            lemma_assigned_cost(*a, e, limit, l, freq);
            assert forall|s: nat| #[trigger] count(*b, s) <= 1 && (s < l.len() && count(*b, s) > 0
                ==> m[s as int] == 0) by {
                assert(count(t, s) == count(*a, s) + count(*b, s));
            }
            lemma_assigned_cost(*b, e, limit, m, freq);
            lemma_pow2_unfold((MAX_LEN - d) as nat);
            assert((MAX_LEN - d) as nat - 1 == (MAX_LEN - e) as nat);
            assert forall|s: nat| s < l.len() && #[trigger] count(t, s) == 0 implies assigned(
                t,
                d,
                limit,
                l,
            )[s as int] == l[s as int] by {
                assert(count(t, s) == count(*a, s) + count(*b, s));
                assert(count(*a, s) == 0);
                assert(count(*b, s) == 0);
            }
        },
    }
}

proof fn lemma_merged_count(h: Seq<Tree>, s: nat)
    requires
        h.len() >= 1,
    ensures
        count(merged(h), s) == over(h, |t: Tree| count(t, s), h.len() as int),
    decreases h.len(),
{
    let f = |t: Tree| count(t, s);
    if h.len() == 1 {
        assert(over(h, f, 1) == over(h, f, 0) + f(h[0]));
    } else {
        lemma_merge_len(h);
        lemma_merged_count(merge_step(h), s);
        let (a, b) = lemma_over_merge(h, f);
    }
}

proof fn lemma_merged_weighs(h: Seq<Tree>, freq: Seq<u32>)
    requires
        h.len() >= 1,
        forall|i: int| 0 <= i < h.len() ==> weighs(#[trigger] h[i], freq),
    ensures
        weighs(merged(h), freq),
    decreases h.len(),
{
    if h.len() >= 2 {
        lemma_lightest(h, h.len() as int);
        let i = lightest(h, h.len() as int);
        let h1 = swap_out(h, i);
        lemma_lightest(h1, h1.len() as int);
        let j = lightest(h1, h1.len() as int);
        let h2 = swap_out(h1, j);
        assert forall|k: int| 0 <= k < h1.len() implies weighs(#[trigger] h1[k], freq) by {
            assert(h1[k] == h[k] || h1[k] == h[h.len() - 1]);
        }
        assert forall|k: int| 0 <= k < merge_step(h).len() implies weighs(
            #[trigger] merge_step(h)[k],
            freq,
        ) by {
            if k < h2.len() {
                assert(merge_step(h)[k] == h2[k]);
                assert(h2[k] == h1[k] || h2[k] == h1[h1.len() - 1]);
            } else {
                assert(weighs(h[i], freq));
                assert(weighs(h1[j], freq));
            }
        }
        lemma_merge_len(h);
        lemma_merged_weighs(merge_step(h), freq);
    }
}

/// Of the first symbols: each has its leaf, of its frequency, once.
proof fn lemma_leaves(freq: Seq<u32>, upto: int, s: nat)
    requires
        0 <= upto <= freq.len(),
    ensures
        forall|i: int|
            0 <= i < leaves(freq, upto).len() ==> weighs(#[trigger] leaves(freq, upto)[i], freq)
                && leaves(freq, upto)[i] is Leaf,
        over(leaves(freq, upto), |t: Tree| count(t, s), leaves(freq, upto).len() as int) == (if s
            < upto && freq[s as int] > 0 {
            1nat
        } else {
            0nat
        }),
        over(leaves(freq, upto), |t: Tree| tree_cost(t, 0), leaves(freq, upto).len() as int) == 0,
    decreases upto,
{
    if upto > 0 {
        lemma_leaves(freq, upto - 1, s);
        let f = |t: Tree| count(t, s);
        let g = |t: Tree| tree_cost(t, 0);
        let a = leaves(freq, upto - 1);
        let b = leaves(freq, upto);
        if freq[upto - 1] > 0 {
            lemma_over_same(a, b, f, a.len() as int);
            lemma_over_same(a, b, g, a.len() as int);
            let t = Tree::Leaf(freq[upto - 1] as nat, (upto - 1) as nat);
            assert(b.last() == t);
            assert(freq[upto - 1] as nat * 0nat == 0);
            assert(g(t) == 0);
            assert forall|i: int| 0 <= i < b.len() implies weighs(#[trigger] b[i], freq)
                && b[i] is Leaf by {
                if i < a.len() {
                    assert(b[i] == a[i]);
                }
            }
        }
    }
}

// ── what any code costs ─────────────────────────────────────────────────────

/// The code space of words of these lengths, none above `top`, in words of
/// `top` bits.
spec fn taken(l: Seq<nat>, top: nat, upto: int) -> nat
    decreases upto,
{
    if upto <= 0 {
        0
    } else {
        taken(l, top, upto - 1) + pow2((top - l[upto - 1]) as nat)
    }
}

/// The weights of the trees, each times its length.
spec fn spent(h: Seq<Tree>, l: Seq<nat>, upto: int) -> nat
    decreases upto,
{
    if upto <= 0 {
        0
    } else {
        spent(h, l, upto - 1) + weight(h[upto - 1]) * l[upto - 1]
    }
}

spec fn longest(l: Seq<nat>, upto: int) -> int
    decreases upto,
{
    if upto <= 1 {
        0
    } else {
        let m = longest(l, upto - 1);
        if l[upto - 1] > l[m] {
            upto - 1
        } else {
            m
        }
    }
}

proof fn lemma_longest(l: Seq<nat>, upto: int)
    requires
        1 <= upto,
    ensures
        0 <= longest(l, upto) < upto,
        forall|k: int| 0 <= k < upto ==> #[trigger] l[k] <= l[longest(l, upto)],
    decreases upto,
{
    if upto > 1 {
        lemma_longest(l, upto - 1);
    }
}

proof fn lemma_lightest_least(h: Seq<Tree>, upto: int)
    requires
        1 <= upto,
    ensures
        0 <= lightest(h, upto) < upto,
        forall|k: int| 0 <= k < upto ==> weight(h[lightest(h, upto)]) <= weight(#[trigger] h[k]),
    decreases upto,
{
    if upto > 1 {
        lemma_lightest_least(h, upto - 1);
    }
}

proof fn lemma_taken_same(a: Seq<nat>, b: Seq<nat>, top: nat, upto: int)
    requires
        forall|i: int| 0 <= i < upto ==> #[trigger] a[i] == b[i],
    ensures
        taken(a, top, upto) == taken(b, top, upto),
    decreases upto,
{
    if upto > 0 {
        lemma_taken_same(a, b, top, upto - 1);
    }
}

proof fn lemma_taken_update(l: Seq<nat>, top: nat, i: int, v: nat, upto: int)
    requires
        0 <= i < upto <= l.len(),
    ensures
        taken(l.update(i, v), top, upto) + pow2((top - l[i]) as nat) == taken(l, top, upto) + pow2(
            (top - v) as nat,
        ),
    decreases upto,
{
    if i == upto - 1 {
        lemma_taken_same(l, l.update(i, v), top, i);
    } else {
        lemma_taken_update(l, top, i, v, upto - 1);
    }
}

proof fn lemma_spent_same(h: Seq<Tree>, a: Seq<nat>, g: Seq<Tree>, b: Seq<nat>, upto: int)
    requires
        forall|i: int| 0 <= i < upto ==> #[trigger] a[i] == b[i],
        forall|i: int| 0 <= i < upto ==> #[trigger] h[i] == g[i],
    ensures
        spent(h, a, upto) == spent(g, b, upto),
    decreases upto,
{
    if upto > 0 {
        lemma_spent_same(h, a, g, b, upto - 1);
        assert(a[upto - 1] == b[upto - 1]);
        assert(h[upto - 1] == g[upto - 1]);
    }
}

proof fn lemma_spent_update(h: Seq<Tree>, l: Seq<nat>, i: int, t: Tree, v: nat, upto: int)
    requires
        0 <= i < upto <= l.len(),
        h.len() == l.len(),
    ensures
        spent(h.update(i, t), l.update(i, v), upto) + weight(h[i]) * l[i] == spent(h, l, upto)
            + weight(t) * v,
    decreases upto,
{
    if i == upto - 1 {
        lemma_spent_same(h, l, h.update(i, t), l.update(i, v), i);
    } else {
        lemma_spent_update(h, l, i, t, v, upto - 1);
    }
}

/// Take a tree out together with its length.
proof fn lemma_out(h: Seq<Tree>, l: Seq<nat>, top: nat, i: int)
    requires
        0 <= i < h.len(),
        h.len() == l.len(),
    ensures
        spent(swap_out(h, i), swap_out(l, i), h.len() - 1) + weight(h[i]) * l[i] == spent(
            h,
            l,
            h.len() as int,
        ),
        taken(swap_out(l, i), top, l.len() - 1) + pow2((top - l[i]) as nat) == taken(
            l,
            top,
            l.len() as int,
        ),
{
    let n = h.len() as int;
    lemma_spent_update(h, l, i, h.last(), l.last(), n);
    lemma_taken_update(l, top, i, l.last(), n);
    lemma_spent_same(
        h.update(i, h.last()),
        l.update(i, l.last()),
        swap_out(h, i),
        swap_out(l, i),
        n - 1,
    );
    lemma_taken_same(l.update(i, l.last()), swap_out(l, i), top, n - 1);
}

/// The lightest tree may as well have the longest word.
spec fn exchanged(h: Seq<Tree>, l: Seq<nat>) -> Seq<nat> {
    let i = lightest(h, h.len() as int);
    let p = longest(l, l.len() as int);
    l.update(i, l[p]).update(p, l[i])
}

proof fn lemma_exchange(h: Seq<Tree>, l: Seq<nat>, top: nat)
    requires
        h.len() >= 1,
        h.len() == l.len(),
        forall|k: int| 0 <= k < l.len() ==> #[trigger] l[k] <= top,
    ensures
        ({
            let m = exchanged(h, l);
            let i = lightest(h, h.len() as int);
            &&& m.len() == l.len()
            &&& 0 <= i < l.len()
            &&& forall|k: int| 0 <= k < m.len() ==> #[trigger] m[k] <= m[i]
            &&& m[i] <= top
            &&& taken(m, top, m.len() as int) == taken(l, top, l.len() as int)
            &&& spent(h, m, h.len() as int) <= spent(h, l, h.len() as int)
        }),
{
    let n = h.len() as int;
    lemma_lightest_least(h, n);
    lemma_longest(l, n);
    let i = lightest(h, n);
    let p = longest(l, n);
    let l1 = l.update(i, l[p]);
    lemma_taken_update(l, top, i, l[p], n);
    lemma_taken_update(l1, top, p, l[i], n);
    lemma_spent_update(h, l, i, h[i], l[p], n);
    lemma_spent_update(h, l1, p, h[p], l[i], n);
    assert(h.update(i, h[i]) =~= h);
    assert(h.update(p, h[p]) =~= h);
    let (a, b, x, y) = (weight(h[i]), weight(h[p]), l[i], l[p]);
    assert(l1[p] == y);
    assert(a * y + b * x <= a * x + b * y) by (nonlinear_arith)
        requires
            a <= b,
            x <= y,
    ;
}

/// Words no longer than `b` bits take up a multiple of a word of `b` bits.
proof fn lemma_taken_in_words(l: Seq<nat>, top: nat, b: nat, upto: int)
    requires
        0 <= upto <= l.len(),
        b <= top,
        forall|k: int| 0 <= k < l.len() ==> #[trigger] l[k] <= b,
    ensures
        taken(l, top, upto) % pow2((top - b) as nat) == 0,
    decreases upto,
{
    let p = pow2((top - b) as nat);
    lemma_pow2_pos((top - b) as nat);
    if upto > 0 {
        lemma_taken_in_words(l, top, b, upto - 1);
        let x = taken(l, top, upto - 1);
        let e = l[upto - 1];
        vstd::arithmetic::power2::lemma_pow2_adds((b - e) as nat, (top - b) as nat);
        let q = pow2((b - e) as nat);
        lemma_sum_of_multiples(x as int, q as int, p as int);
    } else {
        assert(0nat % p == 0) by (nonlinear_arith)
            requires
                p > 0,
        ;
    }
}

proof fn lemma_sum_of_multiples(x: int, q: int, p: int)
    requires
        p > 0,
        x % p == 0,
    ensures
        (x + q * p) % p == 0,
{
    vstd::arithmetic::div_mod::lemma_mod_multiples_vanish(q, x, p);
    assert(p * q == q * p) by (nonlinear_arith);
}

/// Where a multiple of `p` leaves some room in another, it leaves `p`.
proof fn lemma_room_in_words(x: int, y: int, p: int)
    requires
        p > 0,
        x % p == 0,
        y % p == 0,
        x < y,
    ensures
        x + p <= y,
{
    vstd::arithmetic::div_mod::lemma_fundamental_div_mod(x, p);
    vstd::arithmetic::div_mod::lemma_fundamental_div_mod(y, p);
    let (a, b) = (x / p, y / p);
    assert(a < b) by (nonlinear_arith)
        requires
            p * a < p * b,
            p > 0,
    ;
    assert(p * a + p <= p * b) by (nonlinear_arith)
        requires
            a + 1 <= b,
            p > 0,
    ;
}

/// No words that fit side by side cost less than the merges.
proof fn lemma_merges_cost_least(h: Seq<Tree>, l: Seq<nat>, top: nat)
    requires
        h.len() >= 1,
        h.len() == l.len(),
        forall|k: int| 0 <= k < l.len() ==> #[trigger] l[k] <= top,
        taken(l, top, l.len() as int) <= pow2(top),
    ensures
        merge_cost(h) <= spent(h, l, h.len() as int),
    decreases h.len(),
{
    if h.len() >= 2 {
        let n = h.len() as int;
        let i = lightest(h, n);
        let m = exchanged(h, l);
        lemma_exchange(h, l, top);
        let h1 = swap_out(h, i);
        let m1 = swap_out(m, i);
        lemma_out(h, m, top, i);
        let j = lightest(h1, n - 1);
        let k1 = exchanged(h1, m1);
        lemma_exchange(h1, m1, top);
        let h2 = swap_out(h1, j);
        let k2 = swap_out(k1, j);
        lemma_out(h1, k1, top, j);
        let a = m[i];
        let b = k1[j];
        assert(b <= a) by {
            let p = longest(m1, n - 1);
            lemma_longest(m1, n - 1);
            assert(b == m1[p]);
            assert(m1[p] == m[p] || m1[p] == m[n - 1]);
        }
        let rest = taken(k2, top, n - 2);
        let pa = pow2((top - a) as nat);
        let pb = pow2((top - b) as nat);
        lemma_pow2_pos((top - a) as nat);
        lemma_pow2_pos((top - b) as nat);
        assert(rest + pb + pa <= pow2(top));
        // what the others and the second lightest take up leaves room for one more
        lemma_taken_in_words(k2, top, b, n - 2);
        vstd::arithmetic::power2::lemma_pow2_adds(b, (top - b) as nat);
        lemma_sum_of_multiples(rest as int, 1, pb as int);
        lemma_sum_of_multiples(0, pow2(b) as int, pb as int);
        lemma_room_in_words((rest + pb) as int, pow2(top) as int, pb as int);
        assert(b > 0);
        let l2 = k2.push((b - 1) as nat);
        let g = merge_step(h);
        lemma_pow2_unfold((top - (b - 1)) as nat);
        assert((top - (b - 1)) as nat - 1 == (top - b) as nat);
        lemma_taken_same(k2, l2, top, n - 2);
        lemma_spent_same(h2, k2, g, l2, n - 2);
        assert(g.len() == n - 1);
        assert(taken(l2, top, n - 1) <= pow2(top));
        lemma_merges_cost_least(g, l2, top);
        let (x, y) = (weight(h[i]), weight(h1[j]));
        assert(weight(g.last()) == x + y);
        assert((x + y) * ((b - 1) as nat) + (x + y) <= x * a + y * b) by (nonlinear_arith)
            requires
                1 <= b <= a,
        ;
    }
}

/// The lengths of the symbols that occur.
spec fn used_lengths(freq: Seq<u32>, l: Seq<u8>, upto: int) -> Seq<nat>
    decreases upto,
{
    if upto <= 0 {
        Seq::empty()
    } else if freq[upto - 1] > 0 {
        used_lengths(freq, l, upto - 1).push(l[upto - 1] as nat)
    } else {
        used_lengths(freq, l, upto - 1)
    }
}

proof fn lemma_used_lengths(freq: Seq<u32>, l: Seq<u8>, upto: int)
    requires
        0 <= upto <= freq.len(),
        l.len() == freq.len(),
        lengths_ok(l),
        forall|i: int| 0 <= i < l.len() && freq[i] > 0 ==> #[trigger] l[i] > 0,
    ensures
        ({
            let h = leaves(freq, upto);
            let u = used_lengths(freq, l, upto);
            &&& u.len() == h.len()
            &&& forall|k: int| 0 <= k < u.len() ==> 1 <= #[trigger] u[k] <= MAX_LEN
            &&& taken(u, MAX_LEN as nat, u.len() as int) <= space(l, upto)
            &&& spent(h, u, u.len() as int) == cost(freq, l, upto)
        }),
    decreases upto,
{
    if upto > 0 {
        lemma_used_lengths(freq, l, upto - 1);
        let h0 = leaves(freq, upto - 1);
        let u0 = used_lengths(freq, l, upto - 1);
        let h = leaves(freq, upto);
        let u = used_lengths(freq, l, upto);
        if freq[upto - 1] > 0 {
            assert(l[upto - 1] > 0);
            lemma_taken_same(u0, u, MAX_LEN as nat, u0.len() as int);
            lemma_spent_same(h0, u0, h, u, u0.len() as int);
            assert(u[u.len() - 1] == l[upto - 1]);
            assert(weight(h[h.len() - 1]) == freq[upto - 1]);
        } else {
            assert(freq[upto - 1] as nat * l[upto - 1] as nat == 0) by (nonlinear_arith)
                requires
                    freq[upto - 1] == 0,
            ;
        }
    }
}

// ── laws ────────────────────────────────────────────────────────────────────

proof fn lemma_no_cost(freq: Seq<u32>, l: Seq<u8>, upto: int)
    requires
        0 <= upto <= freq.len(),
        forall|i: int| 0 <= i < upto ==> #[trigger] l[i] == 0,
    ensures
        cost(freq, l, upto) == 0,
        space(l, upto) == 0,
    decreases upto,
{
    if upto > 0 {
        lemma_no_cost(freq, l, upto - 1);
        assert(freq[upto - 1] as nat * 0nat == 0);
    }
}

/// Where no depth is cut, the words have the depths of the tree and leave no
/// code space over.
proof fn lemma_uncut(freq: Seq<u32>, limit: u8)
    requires
        1 <= limit <= MAX_LEN,
        used(freq, freq.len() as int) >= 2,
        is_uncut(freq, limit),
    ensures
        cost(freq, code_lengths(freq, limit), freq.len() as int) == merge_cost(
            leaves(freq, freq.len() as int),
        ),
        space(code_lengths(freq, limit), freq.len() as int) == pow2(MAX_LEN as nat),
{
    let n = freq.len() as int;
    let h = leaves(freq, n);
    let t = merged(h);
    let none = no_words(freq.len());
    lemma_leaves_len(freq, n);
    lemma_leaves(freq, n, 0);
    lemma_merged_weighs(h, freq);
    assert forall|i: int| 0 <= i < h.len() implies adds_up(#[trigger] h[i]) by {
        assert(h[i] is Leaf);
    }
    lemma_merged_cost(h);
    assert forall|s: nat| #[trigger] count(t, s) <= 1 by {
        lemma_leaves(freq, n, s);
        lemma_merged_count(h, s);
    }
    lemma_merged_branch(h);
    lemma_assigned_cost(t, 0, limit, none, freq);
    lemma_no_cost(freq, none, n);
    let l = assigned(t, 0, limit, none);
    assert(l.len() == n);
    assert(made_room(l, limit) == l);
}

proof fn lemma_merged_branch(h: Seq<Tree>)
    requires
        h.len() >= 2,
    ensures
        merged(h) is Branch,
    decreases h.len(),
{
    lemma_merge_len(h);
    if h.len() == 2 {
        assert(merge_step(h).last() == merge_step(h)[0]);
        assert(merged(merge_step(h)) == merge_step(h)[0]);
    } else {
        lemma_merged_branch(merge_step(h));
    }
}

/// A code without cut words is complete: its words leave no code space over.
pub proof fn law_words_fill_the_space(freq: Seq<u32>, limit: u8)
    requires
        1 <= limit <= MAX_LEN,
        used(freq, freq.len() as int) >= 2,
        is_uncut(freq, limit),
    ensures
        space(code_lengths(freq, limit), freq.len() as int) == pow2(MAX_LEN as nat),
{
    lemma_uncut(freq, limit);
}

/// The words of fewer than two symbols: one symbol has a word of one bit.
proof fn lemma_few(freq: Seq<u32>, limit: u8)
    requires
        1 <= limit <= MAX_LEN,
        used(freq, freq.len() as int) < 2,
    ensures
        cost(freq, code_lengths(freq, limit), freq.len() as int) == spent(
            leaves(freq, freq.len() as int),
            seq![1nat],
            used(freq, freq.len() as int) as int,
        ),
{
    let n = freq.len() as int;
    let h = leaves(freq, n);
    let none = no_words(freq.len());
    lemma_leaves_len(freq, n);
    lemma_no_cost(freq, none, n);
    if h.len() == 1 {
        lemma_leaves(freq, n, 0);
        assert(weighs(h[0], freq) && h[0] is Leaf);
        let x = h[0]->Leaf_1;
        let l = none.update(x as int, 1);
        assert(assigned(merged(h), 0, limit, none) == l);
        lemma_cost_update(freq, none, x as int, 1, n);
        lemma_space_update_at(none, x as int, 1, n);
        lemma_pow2_strictly_increases((MAX_LEN - 1) as nat, MAX_LEN as nat);
        assert(made_room(l, limit) == l);
        assert(freq[x as int] as nat * 0nat == 0);
        assert(spent(h, seq![1nat], 1) == spent(h, seq![1nat], 0) + weight(h[0]) * 1);
    }
}

/// A code without cut words is optimal: whatever words of at most `MAX_LEN`
/// bits fit side by side and leave no symbol that occurs without one, they take
/// at least as many bits.
pub proof fn law_no_code_is_shorter(freq: Seq<u32>, limit: u8, other: Seq<u8>)
    requires
        1 <= limit <= MAX_LEN,
        is_uncut(freq, limit),
        other.len() == freq.len(),
        fits(other),
        forall|i: int| 0 <= i < freq.len() && freq[i] > 0 ==> #[trigger] other[i] > 0,
    ensures
        cost(freq, code_lengths(freq, limit), freq.len() as int) <= cost(
            freq,
            other,
            freq.len() as int,
        ),
{
    let n = freq.len() as int;
    let h = leaves(freq, n);
    let l = used_lengths(freq, other, n);
    lemma_leaves_len(freq, n);
    lemma_used_lengths(freq, other, n);
    if h.len() >= 2 {
        lemma_uncut(freq, limit);
        lemma_merges_cost_least(h, l, MAX_LEN as nat);
    } else {
        lemma_few(freq, limit);
        if h.len() == 1 {
            let w = weight(h[0]);
            assert(spent(h, l, 1) == spent(h, l, 0) + w * l[0]);
            assert(spent(h, seq![1nat], 1) == spent(h, seq![1nat], 0) + w * 1);
            assert(w * 1 <= w * l[0]) by (nonlinear_arith)
                requires
                    l[0] >= 1,
            ;
        }
    }
}

/// How many leaves a tree has.
spec fn leaf_count(t: Tree) -> nat
    decreases t,
{
    match t {
        Tree::Leaf(_, _) => 1,
        Tree::Branch(_, a, b) => leaf_count(*a) + leaf_count(*b),
    }
}

proof fn lemma_height(t: Tree)
    ensures
        height(t) < leaf_count(t),
    decreases t,
{
    if let Tree::Branch(_, a, b) = t {
        lemma_height(*a);
        lemma_height(*b);
    }
}

proof fn lemma_merged_leaf_count(h: Seq<Tree>)
    requires
        h.len() >= 1,
    ensures
        leaf_count(merged(h)) == over(h, |t: Tree| leaf_count(t), h.len() as int),
    decreases h.len(),
{
    let f = |t: Tree| leaf_count(t);
    if h.len() == 1 {
        assert(over(h, f, 1) == over(h, f, 0) + f(h[0]));
    } else {
        lemma_merge_len(h);
        lemma_merged_leaf_count(merge_step(h));
        let (a, b) = lemma_over_merge(h, f);
    }
}

proof fn lemma_over_leaves(h: Seq<Tree>, upto: int)
    requires
        0 <= upto <= h.len(),
        forall|i: int| 0 <= i < h.len() ==> #[trigger] h[i] is Leaf,
    ensures
        over(h, |t: Tree| leaf_count(t), upto) == upto,
    decreases upto,
{
    if upto > 0 {
        lemma_over_leaves(h, upto - 1);
        assert(h[upto - 1] is Leaf);
    }
}

/// No word is cut where the limit is at least one less than the number of the
/// symbols that occur.
pub proof fn law_few_symbols_are_not_cut(freq: Seq<u32>, limit: u8)
    requires
        used(freq, freq.len() as int) <= limit + 1,
    ensures
        is_uncut(freq, limit),
{
    let n = freq.len() as int;
    let h = leaves(freq, n);
    lemma_leaves_len(freq, n);
    if h.len() > 0 {
        lemma_leaves(freq, n, 0);
        lemma_over_leaves(h, h.len() as int);
        lemma_merged_leaf_count(h);
        lemma_height(merged(h));
    }
}

} // verus!
