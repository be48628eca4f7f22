//! Word lengths for a prefix code, from symbol frequencies.
//!
//! Huffman's construction: merge the two lightest trees until one is left; the
//! depth of a leaf is the length of its word. Depths above the limit are cut
//! down to it, and where that leaves the words without room, the longest words
//! below the limit grow until there is room again.
use super::huffman::{share, space, MAX_LEN};
use vstd::arithmetic::power2::{
    lemma_pow2_adds, lemma_pow2_pos, lemma_pow2_strictly_increases, lemma_pow2_unfold, pow2,
};
use vstd::prelude::*;

verus! {

/// A code tree with the total frequency of its leaves.
pub ghost enum Tree {
    Leaf(nat, nat),
    Branch(nat, Box<Tree>, Box<Tree>),
}

pub open spec fn weight(t: Tree) -> nat {
    match t {
        Tree::Leaf(w, _) => w,
        Tree::Branch(w, _, _) => w,
    }
}

/// The first of the lightest among the first `upto` trees.
pub open spec fn lightest(h: Seq<Tree>, upto: int) -> int
    decreases upto,
{
    if upto <= 1 {
        0
    } else {
        let m = lightest(h, upto - 1);
        if weight(h[upto - 1]) < weight(h[m]) {
            upto - 1
        } else {
            m
        }
    }
}

/// Take out element `i`; the last element takes its place.
pub open spec fn swap_out<A>(h: Seq<A>, i: int) -> Seq<A> {
    h.update(i, h.last()).drop_last()
}

/// Merge the two lightest trees.
pub open spec fn merge_step(h: Seq<Tree>) -> Seq<Tree> {
    let i = lightest(h, h.len() as int);
    let h1 = swap_out(h, i);
    let j = lightest(h1, h1.len() as int);
    let h2 = swap_out(h1, j);
    h2.push(Tree::Branch(weight(h[i]) + weight(h1[j]), Box::new(h[i]), Box::new(h1[j])))
}

/// Merge until one tree is left.
pub open spec fn merged(h: Seq<Tree>) -> Tree
    decreases h.len(),
{
    if h.len() <= 1 {
        h[0]
    } else {
        proof {
            lemma_merge_len(h);
        }
        merged(merge_step(h))
    }
}

pub proof fn lemma_merge_len(h: Seq<Tree>)
    requires
        h.len() >= 2,
    ensures
        merge_step(h).len() == h.len() - 1,
{
    lemma_lightest(h, h.len() as int);
    let h1 = swap_out(h, lightest(h, h.len() as int));
    lemma_lightest(h1, h1.len() as int);
}

/// How many of the first `upto` symbols occur.
pub open spec fn used(freq: Seq<u32>, upto: int) -> nat
    decreases upto,
{
    if upto <= 0 {
        0
    } else {
        used(freq, upto - 1) + (if freq[upto - 1] > 0 {
            1nat
        } else {
            0nat
        })
    }
}

/// The leaves of the symbols that occur, in symbol order.
pub open spec fn leaves(freq: Seq<u32>, upto: int) -> Seq<Tree>
    decreases upto,
{
    if upto <= 0 {
        Seq::empty()
    } else if freq[upto - 1] > 0 {
        leaves(freq, upto - 1).push(Tree::Leaf(freq[upto - 1] as nat, (upto - 1) as nat))
    } else {
        leaves(freq, upto - 1)
    }
}

/// Give each leaf its depth, cut at `limit`, as the length of its word.
pub open spec fn assigned(t: Tree, depth: u8, limit: u8, l: Seq<u8>) -> Seq<u8>
    decreases t,
{
    match t {
        Tree::Leaf(_, s) => l.update(s as int, if depth == 0 {
            1
        } else {
            depth
        }),
        Tree::Branch(_, a, b) => {
            let d = if depth < limit {
                (depth + 1) as u8
            } else {
                depth
            };
            assigned(*b, d, limit, assigned(*a, d, limit, l))
        },
    }
}

/// The first of the longest words below `limit` among the first `upto`
/// symbols.
pub open spec fn longest_below(l: Seq<u8>, limit: u8, upto: int) -> Option<int>
    decreases upto,
{
    if upto <= 0 {
        None
    } else {
        let m = longest_below(l, limit, upto - 1);
        let b = l[upto - 1];
        if 0 < b < limit && (m is None || l[m->0] < b) {
            Some(upto - 1)
        } else {
            m
        }
    }
}

/// Lengthen the longest words below `limit` until all words have room.
pub open spec fn made_room(l: Seq<u8>, limit: u8) -> Seq<u8>
    decreases space(l, l.len() as int),
    when limit <= MAX_LEN
{
    if space(l, l.len() as int) <= pow2(MAX_LEN as nat) {
        l
    } else {
        match longest_below(l, limit, l.len() as int) {
            Some(i) => {
                proof {
                    lemma_room_grows(l, limit);
                }
                made_room(l.update(i, (l[i] + 1) as u8), limit)
            },
            None => l,
        }
    }
}

/// A word made longer takes up less of the code space.
pub proof fn lemma_room_grows(l: Seq<u8>, limit: u8)
    requires
        limit <= MAX_LEN,
    ensures
        longest_below(l, limit, l.len() as int) matches Some(i) ==> 0 <= i < l.len() && space(
            l.update(i, (l[i] + 1) as u8),
            l.len() as int,
        ) < space(l, l.len() as int),
{
    if let Some(i) = longest_below(l, limit, l.len() as int) {
        lemma_longest_below(l, limit, l.len() as int);
        lemma_space_update(l, i, (l[i] + 1) as u8, l.len() as int);
        lemma_share_shrinks(l[i]);
    }
}

/// No word for any of `n` symbols.
pub open spec fn no_words(n: nat) -> Seq<u8> {
    Seq::new(n, |i: int| 0u8)
}

/// The word lengths for these frequencies, none above `limit`.
pub open spec fn code_lengths(freq: Seq<u32>, limit: u8) -> Seq<u8> {
    let none = no_words(freq.len());
    let h = leaves(freq, freq.len() as int);
    if h.len() == 0 {
        none
    } else {
        made_room(assigned(merged(h), 0, limit, none), limit)
    }
}

// ── room ────────────────────────────────────────────────────────────────────

proof fn lemma_longest_below(l: Seq<u8>, limit: u8, upto: int)
    requires
        0 <= upto <= l.len(),
    ensures
        match longest_below(l, limit, upto) {
            Some(i) => 0 <= i < upto && 0 < l[i] < limit,
            None => forall|i: int| 0 <= i < upto && 0 < l[i] ==> #[trigger] l[i] >= limit,
        },
    decreases upto,
{
    if upto > 0 {
        lemma_longest_below(l, limit, upto - 1);
    }
}

proof fn lemma_share_shrinks(b: u8)
    requires
        0 < b < MAX_LEN,
    ensures
        share(b) == 2 * share((b + 1) as u8),
        share((b + 1) as u8) > 0,
{
    lemma_pow2_unfold((MAX_LEN - b) as nat);
    lemma_pow2_pos((MAX_LEN - b - 1) as nat);
    assert((MAX_LEN - b) as nat - 1 == (MAX_LEN - (b + 1)) as nat);
}

proof fn lemma_space_same(a: Seq<u8>, b: Seq<u8>, upto: int)
    requires
        forall|i: int| 0 <= i < upto ==> #[trigger] a[i] == b[i],
    ensures
        space(a, upto) == space(b, upto),
    decreases upto,
{
    if upto > 0 {
        lemma_space_same(a, b, upto - 1);
    }
}

proof fn lemma_space_update(l: Seq<u8>, i: int, v: u8, upto: int)
    requires
        0 <= i < upto <= l.len(),
    ensures
        space(l.update(i, v), upto) + share(l[i]) == space(l, upto) + share(v),
    decreases upto,
{
    if i == upto - 1 {
        lemma_space_same(l, l.update(i, v), i);
    } else {
        lemma_space_update(l, i, v, upto - 1);
    }
}

/// Words of `limit` bits and more take up at most as much as so many of `limit`
/// bits.
proof fn lemma_space_at_limit(l: Seq<u8>, freq: Seq<u32>, limit: u8, upto: int)
    requires
        0 <= upto <= l.len(),
        1 <= limit <= MAX_LEN,
        forall|i: int| 0 <= i < upto ==> (#[trigger] l[i] > 0 <==> freq[i] > 0),
        forall|i: int| 0 <= i < upto && 0 < l[i] ==> #[trigger] l[i] >= limit,
    ensures
        space(l, upto) <= used(freq, upto) * pow2((MAX_LEN - limit) as nat),
    decreases upto,
{
    let p = pow2((MAX_LEN - limit) as nat);
    lemma_pow2_pos((MAX_LEN - limit) as nat);
    if upto > 0 {
        lemma_space_at_limit(l, freq, limit, upto - 1);
        let b = l[upto - 1];
        if limit < b <= MAX_LEN {
            lemma_pow2_strictly_increases((MAX_LEN - b) as nat, (MAX_LEN - limit) as nat);
        }
        let u = used(freq, upto - 1);
        assert((u + 1) * p == u * p + p) by (nonlinear_arith);
    } else {
        assert(0 * p == 0);
    }
}

proof fn lemma_space_grows(l: Seq<u8>, i: int, upto: int)
    requires
        0 <= i <= upto,
    ensures
        space(l, i) <= space(l, upto),
    decreases upto,
{
    if i < upto {
        lemma_space_grows(l, i, upto - 1);
    }
}

/// The code space that words of these lengths take up.
fn space_of(l: &Vec<u8>) -> (k: u64)
    requires
        space(l@, l@.len() as int) <= 0x2000_0000,
    ensures
        k == space(l@, l@.len() as int),
{
    let mut k: u64 = 0;
    let mut i: usize = 0;
    while i < l.len()
        invariant
            i <= l.len(),
            space(l@, l@.len() as int) <= 0x2000_0000,
            k == space(l@, i as int),
        decreases l.len() - i,
    {
        let b: u8 = l[i];
        proof {
            lemma_space_grows(l@, i + 1, l@.len() as int);
        }
        if 0 < b && b <= MAX_LEN {
            proof {
                vstd::arithmetic::power2::lemma2_to64();
                lemma_pow2_pos((MAX_LEN - b) as nat);
                lemma_pow2_strictly_increases((MAX_LEN - b) as nat, 15);
                vstd::bits::lemma_u64_shl_is_mul(1u64, (MAX_LEN - b) as u64);
            }
            k = k + (1u64 << (MAX_LEN - b));
        }
        i = i + 1;
    }
    k
}

fn find_longest_below(l: &Vec<u8>, limit: u8) -> (r: Option<usize>)
    ensures
        match r {
            Some(i) => longest_below(l@, limit, l@.len() as int) == Some(i as int),
            None => longest_below(l@, limit, l@.len() as int) is None,
        },
{
    let mut best: Option<usize> = None;
    let mut i: usize = 0;
    while i < l.len()
        invariant
            i <= l.len(),
            match best {
                Some(k) => k < i && longest_below(l@, limit, i as int) == Some(k as int),
                None => longest_below(l@, limit, i as int) is None,
            },
        decreases l.len() - i,
    {
        let b: u8 = l[i];
        let better: bool = match best {
            Some(k) => l[k] < b,
            None => true,
        };
        if 0 < b && b < limit && better {
            best = Some(i);
        }
        i = i + 1;
    }
    best
}

/// What cutting and lengthening keep: who has a word, and the limit.
spec fn words_for(l: Seq<u8>, freq: Seq<u32>, limit: u8) -> bool {
    &&& l.len() == freq.len()
    &&& forall|i: int| 0 <= i < l.len() ==> (#[trigger] l[i] > 0 <==> freq[i] > 0)
    &&& forall|i: int| 0 <= i < l.len() ==> #[trigger] l[i] <= limit
}

fn make_room(l: &mut Vec<u8>, limit: u8)
    requires
        1 <= limit <= MAX_LEN,
        space(old(l)@, old(l)@.len() as int) <= 0x2000_0000,
    ensures
        final(l)@ == made_room(old(l)@, limit),
{
    let ghost l0 = l@;
    let mut k: u64 = space_of(l);
    proof {
        vstd::arithmetic::power2::lemma2_to64();
    }
    while k > 0x8000
        invariant
            1 <= limit <= MAX_LEN,
            l0 == old(l)@,
            pow2(15) == 0x8000,
            k == space(l@, l@.len() as int),
            made_room(l@, limit) == made_room(l0, limit),
        decreases k,
    {
        proof {
            lemma_longest_below(l@, limit, l@.len() as int);
        }
        match find_longest_below(l, limit) {
            Some(i) => {
                let b: u8 = l[i];
                proof {
                    lemma_space_update(l@, i as int, (b + 1) as u8, l@.len() as int);
                    lemma_share_shrinks(b);
                    lemma_share_le(b, l@, i as int, l@.len() as int);
                    lemma_pow2_strictly_increases((MAX_LEN - (b + 1)) as nat, 15);
                    vstd::bits::lemma_u64_shl_is_mul(1u64, (MAX_LEN - (b + 1)) as u64);
                }
                k = k - (1u64 << (MAX_LEN - (b + 1)));
                l.set(i, b + 1);
            },
            None => {
                return;
            },
        }
    }
}

proof fn lemma_share_le(b: u8, l: Seq<u8>, i: int, upto: int)
    requires
        0 <= i < upto <= l.len(),
        l[i] == b,
    ensures
        share(b) <= space(l, upto),
    decreases upto,
{
    if i < upto - 1 {
        lemma_share_le(b, l, i, upto - 1);
    }
}

// ── the tree ────────────────────────────────────────────────────────────────

struct Node {
    freq: u64,
    sym: usize,
    kids: Option<(usize, usize)>,
}

spec fn nodes_ok(n: Seq<Node>) -> bool {
    forall|i: int|
        0 <= i < n.len() ==> match (#[trigger] n[i]).kids {
            Some(k) => k.0 < i && k.1 < i,
            None => true,
        }
}

spec fn tree_of(n: Seq<Node>, i: int) -> Tree
    decreases i,
{
    match n[i].kids {
        Some(k) => if k.0 < i && k.1 < i {
            Tree::Branch(
                n[i].freq as nat,
                Box::new(tree_of(n, k.0 as int)),
                Box::new(tree_of(n, k.1 as int)),
            )
        } else {
            arbitrary()
        },
        None => Tree::Leaf(n[i].freq as nat, n[i].sym as nat),
    }
}

spec fn trees_of(n: Seq<Node>, h: Seq<usize>) -> Seq<Tree> {
    Seq::new(h.len(), |i: int| tree_of(n, h[i] as int))
}

proof fn lemma_tree_push(n: Seq<Node>, x: Node, i: int)
    requires
        nodes_ok(n),
        0 <= i < n.len(),
    ensures
        tree_of(n.push(x), i) == tree_of(n, i),
    decreases i,
{
    if let Some(k) = n[i].kids {
        lemma_tree_push(n, x, k.0 as int);
        lemma_tree_push(n, x, k.1 as int);
    }
}

/// The sum of the weights of the first `upto` trees.
spec fn total(h: Seq<Tree>, upto: int) -> nat
    decreases upto,
{
    if upto <= 0 {
        0
    } else {
        total(h, upto - 1) + weight(h[upto - 1])
    }
}

proof fn lemma_total_same(a: Seq<Tree>, b: Seq<Tree>, upto: int)
    requires
        forall|i: int| 0 <= i < upto ==> #[trigger] a[i] == b[i],
    ensures
        total(a, upto) == total(b, upto),
    decreases upto,
{
    if upto > 0 {
        lemma_total_same(a, b, upto - 1);
    }
}

proof fn lemma_total_update(h: Seq<Tree>, i: int, t: Tree, upto: int)
    requires
        0 <= i < upto <= h.len(),
    ensures
        total(h.update(i, t), upto) + weight(h[i]) == total(h, upto) + weight(t),
    decreases upto,
{
    if i == upto - 1 {
        lemma_total_same(h, h.update(i, t), i);
    } else {
        lemma_total_update(h, i, t, upto - 1);
    }
}

proof fn lemma_total_swap_out(h: Seq<Tree>, i: int)
    requires
        0 <= i < h.len(),
    ensures
        total(swap_out(h, i), h.len() - 1) + weight(h[i]) == total(h, h.len() as int),
{
    lemma_total_update(h, i, h.last(), h.len() as int);
    lemma_total_same(h.update(i, h.last()), swap_out(h, i), h.len() - 1);
}

pub proof fn lemma_lightest(h: Seq<Tree>, upto: int)
    requires
        1 <= upto,
    ensures
        0 <= lightest(h, upto) < upto,
    decreases upto,
{
    if upto > 1 {
        lemma_lightest(h, upto - 1);
    }
}

fn pop_min(heap: &mut Vec<usize>, nodes: &Vec<Node>) -> (r: usize)
    requires
        nodes_ok(nodes@),
        old(heap)@.len() > 0,
        forall|i: int| 0 <= i < old(heap)@.len() ==> #[trigger] old(heap)@[i] < nodes@.len(),
    ensures
        ({
            let h = trees_of(nodes@, old(heap)@);
            let i = lightest(h, h.len() as int);
            &&& 0 <= i < h.len()
            &&& r == old(heap)@[i]
            &&& final(heap)@ == swap_out(old(heap)@, i)
            &&& trees_of(nodes@, final(heap)@) == swap_out(h, i)
        }),
        forall|i: int| 0 <= i < final(heap)@.len() ==> #[trigger] final(heap)@[i] < nodes@.len(),
{
    let ghost h = trees_of(nodes@, heap@);
    let ghost heap0 = heap@;
    let mut mi: usize = 0;
    let mut i: usize = 1;
    while i < heap.len()
        invariant
            1 <= i <= heap.len(),
            heap@ == heap0,
            nodes_ok(nodes@),
            h == trees_of(nodes@, heap0),
            forall|j: int| 0 <= j < heap0.len() ==> #[trigger] heap0[j] < nodes@.len(),
            mi < i,
            mi == lightest(h, i as int),
        decreases heap.len() - i,
    {
        assert(weight(h[i as int]) == nodes@[heap0[i as int] as int].freq);
        assert(weight(h[mi as int]) == nodes@[heap0[mi as int] as int].freq);
        if nodes[heap[i]].freq < nodes[heap[mi]].freq {
            mi = i;
        }
        i = i + 1;
    }
    let r: usize = heap.swap_remove(mi);
    proof {
        assert(heap@ =~= swap_out(heap0, mi as int));
        assert(trees_of(nodes@, heap@) =~= swap_out(h, mi as int));
    }
    r
}

fn assign(
    nodes: &Vec<Node>,
    i: usize,
    depth: u8,
    limit: u8,
    lengths: &mut Vec<u8>,
)
    requires
        nodes_ok(nodes@),
        i < nodes@.len(),
        depth <= limit,
        forall|j: int| 0 <= j < nodes@.len() ==> (#[trigger] nodes@[j]).sym < old(lengths)@.len(),
    ensures
        final(lengths)@ == assigned(tree_of(nodes@, i as int), depth, limit, old(lengths)@),
        final(lengths)@.len() == old(lengths)@.len(),
    decreases i,
{
    match nodes[i].kids {
        None => {
            let s: usize = nodes[i].sym;
            lengths.set(s, if depth == 0 {
                1
            } else {
                depth
            });
        },
        Some((a, b)) => {
            let d: u8 = if depth < limit {
                depth + 1
            } else {
                depth
            };
            assign(nodes, a, d, limit, lengths);
            assign(nodes, b, d, limit, lengths);
        },
    }
}

// ── who gets a word ─────────────────────────────────────────────────────────

spec fn has_symbol(t: Tree, s: nat) -> bool
    decreases t,
{
    match t {
        Tree::Leaf(_, x) => x == s,
        Tree::Branch(_, a, b) => has_symbol(*a, s) || has_symbol(*b, s),
    }
}

spec fn forest_has(h: Seq<Tree>, s: nat) -> bool {
    exists|i: int| 0 <= i < h.len() && #[trigger] has_symbol(h[i], s)
}

proof fn lemma_leaves_have(freq: Seq<u32>, upto: int, s: nat)
    requires
        0 <= upto <= freq.len(),
    ensures
        forest_has(leaves(freq, upto), s) <==> s < upto && freq[s as int] > 0,
    decreases upto,
{
    if upto > 0 {
        lemma_leaves_have(freq, upto - 1, s);
        let a = leaves(freq, upto - 1);
        let b = leaves(freq, upto);
        if freq[upto - 1] > 0 {
            assert(b.last() == Tree::Leaf(freq[upto - 1] as nat, (upto - 1) as nat));
            if forest_has(a, s) {
                let i = choose|i: int| 0 <= i < a.len() && #[trigger] has_symbol(a[i], s);
                assert(b[i] == a[i]);
            }
            if forest_has(b, s) {
                let i = choose|i: int| 0 <= i < b.len() && #[trigger] has_symbol(b[i], s);
                if i < a.len() {
                    assert(a[i] == b[i]);
                    assert(forest_has(a, s));
                }
            }
            if s == upto - 1 {
                assert(has_symbol(b[b.len() - 1], s));
            }
        }
    }
}

proof fn lemma_swap_out_has(h: Seq<Tree>, i: int, s: nat)
    requires
        0 <= i < h.len(),
    ensures
        forest_has(h, s) <==> has_symbol(h[i], s) || forest_has(swap_out(h, i), s),
{
    let g = swap_out(h, i);
    if forest_has(h, s) && !has_symbol(h[i], s) {
        let k = choose|k: int| 0 <= k < h.len() && #[trigger] has_symbol(h[k], s);
        if k == h.len() - 1 {
            assert(g[i] == h[k]);
        } else {
            assert(g[k] == h[k]);
        }
    }
    if forest_has(g, s) {
        let k = choose|k: int| 0 <= k < g.len() && #[trigger] has_symbol(g[k], s);
        if k == i {
            assert(g[k] == h[h.len() - 1]);
        } else {
            assert(g[k] == h[k]);
        }
    }
}

proof fn lemma_merged_has(h: Seq<Tree>, s: nat)
    requires
        h.len() > 0,
    ensures
        has_symbol(merged(h), s) <==> forest_has(h, s),
    decreases h.len(),
{
    if h.len() == 1 {
        assert(has_symbol(h[0], s) ==> forest_has(h, s));
    } else {
        let i = lightest(h, h.len() as int);
        lemma_lightest(h, h.len() as int);
        let h1 = swap_out(h, i);
        let j = lightest(h1, h1.len() as int);
        lemma_lightest(h1, h1.len() as int);
        let h2 = swap_out(h1, j);
        lemma_swap_out_has(h, i, s);
        lemma_swap_out_has(h1, j, s);
        let g = merge_step(h);
        assert(g.last() == Tree::Branch(
            weight(h[i]) + weight(h1[j]),
            Box::new(h[i]),
            Box::new(h1[j]),
        ));
        if forest_has(h2, s) {
            let k = choose|k: int| 0 <= k < h2.len() && #[trigger] has_symbol(h2[k], s);
            assert(g[k] == h2[k]);
        }
        if has_symbol(h[i], s) || has_symbol(h1[j], s) {
            assert(has_symbol(g[g.len() - 1], s));
        }
        if forest_has(g, s) {
            let k = choose|k: int| 0 <= k < g.len() && #[trigger] has_symbol(g[k], s);
            if k < h2.len() {
                assert(g[k] == h2[k]);
            }
        }
        lemma_merged_has(g, s);
    }
}

proof fn lemma_assigned(t: Tree, depth: u8, limit: u8, l: Seq<u8>, i: int)
    requires
        depth <= limit,
        1 <= limit,
        0 <= i < l.len(),
        forall|s: nat| #[trigger] has_symbol(t, s) ==> s < l.len(),
    ensures
        assigned(t, depth, limit, l).len() == l.len(),
        assigned(t, depth, limit, l)[i] > 0 <==> l[i] > 0 || has_symbol(t, i as nat),
        l[i] <= limit ==> assigned(t, depth, limit, l)[i] <= limit,
    decreases t,
{
    if let Tree::Leaf(_, x) = t {
        assert(has_symbol(t, x));
    }
    if let Tree::Branch(_, a, b) = t {
        let d = if depth < limit {
            (depth + 1) as u8
        } else {
            depth
        };
        let m = assigned(*a, d, limit, l);
        assert forall|s: nat| #[trigger] has_symbol(*a, s) implies s < l.len() by {
            assert(has_symbol(t, s));
        }
        assert forall|s: nat| #[trigger] has_symbol(*b, s) implies s < l.len() by {
            assert(has_symbol(t, s));
        }
        lemma_assigned(*a, d, limit, l, i);
        lemma_assigned(*b, d, limit, m, i);
    }
}

proof fn lemma_made_room(l: Seq<u8>, limit: u8, freq: Seq<u32>)
    requires
        1 <= limit <= MAX_LEN,
        used(freq, freq.len() as int) <= pow2(limit as nat),
        words_for(l, freq, limit),
    ensures
        words_for(made_room(l, limit), freq, limit),
        space(made_room(l, limit), l.len() as int) <= pow2(MAX_LEN as nat),
    decreases space(l, l.len() as int),
{
    if space(l, l.len() as int) > pow2(MAX_LEN as nat) {
        lemma_longest_below(l, limit, l.len() as int);
        match longest_below(l, limit, l.len() as int) {
            Some(i) => {
                let m = l.update(i, (l[i] + 1) as u8);
                lemma_room_grows(l, limit);
                lemma_made_room(m, limit, freq);
            },
            None => {
                lemma_space_at_limit(l, freq, limit, l.len() as int);
                lemma_pow2_adds(limit as nat, (MAX_LEN - limit) as nat);
                let p = pow2((MAX_LEN - limit) as nat);
                let n = used(freq, freq.len() as int);
                assert(n * p <= pow2(limit as nat) * p) by (nonlinear_arith)
                    requires
                        n <= pow2(limit as nat),
                ;
            },
        }
    }
}

/// The depths, cut at the limit, are words for the symbols that occur.
proof fn lemma_assigned_words(freq: Seq<u32>, limit: u8)
    requires
        1 <= limit,
        leaves(freq, freq.len() as int).len() > 0,
    ensures
        words_for(
            assigned(
                merged(leaves(freq, freq.len() as int)),
                0,
                limit,
                no_words(freq.len()),
            ),
            freq,
            limit,
        ),
{
    let n = freq.len() as int;
    let none = no_words(freq.len());
    let h = leaves(freq, n);
    let l = assigned(merged(h), 0, limit, none);
    assert forall|x: nat| #[trigger] has_symbol(merged(h), x) implies x < none.len() by {
        lemma_merged_has(h, x);
        lemma_leaves_have(freq, n, x);
    }
    lemma_leaves_len(freq, n);
    lemma_assigned(merged(h), 0, limit, none, 0);
    assert forall|s: int| 0 <= s < l.len() implies (#[trigger] l[s] > 0 <==> freq[s] > 0) && l[s]
        <= limit by {
        lemma_assigned(merged(h), 0, limit, none, s);
        lemma_merged_has(h, s as nat);
        lemma_leaves_have(freq, n, s as nat);
    }
}

/// The depths, cut at the limit, take up no more than so many words of one bit.
proof fn lemma_assigned_space(freq: Seq<u32>, limit: u8)
    requires
        1 <= limit <= MAX_LEN,
        leaves(freq, freq.len() as int).len() > 0,
        used(freq, freq.len() as int) <= pow2(limit as nat),
    ensures
        space(
            assigned(
                merged(leaves(freq, freq.len() as int)),
                0,
                limit,
                no_words(freq.len()),
            ),
            freq.len() as int,
        ) <= 0x2000_0000,
{
    let l = assigned(
        merged(leaves(freq, freq.len() as int)),
        0,
        limit,
        no_words(freq.len()),
    );
    lemma_assigned_words(freq, limit);
    lemma_space_at_limit(l, freq, 1, freq.len() as int);
    vstd::arithmetic::power2::lemma2_to64();
    if limit < MAX_LEN {
        lemma_pow2_strictly_increases(limit as nat, MAX_LEN as nat);
    }
    let u = used(freq, freq.len() as int);
    let p = pow2((MAX_LEN - 1) as nat);
    assert(u * p <= 0x2000_0000) by (nonlinear_arith)
        requires
            u <= 0x8000,
            p == 0x4000,
    ;
}

/// Exactly the symbols that occur get a word, no word is longer than the
/// limit, and the words fit side by side.
pub proof fn lemma_code_lengths(freq: Seq<u32>, limit: u8)
    requires
        1 <= limit <= MAX_LEN,
        used(freq, freq.len() as int) <= pow2(limit as nat),
    ensures
        code_lengths(freq, limit).len() == freq.len(),
        forall|i: int|
            0 <= i < freq.len() ==> (#[trigger] code_lengths(freq, limit)[i] > 0 <==> freq[i] > 0),
        forall|i: int| 0 <= i < freq.len() ==> #[trigger] code_lengths(freq, limit)[i] <= limit,
        space(code_lengths(freq, limit), freq.len() as int) <= pow2(MAX_LEN as nat),
{
    let n = freq.len() as int;
    let none = no_words(freq.len());
    let h = leaves(freq, n);
    if h.len() == 0 {
        assert forall|s: int| 0 <= s < n implies freq[s] == 0 by {
            lemma_leaves_have(freq, n, s as nat);
        }
        lemma_no_words(none, n);
        lemma_pow2_pos(MAX_LEN as nat);
    } else {
        lemma_assigned_words(freq, limit);
        lemma_made_room(assigned(merged(h), 0, limit, none), limit, freq);
    }
}

/// There is a leaf for each symbol that occurs.
pub proof fn lemma_leaves_len(freq: Seq<u32>, upto: int)
    requires
        0 <= upto,
    ensures
        leaves(freq, upto).len() == used(freq, upto) <= upto,
    decreases upto,
{
    if upto > 0 {
        lemma_leaves_len(freq, upto - 1);
    }
}

/// Length-limited prefix code lengths from symbol frequencies. Exactly the
/// symbols that occur get a word, no word is longer than `limit`, and the words
/// fit side by side. There must not be more symbols that occur than words of
/// `limit` bits.
pub fn huffman_lengths(freq: &[u32], limit: u8) -> (lengths: Vec<u8>)
    requires
        1 <= limit <= MAX_LEN,
        used(freq@, freq@.len() as int) <= pow2(limit as nat),
    ensures
        lengths@ == code_lengths(freq@, limit),
        lengths@.len() == freq@.len(),
        forall|i: int|
            0 <= i < lengths@.len() ==> (#[trigger] lengths@[i] > 0 <==> freq@[i] > 0),
        forall|i: int| 0 <= i < lengths@.len() ==> #[trigger] lengths@[i] <= limit,
        space(lengths@, lengths@.len() as int) <= pow2(MAX_LEN as nat),
{
    proof {
        vstd::arithmetic::power2::lemma2_to64();
        if limit < 15 {
            lemma_pow2_strictly_increases(limit as nat, 15);
        }
        lemma_code_lengths(freq@, limit);
        lemma_leaves_len(freq@, freq@.len() as int);
    }
    let n: usize = freq.len();
    let ghost u = used(freq@, freq@.len() as int);
    let ghost none = no_words(freq@.len());
    let mut lengths: Vec<u8> = vec![0u8; n];
    assert(lengths@ =~= none);
    let mut nodes: Vec<Node> = Vec::new();
    let mut heap: Vec<usize> = Vec::new();
    let mut i: usize = 0;
    assert(trees_of(nodes@, heap@) =~= leaves(freq@, 0));
    while i < n
        invariant
            i <= n == freq.len(),
            nodes_ok(nodes@),
            nodes@.len() == heap@.len() == used(freq@, i as int),
            forall|j: int| 0 <= j < nodes@.len() ==> (#[trigger] nodes@[j]).sym < n,
            forall|j: int| 0 <= j < heap@.len() ==> #[trigger] heap@[j] < nodes@.len(),
            trees_of(nodes@, heap@) == leaves(freq@, i as int),
            total(trees_of(nodes@, heap@), heap@.len() as int) <= used(freq@, i as int)
                * 0x1_0000_0000,
        decreases n - i,
    {
        if freq[i] > 0 {
            let ghost nodes0 = nodes@;
            let ghost heap0 = heap@;
            let k: usize = nodes.len();
            nodes.push(Node { freq: freq[i] as u64, sym: i, kids: None });
            heap.push(k);
            proof {
                let h0 = trees_of(nodes0, heap0);
                let h1 = trees_of(nodes@, heap@);
                assert forall|j: int| 0 <= j < heap0.len() implies h1[j] == h0[j] by {
                    lemma_tree_push(nodes0, nodes@[k as int], heap0[j] as int);
                }
                assert(h1 =~= leaves(freq@, i + 1));
                lemma_total_same(h0, h1, heap0.len() as int);
            }
        }
        i = i + 1;
    }
    let ghost h = leaves(freq@, n as int);
    if heap.len() == 0 {
        return lengths;
    }
    while heap.len() > 1
        invariant
            heap@.len() >= 1,
            nodes_ok(nodes@),
            nodes@.len() + heap@.len() <= 2 * u,
            u <= 0x8000,
            forall|j: int| 0 <= j < nodes@.len() ==> (#[trigger] nodes@[j]).sym < n,
            forall|j: int| 0 <= j < heap@.len() ==> #[trigger] heap@[j] < nodes@.len(),
            merged(trees_of(nodes@, heap@)) == merged(h),
            total(trees_of(nodes@, heap@), heap@.len() as int) <= u * 0x1_0000_0000,
        decreases heap@.len(),
    {
        let ghost h0 = trees_of(nodes@, heap@);
        let ghost nodes0 = nodes@;
        let a: usize = pop_min(&mut heap, &nodes);
        let ghost h1 = trees_of(nodes@, heap@);
        let b: usize = pop_min(&mut heap, &nodes);
        let ghost h2 = trees_of(nodes@, heap@);
        let ghost heap2 = heap@;
        let ghost x = lightest(h0, h0.len() as int);
        let ghost y = lightest(h1, h1.len() as int);
        proof {
            lemma_total_swap_out(h0, x);
            lemma_total_swap_out(h1, y);
            assert(weight(h0[x]) == nodes@[a as int].freq);
            assert(weight(h1[y]) == nodes@[b as int].freq);
        }
        let f: u64 = nodes[a].freq + nodes[b].freq;
        let s: usize = nodes[a].sym;
        let k: usize = nodes.len();
        nodes.push(Node { freq: f, sym: s, kids: Some((a, b)) });
        heap.push(k);
        proof {
            let g = trees_of(nodes@, heap@);
            assert forall|j: int| 0 <= j < heap2.len() implies g[j] == h2[j] by {
                lemma_tree_push(nodes0, nodes@[k as int], heap2[j] as int);
            }
            lemma_tree_push(nodes0, nodes@[k as int], a as int);
            lemma_tree_push(nodes0, nodes@[k as int], b as int);
            assert(g[heap2.len() as int] == tree_of(nodes@, k as int));
            assert(g =~= merge_step(h0));
            lemma_total_same(h2, g, heap2.len() as int);
        }
    }
    let root: usize = heap[0];
    assign(&nodes, root, 0, limit, &mut lengths);
    assert(trees_of(nodes@, heap@)[0] == tree_of(nodes@, root as int));
    proof {
        lemma_assigned_space(freq@, limit);
    }
    make_room(&mut lengths, limit);
    lengths
}

proof fn lemma_no_words(l: Seq<u8>, upto: int)
    requires
        0 <= upto <= l.len(),
        forall|i: int| 0 <= i < upto ==> #[trigger] l[i] == 0,
    ensures
        space(l, upto) == 0,
    decreases upto,
{
    if upto > 0 {
        lemma_no_words(l, upto - 1);
    }
}

} // verus!
