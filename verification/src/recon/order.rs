//! Stable ordering by keys.
use vstd::prelude::*;

verus! {

/// A place in the reading order: the region of the page, the column in it, and
/// how far down. Real numbers come as keys that order as they do.
#[derive(Clone, Copy, Debug, PartialEq, Eq, Structural)]
pub struct Rank {
    /// What has no place on the page comes last.
    pub last: bool,
    pub region: usize,
    pub band: usize,
    pub down: i64,
}

/// One rank comes before another.
pub open spec fn before(a: Rank, b: Rank) -> bool {
    if a.last != b.last {
        !a.last
    } else if a.region != b.region {
        a.region < b.region
    } else if a.band != b.band {
        a.band < b.band
    } else {
        a.down < b.down
    }
}

pub fn comes_before(a: &Rank, b: &Rank) -> (r: bool)
    ensures
        r == before(*a, *b),
{
    if a.last != b.last {
        !a.last
    } else if a.region != b.region {
        a.region < b.region
    } else if a.band != b.band {
        a.band < b.band
    } else {
        a.down < b.down
    }
}

/// Where the next index goes among `order`: behind all that it does not come
/// before.
pub open spec fn slot(keys: Seq<Rank>, order: Seq<usize>, k: int) -> int
    decreases order.len(),
{
    if order.len() > 0 && before(keys[k], keys[order.last() as int]) {
        slot(keys, order.drop_last(), k)
    } else {
        order.len() as int
    }
}

/// The first `n` indices in the order of their keys; equal keys keep the order
/// they came in.
pub open spec fn ordered(keys: Seq<Rank>, n: int) -> Seq<usize>
    decreases n,
{
    if n <= 0 {
        Seq::empty()
    } else {
        let o = ordered(keys, n - 1);
        o.insert(slot(keys, o, n - 1), (n - 1) as usize)
    }
}

proof fn lemma_slot(keys: Seq<Rank>, order: Seq<usize>, k: int)
    ensures
        0 <= slot(keys, order, k) <= order.len(),
        forall|i: int|
            slot(keys, order, k) <= i < order.len() ==> before(
                keys[k],
                keys[#[trigger] order[i] as int],
            ),
        slot(keys, order, k) > 0 ==> !before(
            keys[k],
            keys[order[slot(keys, order, k) - 1] as int],
        ),
    decreases order.len(),
{
    if order.len() > 0 && before(keys[k], keys[order.last() as int]) {
        let t = order.drop_last();
        lemma_slot(keys, t, k);
        assert forall|i: int| slot(keys, order, k) <= i < order.len() implies before(
            keys[k],
            keys[#[trigger] order[i] as int],
        ) by {
            if i < t.len() {
                assert(order[i] == t[i]);
            }
        }
    }
}

/// Order indices by their keys, stably.
pub fn stable_order(keys: &[Rank]) -> (order: Vec<usize>)
    ensures
        order@ == ordered(keys@, keys@.len() as int),
{
    let mut order: Vec<usize> = Vec::new();
    let mut k: usize = 0;
    while k < keys.len()
        invariant
            k <= keys@.len(),
            order@ == ordered(keys@, k as int),
            order@.len() == k,
            forall|i: int| 0 <= i < order@.len() ==> (#[trigger] order@[i]) < k,
        decreases keys.len() - k,
    {
        let ghost o = order@;
        let mut at: usize = order.len();
        assert(o.take(o.len() as int) =~= o);
        while at > 0 && comes_before(&keys[k], &keys[order[at - 1]])
            invariant
                at <= order@.len(),
                k < keys@.len(),
                o == order@,
                forall|i: int| 0 <= i < order@.len() ==> (#[trigger] order@[i]) < k,
                slot(keys@, o, k as int) == slot(keys@, o.take(at as int), k as int),
            decreases at,
        {
            assert(o.take(at as int).last() == o[at - 1]);
            assert(o.take(at as int).drop_last() =~= o.take(at - 1));
            at = at - 1;
        }
        proof {
            if at > 0 {
                assert(o.take(at as int).last() == o[at - 1]);
            }
            assert(slot(keys@, o, k as int) == at);
        }
        order.insert(at, k);
        k = k + 1;
    }
    order
}

/// One index stands before another: by its key, or by coming first.
pub open spec fn precedes(keys: Seq<Rank>, a: usize, b: usize) -> bool {
    before(keys[a as int], keys[b as int]) || (!before(keys[b as int], keys[a as int]) && a < b)
}

proof fn lemma_before_order(a: Rank, b: Rank, c: Rank)
    ensures
        before(a, b) && before(b, c) ==> before(a, c),
        !before(a, b) && !before(b, c) ==> !before(a, c),
        !(before(a, b) && before(b, a)),
{
}

/// Ordering loses no index and repeats none: it holds every index below `n`
/// once, each behind those that precede it.
pub proof fn law_ordering(keys: Seq<Rank>, n: int)
    requires
        0 <= n <= keys.len() <= usize::MAX,
    ensures
        ordered(keys, n).len() == n,
        forall|i: int| 0 <= i < n ==> (#[trigger] ordered(keys, n)[i]) < n,
        forall|k: usize| k < n ==> #[trigger] ordered(keys, n).contains(k),
        forall|i: int, j: int|
            0 <= i < j < n ==> precedes(keys, ordered(keys, n)[i], ordered(keys, n)[j]),
    decreases n,
{
    if n > 0 {
        law_ordering(keys, n - 1);
        let o = ordered(keys, n - 1);
        let k = n - 1;
        let at = slot(keys, o, k);
        lemma_slot(keys, o, k);
        let r = ordered(keys, n);
        assert(r == o.insert(at, k as usize));
        assert forall|x: usize| x < n implies #[trigger] r.contains(x) by {
            if x == k {
                assert(r[at] == k as usize);
            } else {
                assert(o.contains(x));
                let i = choose|i: int| 0 <= i < o.len() && o[i] == x;
                if i < at {
                    assert(r[i] == x);
                } else {
                    assert(r[i + 1] == x);
                }
            }
        }
        assert forall|i: int, j: int| 0 <= i < j < n implies precedes(keys, r[i], r[j]) by {
            if i == at {
                assert(r[j] == o[j - 1]);
            } else if j == at {
                assert(r[i] == o[i]);
                let p = o[at - 1];
                if i < at - 1 {
                    assert(precedes(keys, o[i], p));
                }
                lemma_before_order(keys[k], keys[p as int], keys[o[i] as int]);
                lemma_before_order(keys[o[i] as int], keys[p as int], keys[k]);
            } else {
                let a = if i < at {
                    i
                } else {
                    i - 1
                };
                let b = if j < at {
                    j
                } else {
                    j - 1
                };
                assert(r[i] == o[a] && r[j] == o[b]);
            }
        }
    }
}

/// Keys that are in order already keep their order.
pub proof fn law_ordered_stays(keys: Seq<Rank>, n: int)
    requires
        0 <= n <= keys.len() <= usize::MAX,
        forall|i: int, j: int| 0 <= i < j < keys.len() ==> !before(keys[j], keys[i]),
    ensures
        ordered(keys, n) == Seq::new(n as nat, |i: int| i as usize),
    decreases n,
{
    if n > 0 {
        law_ordered_stays(keys, n - 1);
        let o = ordered(keys, n - 1);
        if o.len() > 0 {
            assert(o.last() == (n - 2) as usize);
            assert(!before(keys[n - 1], keys[n - 2]));
        }
        assert(slot(keys, o, n - 1) == o.len());
    }
    assert(ordered(keys, n) =~= Seq::new(n as nat, |i: int| i as usize));
}

} // verus!
