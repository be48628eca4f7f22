//! Choosing among items: the best of them, and those that stand apart.
use vstd::prelude::*;

verus! {

// ── the best ────────────────────────────────────────────────────────────────

/// One key is better than another: larger where the most is wanted, else
/// smaller.
pub open spec fn is_better(a: i64, b: i64, most: bool) -> bool {
    if most {
        a > b
    } else {
        a < b
    }
}

/// The first of the best among the first `n` keys; what has no key is no choice.
pub open spec fn first_best(keys: Seq<Option<i64>>, most: bool, n: int) -> Option<int>
    decreases n,
{
    if n <= 0 {
        None
    } else {
        let b = first_best(keys, most, n - 1);
        if keys[n - 1] is Some && (b is None || is_better(keys[n - 1]->0, keys[b->0]->0, most)) {
            Some(n - 1)
        } else {
            b
        }
    }
}

/// The first of the items with the best key.
pub fn find_best(keys: &[Option<i64>], most: bool) -> (r: Option<usize>)
    ensures
        match first_best(keys@, most, keys@.len() as int) {
            None => r is None,
            Some(b) => r == Some(b as usize) && 0 <= b < keys@.len(),
        },
{
    let mut best: Option<(usize, i64)> = None;
    let mut k: usize = 0;
    while k < keys.len()
        invariant
            k <= keys@.len(),
            match best {
                Some((b, d)) => b < k && first_best(keys@, most, k as int) == Some(b as int)
                    && keys@[b as int] == Some(d),
                None => first_best(keys@, most, k as int) is None,
            },
        decreases keys.len() - k,
    {
        if let Some(d) = keys[k] {
            let better: bool = match best {
                None => true,
                Some((_, e)) => if most {
                    d > e
                } else {
                    d < e
                },
            };
            if better {
                best = Some((k, d));
            }
        }
        k = k + 1;
    }
    match best {
        Some((b, _)) => Some(b),
        None => None,
    }
}

/// The choice has a key where any has one; no key is better than its, and those
/// before it are worse.
pub proof fn law_first_best(keys: Seq<Option<i64>>, most: bool, n: int)
    requires
        0 <= n <= keys.len(),
    ensures
        match first_best(keys, most, n) {
            None => forall|k: int| 0 <= k < n ==> #[trigger] keys[k] is None,
            Some(b) => {
                &&& 0 <= b < n
                &&& keys[b] is Some
                &&& forall|k: int|
                    0 <= k < n && (#[trigger] keys[k]) is Some ==> !is_better(
                        keys[k]->0,
                        keys[b]->0,
                        most,
                    )
                &&& forall|k: int|
                    0 <= k < b && (#[trigger] keys[k]) is Some ==> is_better(
                        keys[b]->0,
                        keys[k]->0,
                        most,
                    )
            },
        },
    decreases n,
{
    if n > 0 {
        law_first_best(keys, most, n - 1);
    }
}

// ── those that stand apart ──────────────────────────────────────────────────

/// Those kept of the first `n` in an order: one too close to the last that was
/// kept is dropped.
pub open spec fn kept_in(order: Seq<usize>, close: Seq<Vec<bool>>, n: int) -> Seq<usize>
    decreases n,
{
    if n <= 0 {
        Seq::empty()
    } else {
        let s = kept_in(order, close, n - 1);
        if s.len() > 0 && close[order[n - 1] as int]@[s.last() as int] {
            s
        } else {
            s.push(order[n - 1])
        }
    }
}

/// `close` says of each two of `n` items whether they are close.
pub open spec fn close_wf(close: Seq<Vec<bool>>, n: nat) -> bool {
    &&& close.len() == n
    &&& forall|k: int| 0 <= k < n ==> (#[trigger] close[k])@.len() == n
}

/// Go through items in an order, and drop one that is too close to the last
/// that was kept.
pub fn keep_apart(order: &[usize], close: &Vec<Vec<bool>>) -> (r: Vec<usize>)
    requires
        close_wf(close@, close@.len()),
        forall|k: int| 0 <= k < order@.len() ==> (#[trigger] order@[k]) < close@.len(),
    ensures
        r@ == kept_in(order@, close@, order@.len() as int),
{
    let mut r: Vec<usize> = Vec::new();
    let mut k: usize = 0;
    while k < order.len()
        invariant
            k <= order@.len(),
            close_wf(close@, close@.len()),
            forall|j: int| 0 <= j < order@.len() ==> (#[trigger] order@[j]) < close@.len(),
            r@ == kept_in(order@, close@, k as int),
            r@.len() > 0 ==> r@.last() < close@.len(),
        decreases order.len() - k,
    {
        let n: usize = r.len();
        let next: usize = order[k];
        assert(close@[next as int]@.len() == close@.len());
        if !(n > 0 && close[next][r[n - 1]]) {
            r.push(next);
        }
        k = k + 1;
    }
    r
}

/// Of two items that are kept one after the other, the second is not too close
/// to the first.
pub proof fn law_kept_stand_apart(order: Seq<usize>, close: Seq<Vec<bool>>, n: int, i: int)
    requires
        0 <= n <= order.len(),
        0 <= i,
        i + 1 < kept_in(order, close, n).len(),
    ensures
        !close[kept_in(order, close, n)[i + 1] as int]@[kept_in(order, close, n)[i] as int],
    decreases n,
{
    let s = kept_in(order, close, n - 1);
    let t = kept_in(order, close, n);
    if i + 1 < s.len() {
        law_kept_stand_apart(order, close, n - 1, i);
        assert(t[i] == s[i] && t[i + 1] == s[i + 1]);
    } else {
        assert(t[i] == s.last());
    }
}

/// The first item is kept, and all that are kept are in the order. The item
/// behind those that were gone through is dropped exactly where it is too close
/// to the last that was kept, and nothing that was kept is dropped later.
pub proof fn law_only_close_items_are_dropped(order: Seq<usize>, close: Seq<Vec<bool>>, n: int)
    requires
        0 < n <= order.len(),
    ensures
        ({
            let before = kept_in(order, close, n - 1);
            let after = kept_in(order, close, n);
            &&& after.len() > 0
            &&& after[0] == order[0]
            &&& after.take(before.len() as int) == before
            &&& after.len() == before.len() <==> before.len() > 0
                && close[order[n - 1] as int]@[before.last() as int]
            &&& after.len() > before.len() ==> after == before.push(order[n - 1])
        }),
    decreases n,
{
    let before = kept_in(order, close, n - 1);
    let after = kept_in(order, close, n);
    if n > 1 {
        law_only_close_items_are_dropped(order, close, n - 1);
    } else {
        assert(before.len() == 0);
    }
    assert(after.take(before.len() as int) =~= before);
}

} // verus!
