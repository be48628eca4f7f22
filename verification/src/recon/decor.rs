//! Rules drawn under text or through it.
use super::sorted::{put, put_distinct};
use vstd::prelude::*;

verus! {

// ── which rules lie where ───────────────────────────────────────────────────

/// A strip along a run, from its lower edge to its upper one, both in it.
#[derive(Clone, Copy, Debug, PartialEq, Eq, Structural)]
pub struct Strip {
    pub lo: i64,
    pub hi: i64,
}

/// A rule hits a run: it covers most of the run's width, and lies in the run's
/// strip.
pub open spec fn is_hit(
    strips: Seq<Strip>,
    covers: Seq<Vec<bool>>,
    heights: Seq<i64>,
    i: int,
    k: int,
) -> bool {
    covers[i]@[k] && strips[i].lo <= heights[k] <= strips[i].hi
}

/// Which rules hit which runs. `covers` says of each run which rules cover most
/// of its width.
pub fn rule_hits(strips: &[Strip], covers: &Vec<Vec<bool>>, heights: &[i64]) -> (r: Vec<Vec<bool>>)
    requires
        covers@.len() == strips@.len(),
        forall|i: int| 0 <= i < covers@.len() ==> (#[trigger] covers@[i])@.len() == heights@.len(),
    ensures
        r@.len() == strips@.len(),
        forall|i: int| 0 <= i < r@.len() ==> (#[trigger] r@[i])@.len() == heights@.len(),
        forall|i: int, k: int|
            0 <= i < r@.len() && 0 <= k < heights@.len() ==> #[trigger] r@[i]@[k] == is_hit(
                strips@,
                covers@,
                heights@,
                i,
                k,
            ),
{
    let mut r: Vec<Vec<bool>> = Vec::new();
    let mut i: usize = 0;
    while i < strips.len()
        invariant
            i <= strips@.len(),
            covers@.len() == strips@.len(),
            forall|j: int|
                0 <= j < covers@.len() ==> (#[trigger] covers@[j])@.len() == heights@.len(),
            r@.len() == i,
            forall|j: int| 0 <= j < i ==> (#[trigger] r@[j])@.len() == heights@.len(),
            forall|j: int, k: int|
                0 <= j < i && 0 <= k < heights@.len() ==> #[trigger] r@[j]@[k] == is_hit(
                    strips@,
                    covers@,
                    heights@,
                    j,
                    k,
                ),
        decreases strips.len() - i,
    {
        let strip: Strip = strips[i];
        let row: &Vec<bool> = &covers[i];
        let mut hits: Vec<bool> = Vec::new();
        let mut k: usize = 0;
        while k < heights.len()
            invariant
                k <= heights@.len(),
                row@.len() == heights@.len(),
                i < strips@.len(),
                strip == strips@[i as int],
                row == covers@[i as int],
                hits@.len() == k,
                forall|q: int|
                    0 <= q < k ==> #[trigger] hits@[q] == is_hit(
                        strips@,
                        covers@,
                        heights@,
                        i as int,
                        q,
                    ),
            decreases heights.len() - k,
        {
            hits.push(row[k] && strip.lo <= heights[k] && heights[k] <= strip.hi);
            k = k + 1;
        }
        r.push(hits);
        i = i + 1;
    }
    r
}

/// No rule is read as both: where the strip for underlines ends below the one
/// for strikes, a rule that underlines a run does not strike it.
pub proof fn law_never_underline_and_strike(
    under: Seq<Strip>,
    strike: Seq<Strip>,
    covers: Seq<Vec<bool>>,
    heights: Seq<i64>,
    i: int,
    k: int,
)
    requires
        under[i].hi < strike[i].lo,
    ensures
        !(is_hit(under, covers, heights, i, k) && is_hit(strike, covers, heights, i, k)),
{
}

// ── what they decorate ──────────────────────────────────────────────────────

/// The first rule from `k` on that decorates a run.
pub open spec fn first_hit(hits: Seq<bool>, k: int) -> Option<int>
    decreases hits.len() - k,
{
    if k < 0 || k >= hits.len() {
        None
    } else if hits[k] {
        Some(k)
    } else {
        first_hit(hits, k + 1)
    }
}

/// The paths of the rules that decorate the first `n` runs.
pub open spec fn used_rules(hits: Seq<Vec<bool>>, paths: Seq<u64>, n: int) -> Seq<u64>
    decreases n,
{
    if n <= 0 {
        Seq::empty()
    } else {
        let s = used_rules(hits, paths, n - 1);
        match first_hit(hits[n - 1]@, 0) {
            Some(k) => put(s, paths[k]),
            None => s,
        }
    }
}

fn find_hit(hits: &Vec<bool>) -> (r: Option<usize>)
    ensures
        match first_hit(hits@, 0) {
            Some(k) => r == Some(k as usize) && 0 <= k < hits@.len(),
            None => r is None,
        },
{
    let mut k: usize = 0;
    while k < hits.len()
        invariant
            k <= hits@.len(),
            first_hit(hits@, 0) == first_hit(hits@, k as int),
        decreases hits.len() - k,
    {
        if hits[k] {
            return Some(k);
        }
        k = k + 1;
    }
    None
}

/// Which runs are decorated, and the paths of the rules that decorate them,
/// increasing. `hits` says of each run which rules lie where a decoration of it
/// would; the first of them is the one. A rule may decorate several runs.
pub fn mark_rules(hits: &Vec<Vec<bool>>, paths: &[u64]) -> (r: (Vec<bool>, Vec<u64>))
    requires
        forall|i: int| 0 <= i < hits@.len() ==> (#[trigger] hits@[i])@.len() == paths@.len(),
    ensures
        r.0@.len() == hits@.len(),
        forall|i: int|
            0 <= i < hits@.len() ==> r.0@[i] == (first_hit(#[trigger] hits@[i]@, 0) is Some),
        r.1@ == used_rules(hits@, paths@, hits@.len() as int),
{
    let mut marked: Vec<bool> = Vec::new();
    let mut used: Vec<u64> = Vec::new();
    let mut n: usize = 0;
    while n < hits.len()
        invariant
            n <= hits@.len(),
            forall|i: int| 0 <= i < hits@.len() ==> (#[trigger] hits@[i])@.len() == paths@.len(),
            marked@.len() == n,
            forall|i: int|
                0 <= i < n ==> marked@[i] == (first_hit(#[trigger] hits@[i]@, 0) is Some),
            used@ == used_rules(hits@, paths@, n as int),
        decreases hits.len() - n,
    {
        assert(hits@[n as int]@.len() == paths@.len());
        match find_hit(&hits[n]) {
            Some(k) => {
                marked.push(true);
                put_distinct(&mut used, paths[k]);
            },
            None => {
                marked.push(false);
            },
        }
        n = n + 1;
    }
    (marked, used)
}

/// A rule is used where it is the first to hit some run.
pub proof fn law_used_rules_hit(hits: Seq<Vec<bool>>, paths: Seq<u64>, n: int)
    requires
        0 <= n <= hits.len(),
    ensures
        super::sorted::increasing(used_rules(hits, paths, n)),
        forall|p: u64|
            #[trigger] used_rules(hits, paths, n).contains(p) <==> exists|i: int|
                0 <= i < n && (first_hit(#[trigger] hits[i]@, 0) matches Some(k) && paths[k] == p),
    decreases n,
{
    if n > 0 {
        law_used_rules_hit(hits, paths, n - 1);
        let s = used_rules(hits, paths, n - 1);
        let r = used_rules(hits, paths, n);
        let last = first_hit(hits[n - 1]@, 0);
        if let Some(k) = last {
            super::sorted::lemma_put(s, paths[k]);
        }
        assert forall|p: u64| #[trigger] r.contains(p) <==> exists|i: int|
            0 <= i < n && (first_hit(#[trigger] hits[i]@, 0) matches Some(k) && paths[k] == p) by {
            assert(s.contains(p) <==> exists|i: int|
                0 <= i < n - 1 && (first_hit(#[trigger] hits[i]@, 0) matches Some(k) && paths[k]
                    == p));
            if last is Some && paths[last->0] == p {
                assert(first_hit(hits[n - 1]@, 0) is Some);
            }
        }
    }
}

/// The rule that decorates a run is the first that hits it; a run that no rule
/// hits has none.
pub proof fn law_first_hit(hits: Seq<bool>, k: int)
    requires
        0 <= k <= hits.len(),
    ensures
        match first_hit(hits, k) {
            Some(r) => k <= r < hits.len() && hits[r] && forall|i: int|
                k <= i < r ==> !#[trigger] hits[i],
            None => forall|i: int| k <= i < hits.len() ==> !#[trigger] hits[i],
        },
    decreases hits.len() - k,
{
    if k < hits.len() && !hits[k] {
        law_first_hit(hits, k + 1);
    }
}

} // verus!
