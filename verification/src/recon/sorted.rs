//! Sets of numbers, as increasing sequences.
use vstd::prelude::*;

verus! {

/// `x` put into its place in an increasing sequence, unless it is there.
pub open spec fn put(s: Seq<u64>, x: u64) -> Seq<u64>
    decreases s.len(),
{
    if s.len() == 0 {
        seq![x]
    } else if x == s.last() {
        s
    } else if x > s.last() {
        s.push(x)
    } else {
        put(s.drop_last(), x).push(s.last())
    }
}

/// The distinct numbers of `s`, increasing.
pub open spec fn distinct(s: Seq<u64>) -> Seq<u64>
    decreases s.len(),
{
    if s.len() == 0 {
        Seq::empty()
    } else {
        put(distinct(s.drop_last()), s.last())
    }
}

pub open spec fn increasing(s: Seq<u64>) -> bool {
    forall|i: int, j: int| 0 <= i < j < s.len() ==> s[i] < s[j]
}

pub proof fn lemma_put(s: Seq<u64>, x: u64)
    requires
        increasing(s),
    ensures
        increasing(put(s, x)),
        forall|y: u64| #[trigger] put(s, x).contains(y) <==> y == x || s.contains(y),
        s.len() > 0 ==> put(s, x).len() > 0 && put(s, x).last() == (if x > s.last() {
            x
        } else {
            s.last()
        }),
    decreases s.len(),
{
    let r = put(s, x);
    if s.len() == 0 {
        assert(r[0] == x);
    } else if x == s.last() {
        assert(s[s.len() - 1] == x);
    } else if x > s.last() {
        assert forall|y: u64| #[trigger] r.contains(y) <==> y == x || s.contains(y) by {
            if s.contains(y) {
                let k = choose|k: int| 0 <= k < s.len() && s[k] == y;
                assert(r[k] == y);
            }
            assert(r[s.len() as int] == x);
        }
    } else {
        let t = s.drop_last();
        lemma_put(t, x);
        let q = put(t, x);
        assert(r == q.push(s.last()));
        if t.len() > 0 {
            assert(t.last() < s.last());
        } else {
            assert(q =~= seq![x]);
        }
        assert forall|i: int, j: int| 0 <= i < j < r.len() implies r[i] < r[j] by {
            if j == q.len() {
                assert(q[i] <= q.last());
            }
        }
        assert forall|y: u64| #[trigger] r.contains(y) <==> y == x || s.contains(y) by {
            if r.contains(y) {
                let k = choose|k: int| 0 <= k < r.len() && r[k] == y;
                if k < q.len() {
                    assert(q.contains(y));
                    if t.contains(y) {
                        let m = choose|m: int| 0 <= m < t.len() && t[m] == y;
                        assert(s[m] == y);
                    }
                } else {
                    assert(s[s.len() - 1] == y);
                }
            }
            if y == x || s.contains(y) {
                if y == s.last() {
                    assert(r[q.len() as int] == y);
                } else {
                    if s.contains(y) {
                        let m = choose|m: int| 0 <= m < s.len() && s[m] == y;
                        assert(t[m] == y);
                    }
                    assert(q.contains(y));
                    let k = choose|k: int| 0 <= k < q.len() && q[k] == y;
                    assert(r[k] == y);
                }
            }
        }
    }
}

/// `distinct` is increasing and holds the same numbers.
pub proof fn law_distinct(s: Seq<u64>)
    ensures
        increasing(distinct(s)),
        forall|y: u64| #[trigger] distinct(s).contains(y) <==> s.contains(y),
    decreases s.len(),
{
    if s.len() > 0 {
        let t = s.drop_last();
        law_distinct(t);
        lemma_put(distinct(t), s.last());
        assert forall|y: u64| #[trigger] distinct(s).contains(y) <==> s.contains(y) by {
            assert(distinct(t).contains(y) <==> t.contains(y));
            if t.contains(y) {
                let m = choose|m: int| 0 <= m < t.len() && t[m] == y;
                assert(s[m] == y);
            }
            if s.contains(y) {
                let m = choose|m: int| 0 <= m < s.len() && s[m] == y;
                if m < t.len() {
                    assert(t[m] == y);
                }
            }
            assert(s[s.len() - 1] == s.last());
        }
    }
}

/// Put a number into its place, unless it is there.
pub fn put_distinct(v: &mut Vec<u64>, x: u64)
    ensures
        final(v)@ == put(old(v)@, x),
{
    let ghost s = v@;
    let mut i: usize = v.len();
    assert(s.take(s.len() as int) =~= s);
    assert(put(s, x) =~= put(s.take(i as int), x) + s.skip(i as int));
    while i > 0 && v[i - 1] > x
        invariant
            i <= v@.len(),
            v@ == s,
            put(s, x) == put(s.take(i as int), x) + s.skip(i as int),
        decreases i,
    {
        proof {
            let t = s.take(i as int);
            assert(t.drop_last() =~= s.take(i - 1));
            assert(t.last() == s[i - 1]);
            assert(put(t, x) + s.skip(i as int) =~= put(s.take(i - 1), x) + s.skip(i - 1));
        }
        i = i - 1;
    }
    let ghost t = s.take(i as int);
    if i > 0 && v[i - 1] == x {
        assert(t.last() == s[i - 1]);
        assert(put(t, x) =~= t);
        assert(v@ =~= t + s.skip(i as int));
    } else {
        v.insert(i, x);
        proof {
            if i > 0 {
                assert(t.last() == s[i - 1]);
            } else {
                assert(t =~= Seq::empty());
            }
            assert(put(t, x) =~= t.push(x));
            assert(v@ =~= t.push(x) + s.skip(i as int));
        }
    }
}

/// The distinct numbers of `s`, increasing.
pub fn distinct_of(s: &Vec<u64>) -> (r: Vec<u64>)
    ensures
        r@ == distinct(s@),
{
    let mut r: Vec<u64> = Vec::new();
    let mut i: usize = 0;
    assert(s@.take(0) =~= Seq::empty());
    while i < s.len()
        invariant
            i <= s@.len(),
            r@ == distinct(s@.take(i as int)),
        decreases s.len() - i,
    {
        assert(s@.take(i + 1).drop_last() =~= s@.take(i as int));
        put_distinct(&mut r, s[i]);
        i = i + 1;
    }
    assert(s@.take(s@.len() as int) =~= s@);
    r
}

} // verus!
