//! Lists: runs of marked lines, told from prose.
use super::markers::{
    in_sequence, is_ordinal_sequence, read_markers, read_run, same_list, MarkerInfo,
};
use vstd::prelude::*;

verus! {

/// A stretch of lines, from one up to another.
#[derive(Clone, Copy, Debug, PartialEq, Eq, Structural)]
pub struct Span {
    pub from: usize,
    pub to: usize,
    /// The lines are those of a list, or taken for it; else prose.
    pub list: bool,
}

// ── runs ────────────────────────────────────────────────────────────────────

/// The first bucket from `k` on that a line falls in.
pub open spec fn bucket_from(near: Seq<bool>, k: int) -> Option<int>
    decreases near.len() - k,
{
    if k < 0 || k >= near.len() {
        None
    } else if near[k] {
        Some(k)
    } else {
        bucket_from(near, k + 1)
    }
}

/// The nesting level of a marked line.
pub open spec fn nesting_of(near: Seq<bool>, nearest: usize) -> int {
    let k = match bucket_from(near, 0) {
        Some(k) => k,
        None => nearest as int,
    };
    if k < 255 {
        k
    } else {
        255
    }
}

proof fn lemma_bucket(near: Seq<bool>, k: int)
    requires
        0 <= k <= near.len(),
    ensures
        match bucket_from(near, k) {
            Some(b) => k <= b < near.len() && near[b] && forall|i: int|
                k <= i < b ==> !#[trigger] near[i],
            None => forall|i: int| k <= i < near.len() ==> !#[trigger] near[i],
        },
    decreases near.len() - k,
{
    if k < near.len() && !near[k] {
        lemma_bucket(near, k + 1);
    }
}

/// The level is the number of buckets of indents before the first that the line
/// falls in. A line that falls in none is at the level of the nearest. No level
/// is above what a byte holds.
pub proof fn law_levels_count_buckets(near: Seq<bool>, nearest: usize, k: int)
    requires
        0 <= k < near.len(),
    ensures
        0 <= nesting_of(near, nearest) <= 255,
        near[k] && k < 255 && (forall|i: int| 0 <= i < k ==> !#[trigger] near[i]) ==> nesting_of(
            near,
            nearest,
        ) == k,
        near[k] ==> nesting_of(near, nearest) <= k,
        (forall|i: int| 0 <= i < near.len() ==> !#[trigger] near[i]) && nearest < 255 ==> nesting_of(
            near,
            nearest,
        ) == nearest,
{
    lemma_bucket(near, 0);
}

/// The nesting level of a marked line: the first bucket of indents that it
/// falls in, or else `nearest`; at most what a byte holds.
pub fn level_of(near: &[bool], nearest: usize) -> (r: u8)
    ensures
        r == nesting_of(near@, nearest),
{
    let mut k: usize = 0;
    while k < near.len() && !near[k]
        invariant
            k <= near@.len(),
            bucket_from(near@, 0) == bucket_from(near@, k as int),
        decreases near.len() - k,
    {
        k = k + 1;
    }
    if k >= near.len() {
        k = nearest;
    }
    if k < 255 {
        k as u8
    } else {
        255
    }
}

/// The runs closed so far, and the one that is open.
pub ghost struct Scan {
    pub done: Seq<Span>,
    pub from: int,
    pub list: bool,
    /// The last marked line of an open list run.
    pub item: int,
}

/// The scan after the first `n` lines. A marked line opens a list run or goes
/// on with it. A line without a marker goes on with a list run where it hangs
/// under the text of the last marked line; else it is prose.
pub open spec fn scan(items: Seq<bool>, hangs: Seq<Vec<bool>>, n: int) -> Scan
    decreases n,
{
    if n <= 1 {
        Scan { done: Seq::empty(), from: 0, list: items[0], item: 0 }
    } else {
        let s = scan(items, hangs, n - 1);
        let k = n - 1;
        if items[k] {
            if s.list {
                Scan { item: k, ..s }
            } else {
                Scan {
                    done: s.done.push(Span { from: s.from as usize, to: k as usize, list: false }),
                    from: k,
                    list: true,
                    item: k,
                }
            }
        } else if s.list && hangs[k]@[s.item] {
            s
        } else if s.list {
            Scan {
                done: s.done.push(Span { from: s.from as usize, to: k as usize, list: true }),
                from: k,
                list: false,
                item: s.item,
            }
        } else {
            s
        }
    }
}

/// The runs of lines that may be lists, and the prose between them.
pub open spec fn runs_of(items: Seq<bool>, hangs: Seq<Vec<bool>>) -> Seq<Span> {
    let n = items.len();
    if n == 0 {
        Seq::empty()
    } else {
        let s = scan(items, hangs, n as int);
        s.done.push(Span { from: s.from as usize, to: n as usize, list: s.list })
    }
}

/// Each line says of every line before it whether it hangs under its text.
pub open spec fn hangs_wf(hangs: Seq<Vec<bool>>, n: nat) -> bool {
    &&& hangs.len() == n
    &&& forall|k: int| 0 <= k < n ==> (#[trigger] hangs[k])@.len() == k
}

/// Part lines into runs that may be lists and prose.
pub fn list_runs(items: &[bool], hangs: &Vec<Vec<bool>>) -> (r: Vec<Span>)
    requires
        hangs_wf(hangs@, items@.len()),
    ensures
        r@ == runs_of(items@, hangs@),
{
    let len: usize = items.len();
    let mut r: Vec<Span> = Vec::new();
    if len == 0 {
        return r;
    }
    let mut from: usize = 0;
    let mut list: bool = items[0];
    let mut item: usize = 0;
    let mut k: usize = 1;
    assert(r@ =~= scan(items@, hangs@, 1).done);
    while k < len
        invariant
            1 <= k <= len,
            len == items@.len(),
            hangs_wf(hangs@, items@.len()),
            item < k,
            from < k,
            ({
                let s = scan(items@, hangs@, k as int);
                r@ == s.done && from == s.from && list == s.list && item == s.item
            }),
        decreases len - k,
    {
        if items[k] {
            if !list {
                r.push(Span { from, to: k, list: false });
                from = k;
                list = true;
            }
            item = k;
        } else if list && hangs[k][item] {
        } else if list {
            r.push(Span { from, to: k, list: true });
            from = k;
            list = false;
        }
        k = k + 1;
    }
    r.push(Span { from, to: len, list });
    r
}

/// Spans cover the lines from `a` up to `b` in order, without a gap, and none
/// is empty.
pub open spec fn covers(s: Seq<Span>, a: int, b: int) -> bool
    decreases s.len(),
{
    if s.len() == 0 {
        a == b
    } else {
        s.last().to == b && s.last().from < s.last().to && covers(
            s.drop_last(),
            a,
            s.last().from as int,
        )
    }
}

proof fn lemma_covers_push(s: Seq<Span>, a: int, b: int, x: Span)
    requires
        covers(s, a, b),
        x.from == b,
        x.from < x.to,
    ensures
        covers(s.push(x), a, x.to as int),
{
    assert(s.push(x).drop_last() =~= s);
}

proof fn lemma_scan_covers(items: Seq<bool>, hangs: Seq<Vec<bool>>, n: int)
    requires
        1 <= n <= items.len(),
        items.len() <= usize::MAX,
    ensures
        ({
            let s = scan(items, hangs, n);
            0 <= s.from < n && 0 <= s.item < n && covers(s.done, 0, s.from)
        }),
    decreases n,
{
    if n > 1 {
        lemma_scan_covers(items, hangs, n - 1);
        let s = scan(items, hangs, n - 1);
        let k = n - 1;
        lemma_covers_push(
            s.done,
            0,
            s.from,
            Span { from: s.from as usize, to: k as usize, list: false },
        );
        lemma_covers_push(
            s.done,
            0,
            s.from,
            Span { from: s.from as usize, to: k as usize, list: true },
        );
    }
}

/// Every line is in one run, and the runs are in order.
pub proof fn law_runs_cover(items: Seq<bool>, hangs: Seq<Vec<bool>>)
    requires
        items.len() <= usize::MAX,
    ensures
        covers(runs_of(items, hangs), 0, items.len() as int),
{
    let n = items.len() as int;
    if n > 0 {
        lemma_scan_covers(items, hangs, n);
        let s = scan(items, hangs, n);
        lemma_covers_push(
            s.done,
            0,
            s.from,
            Span { from: s.from as usize, to: n as usize, list: s.list },
        );
    }
}

// ── lists of one format ─────────────────────────────────────────────────────

/// The lists cut off so far, where the open one starts, and its outermost
/// marker with its level.
pub ghost struct Cut {
    pub done: Seq<(int, int)>,
    pub from: int,
    pub base: Option<(MarkerInfo, u8)>,
}

/// The cuts after the lines from `a` up to `n`. A marker of another format
/// starts a new list, unless it is nested deeper than the open one.
pub open spec fn cut(infos: Seq<Option<MarkerInfo>>, levels: Seq<u8>, a: int, n: int) -> Cut
    decreases n - a,
{
    if n <= a {
        Cut { done: Seq::empty(), from: a, base: None }
    } else {
        let c = cut(infos, levels, a, n - 1);
        let k = n - 1;
        match infos[k] {
            None => c,
            Some(info) => match c.base {
                None => Cut { base: Some((info, levels[k])), ..c },
                Some((base, level)) => if levels[k] <= level && !same_list(info, base) {
                    Cut { done: c.done.push((c.from, k)), from: k, base: Some((info, levels[k])) }
                } else if levels[k] < level {
                    Cut { base: Some((info, levels[k])), ..c }
                } else {
                    c
                },
            },
        }
    }
}

/// The lists of one format that a run falls into.
pub open spec fn parts_of(
    infos: Seq<Option<MarkerInfo>>,
    levels: Seq<u8>,
    a: int,
    b: int,
) -> Seq<(int, int)> {
    let c = cut(infos, levels, a, b);
    if c.from < b {
        c.done.push((c.from, b))
    } else {
        c.done
    }
}

/// How many marked lines there are from `a` up to `b`.
pub open spec fn marker_count(infos: Seq<Option<MarkerInfo>>, a: int, b: int) -> nat
    decreases b - a,
{
    if b <= a {
        0
    } else {
        marker_count(infos, a, b - 1) + (if infos[b - 1] is Some {
            1nat
        } else {
            0nat
        })
    }
}

/// The first marker from `a` on, before `b`.
pub open spec fn first_marker(infos: Seq<Option<MarkerInfo>>, a: int, b: int) -> Option<MarkerInfo>
    decreases b - a,
{
    if b <= a {
        None
    } else if infos[a] is Some {
        infos[a]
    } else {
        first_marker(infos, a + 1, b)
    }
}

/// The smallest level of a marker from `a` up to `b`.
pub open spec fn outer_level(
    infos: Seq<Option<MarkerInfo>>,
    levels: Seq<u8>,
    a: int,
    b: int,
) -> Option<u8>
    decreases b - a,
{
    if b <= a {
        None
    } else {
        let m = outer_level(infos, levels, a, b - 1);
        if infos[b - 1] is Some && (m is None || levels[b - 1] < m->0) {
            Some(levels[b - 1])
        } else {
            m
        }
    }
}

/// The values of the markers at a level, from `a` up to `b`.
pub open spec fn values_at(
    infos: Seq<Option<MarkerInfo>>,
    levels: Seq<u8>,
    level: u8,
    a: int,
    b: int,
) -> Seq<u32>
    decreases b - a,
{
    if b <= a {
        Seq::empty()
    } else {
        let v = values_at(infos, levels, level, a, b - 1);
        match infos[b - 1] {
            Some(info) => if levels[b - 1] == level && info.ordinal is Some {
                v.push(info.ordinal->0)
            } else {
                v
            },
            None => v,
        }
    }
}

/// The lines from `a` up to `b` are a list: bullets always, ordinals where
/// those of the outermost level are in sequence.
pub open spec fn is_list(
    infos: Seq<Option<MarkerInfo>>,
    levels: Seq<u8>,
    a: int,
    b: int,
) -> bool {
    match first_marker(infos, a, b) {
        None => false,
        Some(first) => first.marker is Bullet || in_sequence(
            values_at(infos, levels, outer_level(infos, levels, a, b)->0, a, b),
            marker_count(infos, a, b),
        ),
    }
}

fn find_first(infos: &[Option<MarkerInfo>], a: usize, b: usize) -> (r: Option<MarkerInfo>)
    requires
        a <= b <= infos@.len(),
    ensures
        r == first_marker(infos@, a as int, b as int),
{
    let mut k: usize = a;
    while k < b
        invariant
            a <= k <= b <= infos@.len(),
            first_marker(infos@, a as int, b as int) == first_marker(infos@, k as int, b as int),
        decreases b - k,
    {
        if infos[k].is_some() {
            return infos[k];
        }
        k = k + 1;
    }
    None
}

/// Whether the lines from `a` up to `b`, marks of one format, are a list.
pub fn classify_sub_run(
    infos: &[Option<MarkerInfo>],
    levels: &[u8],
    a: usize,
    b: usize,
) -> (r: bool)
    requires
        a <= b <= infos@.len(),
        levels@.len() == infos@.len(),
    ensures
        r == is_list(infos@, levels@, a as int, b as int),
{
    let first: MarkerInfo = match find_first(infos, a, b) {
        None => {
            return false;
        },
        Some(info) => info,
    };
    if !first.marker.ordered() {
        return true;
    }
    let mut count: usize = 0;
    let mut outer: Option<u8> = None;
    let mut k: usize = a;
    while k < b
        invariant
            a <= k <= b <= infos@.len(),
            levels@.len() == infos@.len(),
            count <= k - a,
            count == marker_count(infos@, a as int, k as int),
            outer == outer_level(infos@, levels@, a as int, k as int),
        decreases b - k,
    {
        if infos[k].is_some() {
            count = count + 1;
            let lower: bool = match outer {
                None => true,
                Some(m) => levels[k] < m,
            };
            if lower {
                outer = Some(levels[k]);
            }
        }
        k = k + 1;
    }
    let base: u8 = match outer {
        Some(m) => m,
        None => 0,
    };
    proof {
        lemma_outer_level(infos@, levels@, a as int, b as int);
    }
    let mut ords: Vec<u32> = Vec::new();
    k = a;
    while k < b
        invariant
            a <= k <= b <= infos@.len(),
            levels@.len() == infos@.len(),
            ords@ == values_at(infos@, levels@, base, a as int, k as int),
        decreases b - k,
    {
        if let Some(info) = infos[k] {
            if levels[k] == base {
                if let Some(o) = info.ordinal {
                    ords.push(o);
                }
            }
        }
        k = k + 1;
    }
    is_ordinal_sequence(ords.as_slice(), count)
}

proof fn lemma_outer_level(
    infos: Seq<Option<MarkerInfo>>,
    levels: Seq<u8>,
    a: int,
    b: int,
)
    ensures
        first_marker(infos, a, b) is Some ==> outer_level(infos, levels, a, b) is Some,
    decreases b - a,
{
    if a < b {
        lemma_outer_level(infos, levels, a, b - 1);
        lemma_first_marker(infos, a, b);
    }
}

proof fn lemma_first_marker(infos: Seq<Option<MarkerInfo>>, a: int, b: int)
    requires
        a < b,
    ensures
        first_marker(infos, a, b) is Some ==> first_marker(infos, a, b - 1) is Some
            || infos[b - 1] is Some,
    decreases b - a,
{
    if infos[a] is None {
        if a + 1 < b {
            lemma_first_marker(infos, a + 1, b);
        } else {
            assert(first_marker(infos, a + 1, b) is None);
        }
    }
}

// ── segments ────────────────────────────────────────────────────────────────

/// A list or a stretch of prose, as the lines from one up to another.
#[derive(Clone, Copy, Debug, PartialEq, Eq, Structural)]
pub enum Segment {
    List(usize, usize),
    Prose(usize, usize),
}

/// Add prose, joined to prose that stands before it.
pub open spec fn add_prose(s: Seq<Segment>, a: int, b: int) -> Seq<Segment> {
    if s.len() > 0 && s.last() is Prose {
        s.drop_last().push(Segment::Prose(s.last()->Prose_0, b as usize))
    } else {
        s.push(Segment::Prose(a as usize, b as usize))
    }
}

/// Add the first `n` parts of a run: lists, or prose where one is no list.
pub open spec fn add_parts(
    s: Seq<Segment>,
    infos: Seq<Option<MarkerInfo>>,
    levels: Seq<u8>,
    parts: Seq<(int, int)>,
    n: int,
) -> Seq<Segment>
    decreases n,
{
    if n <= 0 {
        s
    } else {
        let t = add_parts(s, infos, levels, parts, n - 1);
        let (a, b) = parts[n - 1];
        if is_list(infos, levels, a, b) {
            t.push(Segment::List(a as usize, b as usize))
        } else {
            add_prose(t, a, b)
        }
    }
}

/// The segments of the first `n` runs. The markers of a run are read together.
pub open spec fn segments_of(
    infos: Seq<Option<MarkerInfo>>,
    levels: Seq<u8>,
    runs: Seq<Span>,
    n: int,
) -> Seq<Segment>
    decreases n,
{
    if n <= 0 {
        Seq::empty()
    } else {
        let s = segments_of(infos, levels, runs, n - 1);
        let r = runs[n - 1];
        if r.list {
            let read = read_run(infos, levels, r.from as int, r.to as int);
            let parts = parts_of(read, levels, r.from as int, r.to as int);
            add_parts(s, read, levels, parts, parts.len() as int)
        } else {
            add_prose(s, r.from as int, r.to as int)
        }
    }
}

/// Whether each line is marked.
pub open spec fn marked(infos: Seq<Option<MarkerInfo>>) -> Seq<bool> {
    Seq::new(infos.len(), |i: int| infos[i] is Some)
}

/// Append prose, joined to prose that stands before it.
pub fn coalesce_prose(segments: &mut Vec<Segment>, a: usize, b: usize)
    ensures
        final(segments)@ == add_prose(old(segments)@, a as int, b as int),
{
    let n: usize = segments.len();
    if n > 0 {
        if let Segment::Prose(from, _) = segments[n - 1] {
            segments.set(n - 1, Segment::Prose(from, b));
            assert(segments@ =~= add_prose(old(segments)@, a as int, b as int));
            return;
        }
    }
    segments.push(Segment::Prose(a, b));
}

/// Append what the lines from `a` up to `b` are: one list, or prose.
fn push_part(
    segments: &mut Vec<Segment>,
    infos: &[Option<MarkerInfo>],
    levels: &[u8],
    a: usize,
    b: usize,
)
    requires
        a <= b <= infos@.len(),
        levels@.len() == infos@.len(),
    ensures
        final(segments)@ == (if is_list(infos@, levels@, a as int, b as int) {
            old(segments)@.push(Segment::List(a, b))
        } else {
            add_prose(old(segments)@, a as int, b as int)
        }),
{
    if classify_sub_run(infos, levels, a, b) {
        segments.push(Segment::List(a, b));
    } else {
        coalesce_prose(segments, a, b);
    }
}

proof fn lemma_add_parts_prefix(
    s: Seq<Segment>,
    infos: Seq<Option<MarkerInfo>>,
    levels: Seq<u8>,
    p: Seq<(int, int)>,
    q: Seq<(int, int)>,
    n: int,
)
    requires
        0 <= n <= p.len(),
        n <= q.len(),
        forall|i: int| 0 <= i < n ==> p[i] == q[i],
    ensures
        add_parts(s, infos, levels, p, n) == add_parts(s, infos, levels, q, n),
    decreases n,
{
    if n > 0 {
        lemma_add_parts_prefix(s, infos, levels, p, q, n - 1);
    }
}

/// Append the lists and the prose of a run that may be a list: it is cut where
/// the format changes, and each part is a list or prose.
pub fn classify_list_run(
    segments: &mut Vec<Segment>,
    infos: &[Option<MarkerInfo>],
    levels: &[u8],
    from: usize,
    to: usize,
)
    requires
        from <= to <= infos@.len(),
        levels@.len() == infos@.len(),
    ensures
        ({
            let parts = parts_of(infos@, levels@, from as int, to as int);
            final(segments)@ == add_parts(
                old(segments)@,
                infos@,
                levels@,
                parts,
                parts.len() as int,
            )
        }),
{
    let ghost s0 = segments@;
    let mut start: usize = from;
    let mut base: Option<(MarkerInfo, u8)> = None;
    let mut k: usize = from;
    while k < to
        invariant
            from <= start <= k <= to <= infos@.len(),
            k > from ==> start < k,
            levels@.len() == infos@.len(),
            ({
                let c = cut(infos@, levels@, from as int, k as int);
                start == c.from && base == c.base && segments@ == add_parts(
                    s0,
                    infos@,
                    levels@,
                    c.done,
                    c.done.len() as int,
                )
            }),
            base is Some ==> k > from,
        decreases to - k,
    {
        let ghost c = cut(infos@, levels@, from as int, k as int);
        if let Some(info) = infos[k] {
            let level: u8 = levels[k];
            match base {
                None => {
                    base = Some((info, level));
                },
                Some((base_info, base_level)) => {
                    if level <= base_level && !info.same_format(&base_info) {
                        push_part(segments, infos, levels, start, k);
                        proof {
                            let d = c.done.push((c.from, k as int));
                            lemma_add_parts_prefix(
                                s0,
                                infos@,
                                levels@,
                                c.done,
                                d,
                                c.done.len() as int,
                            );
                            assert(d[d.len() - 1] == (c.from, k as int));
                        }
                        start = k;
                        base = Some((info, level));
                    } else if level < base_level {
                        base = Some((info, level));
                    }
                },
            }
        }
        k = k + 1;
    }
    if start < to {
        let ghost c = cut(infos@, levels@, from as int, to as int);
        push_part(segments, infos, levels, start, to);
        proof {
            let d = c.done.push((c.from, to as int));
            lemma_add_parts_prefix(s0, infos@, levels@, c.done, d, c.done.len() as int);
            assert(d[d.len() - 1] == (c.from, to as int));
        }
    }
}

/// Part lines, given by their markers, into lists and prose. `levels` holds the
/// nesting level of each marked line within its run.
pub fn split_lists(
    infos: &[Option<MarkerInfo>],
    hangs: &Vec<Vec<bool>>,
    levels: &[u8],
) -> (r: Vec<Segment>)
    requires
        hangs_wf(hangs@, infos@.len()),
        levels@.len() == infos@.len(),
    ensures
        ({
            let runs = runs_of(marked(infos@), hangs@);
            r@ == segments_of(infos@, levels@, runs, runs.len() as int)
        }),
{
    let len: usize = infos.len();
    let mut items: Vec<bool> = Vec::new();
    let mut i: usize = 0;
    while i < len
        invariant
            i <= len,
            len == infos@.len(),
            items@.len() == i,
            forall|k: int| 0 <= k < i ==> items@[k] == (infos@[k] is Some),
        decreases len - i,
    {
        items.push(infos[i].is_some());
        i = i + 1;
    }
    assert(items@ =~= marked(infos@));
    let runs: Vec<Span> = list_runs(items.as_slice(), hangs);
    proof {
        law_runs_cover(items@, hangs@);
        lemma_covers_bounds(runs@, 0, len as int);
    }
    let mut r: Vec<Segment> = Vec::new();
    i = 0;
    while i < runs.len()
        invariant
            i <= runs@.len(),
            len == infos@.len(),
            levels@.len() == infos@.len(),
            forall|k: int|
                0 <= k < runs@.len() ==> (#[trigger] runs@[k]).from <= runs@[k].to <= len,
            r@ == segments_of(infos@, levels@, runs@, i as int),
        decreases runs.len() - i,
    {
        let run: Span = runs[i];
        assert(runs@[i as int].from <= runs@[i as int].to <= len);
        if run.list {
            let read: Vec<Option<MarkerInfo>> = read_markers(infos, levels, run.from, run.to);
            classify_list_run(&mut r, read.as_slice(), levels, run.from, run.to);
        } else {
            coalesce_prose(&mut r, run.from, run.to);
        }
        i = i + 1;
    }
    r
}

proof fn lemma_covers_bounds(s: Seq<Span>, a: int, b: int)
    requires
        covers(s, a, b),
    ensures
        a <= b,
        forall|k: int| 0 <= k < s.len() ==> a <= (#[trigger] s[k]).from < s[k].to <= b,
    decreases s.len(),
{
    if s.len() > 0 {
        let t = s.drop_last();
        lemma_covers_bounds(t, a, s.last().from as int);
        assert forall|k: int| 0 <= k < s.len() implies a <= (#[trigger] s[k]).from < s[k].to
            <= b by {
            if k < t.len() {
                assert(s[k] == t[k]);
            }
        }
    }
}

// ── laws ────────────────────────────────────────────────────────────────────

pub open spec fn seg_from(s: Segment) -> int {
    match s {
        Segment::List(a, _) => a as int,
        Segment::Prose(a, _) => a as int,
    }
}

pub open spec fn seg_to(s: Segment) -> int {
    match s {
        Segment::List(_, b) => b as int,
        Segment::Prose(_, b) => b as int,
    }
}

/// Segments cover the lines up to `b` in order, without a gap, none is empty,
/// and no two stretches of prose stand side by side.
pub open spec fn parted(s: Seq<Segment>, b: int) -> bool
    decreases s.len(),
{
    if s.len() == 0 {
        b == 0
    } else {
        &&& seg_to(s.last()) == b
        &&& seg_from(s.last()) < b
        &&& parted(s.drop_last(), seg_from(s.last()))
        &&& s.len() > 1 ==> !(s[s.len() - 2] is Prose && s.last() is Prose)
    }
}

proof fn lemma_add_prose(s: Seq<Segment>, a: int, b: int)
    requires
        parted(s, a),
        a < b <= usize::MAX,
    ensures
        parted(add_prose(s, a, b), b),
{
    let r = add_prose(s, a, b);
    if s.len() > 0 && s.last() is Prose {
        assert(r.drop_last() =~= s.drop_last());
        if s.len() > 1 {
            assert(r[r.len() - 2] == s[s.len() - 2]);
        }
    } else {
        assert(r.drop_last() =~= s);
        if s.len() > 0 {
            assert(r[r.len() - 2] == s.last());
        }
    }
}

proof fn lemma_add_list(s: Seq<Segment>, a: int, b: int)
    requires
        parted(s, a),
        a < b <= usize::MAX,
    ensures
        parted(s.push(Segment::List(a as usize, b as usize)), b),
{
    let r = s.push(Segment::List(a as usize, b as usize));
    assert(r.drop_last() =~= s);
}

/// Parts follow each other from `a` up to `b`.
pub open spec fn chained(p: Seq<(int, int)>, a: int, b: int) -> bool
    decreases p.len(),
{
    if p.len() == 0 {
        a == b
    } else {
        p.last().1 == b && p.last().0 < b && chained(p.drop_last(), a, p.last().0)
    }
}

proof fn lemma_cut(infos: Seq<Option<MarkerInfo>>, levels: Seq<u8>, a: int, n: int)
    requires
        a <= n,
    ensures
        ({
            let c = cut(infos, levels, a, n);
            &&& a <= c.from <= n
            &&& chained(c.done, a, c.from)
            &&& n > a ==> c.from < n
            &&& c.base is Some ==> n > a
        }),
    decreases n - a,
{
    if n > a {
        lemma_cut(infos, levels, a, n - 1);
        let c = cut(infos, levels, a, n - 1);
        assert(c.done.push((c.from, n - 1)).drop_last() =~= c.done);
    }
}

proof fn lemma_add_parts(
    s: Seq<Segment>,
    infos: Seq<Option<MarkerInfo>>,
    levels: Seq<u8>,
    p: Seq<(int, int)>,
    a: int,
    b: int,
)
    requires
        parted(s, a),
        chained(p, a, b),
        0 <= a,
        b <= usize::MAX,
    ensures
        parted(add_parts(s, infos, levels, p, p.len() as int), b),
    decreases p.len(),
{
    if p.len() > 0 {
        let q = p.drop_last();
        let mid = p.last().0;
        lemma_add_parts(s, infos, levels, q, a, mid);
        lemma_add_parts_prefix(s, infos, levels, q, p, q.len() as int);
        let t = add_parts(s, infos, levels, p, p.len() - 1);
        lemma_add_prose(t, mid, b);
        lemma_add_list(t, mid, b);
    }
}

proof fn lemma_segments(
    infos: Seq<Option<MarkerInfo>>,
    levels: Seq<u8>,
    runs: Seq<Span>,
    n: int,
    b: int,
)
    requires
        0 <= n <= runs.len(),
        covers(runs.take(n), 0, b),
    ensures
        parted(segments_of(infos, levels, runs, n), b),
    decreases n,
{
    let t = runs.take(n);
    if n > 0 {
        let r = runs[n - 1];
        assert(t.drop_last() =~= runs.take(n - 1));
        assert(t.last() == r);
        lemma_segments(infos, levels, runs, n - 1, r.from as int);
        let s = segments_of(infos, levels, runs, n - 1);
        if r.list {
            let from = r.from as int;
            let read = read_run(infos, levels, from, b);
            lemma_cut(read, levels, from, b);
            let c = cut(read, levels, from, b);
            let parts = parts_of(read, levels, from, b);
            assert(c.done.push((c.from, b)).drop_last() =~= c.done);
            assert(chained(parts, from, b));
            lemma_add_parts(s, read, levels, parts, from, b);
        } else {
            lemma_add_prose(s, r.from as int, b);
        }
    }
}

/// Every line is in one list or one stretch of prose, in order; and two
/// stretches of prose never stand side by side.
pub proof fn law_split_covers(
    infos: Seq<Option<MarkerInfo>>,
    hangs: Seq<Vec<bool>>,
    levels: Seq<u8>,
)
    requires
        infos.len() <= usize::MAX,
    ensures
        ({
            let runs = runs_of(marked(infos), hangs);
            parted(segments_of(infos, levels, runs, runs.len() as int), infos.len() as int)
        }),
{
    let items = marked(infos);
    law_runs_cover(items, hangs);
    let runs = runs_of(items, hangs);
    assert(runs.take(runs.len() as int) =~= runs);
    lemma_segments(infos, levels, runs, runs.len() as int, infos.len() as int);
}

/// Every list starts with a marked line.
pub open spec fn lists_are_marked(s: Seq<Segment>, infos: Seq<Option<MarkerInfo>>) -> bool {
    forall|i: int|
        0 <= i < s.len() && (#[trigger] s[i]) is List ==> s[i]->List_0 < infos.len()
            && infos[s[i]->List_0 as int] is Some
}

/// Every span that may be a list starts with a marked line.
spec fn spans_are_marked(s: Seq<Span>, items: Seq<bool>) -> bool {
    forall|i: int|
        0 <= i < s.len() && (#[trigger] s[i]).list ==> s[i].from < items.len()
            && items[s[i].from as int]
}

proof fn lemma_scan_marked(items: Seq<bool>, hangs: Seq<Vec<bool>>, n: int)
    requires
        1 <= n <= items.len(),
        items.len() <= usize::MAX,
    ensures
        ({
            let s = scan(items, hangs, n);
            &&& 0 <= s.from < n
            &&& s.list ==> items[s.from]
            &&& spans_are_marked(s.done, items)
        }),
    decreases n,
{
    if n > 1 {
        lemma_scan_marked(items, hangs, n - 1);
    }
}

proof fn lemma_cut_marked(infos: Seq<Option<MarkerInfo>>, levels: Seq<u8>, a: int, n: int)
    requires
        0 <= a < n <= infos.len(),
        infos[a] is Some,
    ensures
        ({
            let c = cut(infos, levels, a, n);
            &&& a <= c.from < n
            &&& infos[c.from] is Some
            &&& forall|i: int|
                0 <= i < c.done.len() ==> 0 <= (#[trigger] c.done[i]).0 < n
                    && infos[c.done[i].0] is Some
        }),
    decreases n - a,
{
    if n > a + 1 {
        lemma_cut_marked(infos, levels, a, n - 1);
    } else {
        assert(cut(infos, levels, a, a) == (Cut { done: Seq::empty(), from: a, base: None }));
    }
}

proof fn lemma_parts_marked(
    s: Seq<Segment>,
    infos: Seq<Option<MarkerInfo>>,
    levels: Seq<u8>,
    p: Seq<(int, int)>,
    n: int,
)
    requires
        0 <= n <= p.len(),
        infos.len() <= usize::MAX,
        lists_are_marked(s, infos),
        forall|i: int|
            0 <= i < p.len() ==> 0 <= (#[trigger] p[i]).0 < infos.len() && infos[p[i].0] is Some,
    ensures
        lists_are_marked(add_parts(s, infos, levels, p, n), infos),
    decreases n,
{
    if n > 0 {
        lemma_parts_marked(s, infos, levels, p, n - 1);
        assert(infos[p[n - 1].0] is Some);
    }
}

proof fn lemma_segments_marked(
    infos: Seq<Option<MarkerInfo>>,
    levels: Seq<u8>,
    runs: Seq<Span>,
    n: int,
    b: int,
)
    requires
        0 <= n <= runs.len(),
        infos.len() <= usize::MAX,
        spans_are_marked(runs, marked(infos)),
        covers(runs.take(n), 0, b),
        b <= infos.len(),
    ensures
        lists_are_marked(segments_of(infos, levels, runs, n), infos),
    decreases n,
{
    if n > 0 {
        let r = runs[n - 1];
        let t = runs.take(n);
        assert(t.drop_last() =~= runs.take(n - 1));
        assert(t.last() == r);
        lemma_segments_marked(infos, levels, runs, n - 1, r.from as int);
        let s = segments_of(infos, levels, runs, n - 1);
        if r.list {
            let (from, to) = (r.from as int, r.to as int);
            let read = read_run(infos, levels, from, to);
            assert(marked(infos)[from]);
            assert(forall|k: int| 0 <= k < infos.len() ==> (#[trigger] read[k] is Some) == (infos[k]
                is Some));
            lemma_cut_marked(read, levels, from, to);
            let parts = parts_of(read, levels, from, to);
            lemma_parts_marked(s, read, levels, parts, parts.len() as int);
        }
    }
}

/// A list starts with a marked line.
pub proof fn law_lists_start_marked(
    infos: Seq<Option<MarkerInfo>>,
    hangs: Seq<Vec<bool>>,
    levels: Seq<u8>,
)
    requires
        infos.len() <= usize::MAX,
    ensures
        ({
            let runs = runs_of(marked(infos), hangs);
            lists_are_marked(segments_of(infos, levels, runs, runs.len() as int), infos)
        }),
{
    let items = marked(infos);
    let runs = runs_of(items, hangs);
    let n = items.len() as int;
    if n > 0 {
        law_runs_cover(items, hangs);
        lemma_scan_marked(items, hangs, n);
        assert(runs.take(runs.len() as int) =~= runs);
        lemma_segments_marked(infos, levels, runs, runs.len() as int, n);
    }
}

/// Bullets are a list whatever their number.
pub proof fn law_bullets_are_a_list(
    infos: Seq<Option<MarkerInfo>>,
    levels: Seq<u8>,
    a: int,
    b: int,
)
    requires
        first_marker(infos, a, b) matches Some(m) && m.marker is Bullet,
    ensures
        is_list(infos, levels, a, b),
{
}

/// The last marked line before line `k`; minus one where there is none.
pub open spec fn last_marked(items: Seq<bool>, k: int) -> int
    decreases k,
{
    if k <= 0 {
        -1
    } else if items[k - 1] {
        k - 1
    } else {
        last_marked(items, k - 1)
    }
}

/// Line `k` belongs to a list: it is marked, or the line before it belongs to
/// one and it hangs under the text of the last marked line.
pub open spec fn listed(items: Seq<bool>, hangs: Seq<Vec<bool>>, k: int) -> bool
    decreases k,
{
    ||| items[k]
    ||| k > 0 && listed(items, hangs, k - 1) && hangs[k]@[last_marked(items, k)]
}

/// Spans of lines that all belong to lists, or all do not, by turns.
pub open spec fn spans_by_turns(s: Seq<Span>, items: Seq<bool>, hangs: Seq<Vec<bool>>) -> bool {
    &&& forall|i: int, k: int|
        #![trigger s[i], listed(items, hangs, k)]
        0 <= i < s.len() && s[i].from <= k < s[i].to ==> s[i].list == listed(items, hangs, k)
    &&& forall|i: int, j: int|
        #![trigger s[i], s[j]]
        0 <= i && j == i + 1 && j < s.len() ==> s[i].list != s[j].list
}

proof fn lemma_scan_listed(items: Seq<bool>, hangs: Seq<Vec<bool>>, n: int)
    requires
        1 <= n <= items.len(),
        items.len() <= usize::MAX,
    ensures
        ({
            let s = scan(items, hangs, n);
            &&& 0 <= s.from < n
            &&& s.list == listed(items, hangs, n - 1)
            &&& s.list ==> s.item == last_marked(items, n)
            &&& forall|k: int|
                s.from <= k < n ==> #[trigger] listed(items, hangs, k) == s.list
            &&& spans_by_turns(s.done, items, hangs)
            &&& s.done.len() > 0 ==> s.done.last().list != s.list
        }),
    decreases n,
{
    if n > 1 {
        lemma_scan_listed(items, hangs, n - 1);
        lemma_scan_covers(items, hangs, n - 1);
        let s = scan(items, hangs, n - 1);
        let t = scan(items, hangs, n);
        assert(listed(items, hangs, n - 1) == t.list);
        if t.done.len() > s.done.len() {
            assert(t.done.drop_last() =~= s.done);
            assert(forall|i: int| 0 <= i < s.done.len() ==> t.done[i] == s.done[i]);
            assert(t.done.last().from == s.from && t.done.last().to == n - 1);
            assert(spans_by_turns(t.done, items, hangs));
        }
    }
}

/// A marked line belongs to a list. A line without a marker belongs to one
/// exactly where the line before it does and it hangs under the text of the last
/// marked line. Runs of lines that belong to lists and runs of prose take turns.
pub proof fn law_lines_hang_on_their_list(items: Seq<bool>, hangs: Seq<Vec<bool>>, i: int, k: int)
    requires
        items.len() <= usize::MAX,
        0 <= i < runs_of(items, hangs).len(),
        runs_of(items, hangs)[i].from <= k < runs_of(items, hangs)[i].to,
    ensures
        runs_of(items, hangs)[i].list == listed(items, hangs, k),
        i > 0 ==> runs_of(items, hangs)[i - 1].list != runs_of(items, hangs)[i].list,
{
    let n = items.len() as int;
    lemma_scan_listed(items, hangs, n);
    let s = scan(items, hangs, n);
    let runs = runs_of(items, hangs);
    if i < s.done.len() {
        assert(runs[i] == s.done[i]);
    }
    if i > 0 {
        assert(runs[i - 1] == s.done[i - 1]);
    }
}

/// Line `j` holds the outermost marker from `a` up to `n`: none of the others is
/// nested less deep, and those before it are nested deeper.
pub open spec fn is_outermost(
    infos: Seq<Option<MarkerInfo>>,
    levels: Seq<u8>,
    a: int,
    n: int,
    j: int,
) -> bool {
    &&& a <= j < n
    &&& infos[j] is Some
    &&& forall|i: int| a <= i < n && (#[trigger] infos[i]) is Some ==> levels[j] <= levels[i]
    &&& forall|i: int| a <= i < j && (#[trigger] infos[i]) is Some ==> levels[j] < levels[i]
}

/// What is known of the cuts up to line `n`: in each list that was cut off no
/// marker breaks with the outermost before it, and the line after it does.
spec fn cuts_ok(infos: Seq<Option<MarkerInfo>>, levels: Seq<u8>, c: Cut, a: int, n: int) -> bool {
    &&& a <= c.from <= n
    &&& c.base is None ==> forall|i: int| c.from <= i < n ==> (#[trigger] infos[i]) is None
    &&& c.base matches Some((info, level)) ==> exists|j: int|
        #[trigger] is_outermost(infos, levels, c.from, n, j) && infos[j] == Some(info) && levels[j]
            == level
    &&& keeps_one_format(infos, levels, c.from, n)
    &&& c.from > a ==> c.done.len() > 0 && c.done.last().1 == c.from
    &&& c.done.len() > 0 ==> c.done[0].0 == a
    &&& c.done.len() == 0 ==> c.from == a
    &&& forall|i: int|
        0 <= i < c.done.len() ==> {
            let (x, y) = #[trigger] c.done[i];
            &&& a <= x < y <= c.from
            &&& keeps_one_format(infos, levels, x, y)
            &&& breaks_format(infos, levels, x, y)
        }
    &&& forall|i: int, j: int|
        #![trigger c.done[i], c.done[j]]
        0 <= i && j == i + 1 && j < c.done.len() ==> c.done[j].0 == c.done[i].1
}

/// The marker of line `k` starts a list of its own, behind lines from `a` on: it
/// is of another format than the outermost marker of those, and not nested
/// deeper.
pub open spec fn breaks_format(infos: Seq<Option<MarkerInfo>>, levels: Seq<u8>, a: int, k: int) -> bool {
    &&& infos[k] is Some
    &&& exists|j: int|
        #[trigger] is_outermost(infos, levels, a, k, j) && levels[k] <= levels[j] && !same_list(
            infos[k]->0,
            infos[j]->0,
        )
}

/// No marker from `a` up to `b` breaks with the format of those before it.
pub open spec fn keeps_one_format(
    infos: Seq<Option<MarkerInfo>>,
    levels: Seq<u8>,
    a: int,
    b: int,
) -> bool {
    forall|k: int| a <= k < b ==> !#[trigger] breaks_format(infos, levels, a, k)
}

proof fn lemma_one_outermost(
    infos: Seq<Option<MarkerInfo>>,
    levels: Seq<u8>,
    a: int,
    n: int,
    i: int,
    j: int,
)
    requires
        is_outermost(infos, levels, a, n, i),
        is_outermost(infos, levels, a, n, j),
    ensures
        i == j,
{
    if i < j {
        assert(infos[i] is Some);
    } else if j < i {
        assert(infos[j] is Some);
    }
}

proof fn lemma_cuts(infos: Seq<Option<MarkerInfo>>, levels: Seq<u8>, a: int, n: int)
    requires
        0 <= a <= n <= infos.len(),
        levels.len() == infos.len(),
    ensures
        cuts_ok(infos, levels, cut(infos, levels, a, n), a, n),
    decreases n - a,
{
    if n > a {
        lemma_cuts(infos, levels, a, n - 1);
        let c = cut(infos, levels, a, n - 1);
        let d = cut(infos, levels, a, n);
        let k = n - 1;
        match infos[k] {
            None => {
                if let Some((info, level)) = c.base {
                    let j = choose|j: int|
                        #[trigger] is_outermost(infos, levels, c.from, k, j) && infos[j] == Some(
                            info,
                        ) && levels[j] == level;
                    assert(is_outermost(infos, levels, c.from, n, j));
                }
                assert(!breaks_format(infos, levels, c.from, k));
            },
            Some(info) => {
                match c.base {
                    None => {
                        assert(is_outermost(infos, levels, c.from, n, k));
                        assert(!breaks_format(infos, levels, c.from, k));
                    },
                    Some((base, level)) => {
                        let j = choose|j: int|
                            #[trigger] is_outermost(infos, levels, c.from, k, j) && infos[j]
                                == Some(base) && levels[j] == level;
                        if levels[k] <= level && !same_list(info, base) {
                            assert(is_outermost(infos, levels, k, n, k));
                            assert(breaks_format(infos, levels, c.from, k));
                            assert(d.done.drop_last() =~= c.done);
                            assert(forall|i: int| 0 <= i < c.done.len() ==> d.done[i] == c.done[i]);
                            assert(d.done.last() == (c.from, k));
                            assert(!breaks_format(infos, levels, k, k)) by {
                                if breaks_format(infos, levels, k, k) {
                                    let x = choose|x: int|
                                        #[trigger] is_outermost(infos, levels, k, k, x);
                                    assert(k <= x < k);
                                }
                            }
                        } else {
                            assert(!breaks_format(infos, levels, c.from, k)) by {
                                if breaks_format(infos, levels, c.from, k) {
                                    let x = choose|x: int|
                                        #[trigger] is_outermost(infos, levels, c.from, k, x)
                                            && levels[k] <= levels[x] && !same_list(
                                            infos[k]->0,
                                            infos[x]->0,
                                        );
                                    lemma_one_outermost(infos, levels, c.from, k, j, x);
                                }
                            }
                            if levels[k] < level {
                                assert(is_outermost(infos, levels, c.from, n, k));
                            } else {
                                assert(is_outermost(infos, levels, c.from, n, j));
                            }
                        }
                    },
                }
            },
        }
    }
}

/// A run of marked lines falls into lists where the format changes, and nowhere
/// else: the lists follow each other and cover the run; no marker inside of one
/// breaks with the outermost before it, and the first marker of each but the
/// first breaks with the list before it.
pub proof fn law_lists_part_where_the_format_changes(
    infos: Seq<Option<MarkerInfo>>,
    levels: Seq<u8>,
    a: int,
    b: int,
    i: int,
)
    requires
        0 <= a < b <= infos.len(),
        levels.len() == infos.len(),
        0 <= i < parts_of(infos, levels, a, b).len(),
    ensures
        ({
            let parts = parts_of(infos, levels, a, b);
            let (x, y) = parts[i];
            &&& a <= x < y <= b
            &&& keeps_one_format(infos, levels, x, y)
            &&& i == 0 ==> x == a
            &&& i == parts.len() - 1 ==> y == b
            &&& i < parts.len() - 1 ==> parts[i + 1].0 == y && breaks_format(infos, levels, x, y)
        }),
{
    lemma_cuts(infos, levels, a, b);
    let c = cut(infos, levels, a, b);
    let parts = parts_of(infos, levels, a, b);
    lemma_cut_from(infos, levels, a, b);
    if i < c.done.len() {
        assert(parts[i] == c.done[i]);
        if i + 1 < c.done.len() {
            assert(parts[i + 1] == c.done[i + 1]);
            assert(c.done[i + 1].0 == c.done[i].1);
        }
    }
}

proof fn lemma_cut_from(infos: Seq<Option<MarkerInfo>>, levels: Seq<u8>, a: int, n: int)
    requires
        a < n,
    ensures
        cut(infos, levels, a, n).from < n,
    decreases n - a,
{
    if n > a + 1 {
        lemma_cut_from(infos, levels, a, n - 1);
    } else {
        assert(cut(infos, levels, a, a).from == a);
    }
}

/// The outermost level of marked lines is the least that one of them has; there
/// is none where no line is marked.
pub proof fn law_outermost_is_the_least_level(
    infos: Seq<Option<MarkerInfo>>,
    levels: Seq<u8>,
    a: int,
    b: int,
)
    ensures
        match outer_level(infos, levels, a, b) {
            None => forall|k: int| a <= k < b ==> (#[trigger] infos[k]) is None,
            Some(m) => {
                &&& exists|k: int| a <= k < b && (#[trigger] infos[k]) is Some && levels[k] == m
                &&& forall|k: int| a <= k < b && (#[trigger] infos[k]) is Some ==> m <= levels[k]
            },
        },
    decreases b - a,
{
    if b > a {
        law_outermost_is_the_least_level(infos, levels, a, b - 1);
        if let Some(m) = outer_level(infos, levels, a, b - 1) {
            let k = choose|k: int|
                a <= k < b - 1 && (#[trigger] infos[k]) is Some && levels[k] == m;
            assert(infos[k] is Some && levels[k] == m);
        }
        assert(infos[b - 1] is Some || infos[b - 1] is None);
    }
}

/// The markers of the lines from `a` up to `b`, with their levels.
pub open spec fn marked_at(
    infos: Seq<Option<MarkerInfo>>,
    levels: Seq<u8>,
    a: int,
    b: int,
) -> Seq<(Option<MarkerInfo>, u8)> {
    Seq::new((b - a) as nat, |i: int| (infos[a + i], levels[a + i]))
}

/// Whether ordinals are in sequence is judged by the values of the markers at
/// one level, in the order of their lines; the others do not count.
pub proof fn law_values_come_in_order(
    infos: Seq<Option<MarkerInfo>>,
    levels: Seq<u8>,
    level: u8,
    a: int,
    b: int,
)
    requires
        a <= b,
    ensures
        values_at(infos, levels, level, a, b) == marked_at(infos, levels, a, b).filter(
            |p: (Option<MarkerInfo>, u8)|
                p.1 == level && (p.0 matches Some(info) && info.ordinal is Some),
        ).map_values(|p: (Option<MarkerInfo>, u8)| p.0->0.ordinal->0),
    decreases b - a,
{
    reveal(Seq::filter);
    let counts = |p: (Option<MarkerInfo>, u8)|
        p.1 == level && (p.0 matches Some(info) && info.ordinal is Some);
    let value = |p: (Option<MarkerInfo>, u8)| p.0->0.ordinal->0;
    let all = marked_at(infos, levels, a, b);
    if b > a {
        law_values_come_in_order(infos, levels, level, a, b - 1);
        assert(all.drop_last() =~= marked_at(infos, levels, a, b - 1));
        assert(all.last() == (infos[b - 1], levels[b - 1]));
    }
    assert(values_at(infos, levels, level, a, b) =~= all.filter(counts).map_values(value));
}

/// A list of ordinals is one whose outermost values are in sequence; without a
/// marked line there is no list.
pub proof fn law_what_is_a_list(infos: Seq<Option<MarkerInfo>>, levels: Seq<u8>, a: int, b: int, k: int)
    requires
        a <= k < b,
        infos[k] is Some,
        forall|i: int| a <= i < k ==> (#[trigger] infos[i]) is None,
    ensures
        first_marker(infos, a, b) == infos[k],
        infos[k]->0.marker is Bullet ==> is_list(infos, levels, a, b),
        !(infos[k]->0.marker is Bullet) ==> (is_list(infos, levels, a, b) <==> in_sequence(
            values_at(infos, levels, outer_level(infos, levels, a, b)->0, a, b),
            marker_count(infos, a, b),
        )),
{
    lemma_first_is(infos, a, b, k);
}

proof fn lemma_first_is(infos: Seq<Option<MarkerInfo>>, a: int, b: int, k: int)
    requires
        a <= k < b,
        infos[k] is Some,
        forall|i: int| a <= i < k ==> (#[trigger] infos[i]) is None,
    ensures
        first_marker(infos, a, b) == infos[k],
    decreases k - a,
{
    if a < k {
        assert(infos[a] is None);
        lemma_first_is(infos, a + 1, b, k);
    }
}

} // verus!
