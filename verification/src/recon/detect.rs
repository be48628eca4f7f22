//! Columns without rules: clusters of edges, and the contest of the candidates
//! for the runs.
use super::model::Align;
use super::order::{law_ordering, ordered, stable_order, Rank};
use super::page::{Placed, TablePlan};
use super::plan::{
    align_of_kind, best_of, choose_candidate, column_from, is_column, is_row, spans_columns,
    Candidate, Views,
};
use super::select::{close_wf, keep_apart, kept_in};
use vstd::prelude::*;

verus! {

// ── clusters ────────────────────────────────────────────────────────────────

/// The clusters of the first `n` values, each from one up to another. `near`
/// says of each value but the first whether it follows the one before closely.
pub open spec fn clusters(near: Seq<bool>, n: int) -> Seq<(usize, usize)>
    decreases n,
{
    if n <= 0 {
        Seq::empty()
    } else if n == 1 {
        seq![(0usize, 1usize)]
    } else {
        let s = clusters(near, n - 1);
        if near[n - 2] {
            s.drop_last().push((s.last().0, n as usize))
        } else {
            s.push(((n - 1) as usize, n as usize))
        }
    }
}

/// Part sorted values into clusters, each from one up to another: a value that
/// does not follow the one before it closely starts the next.
pub fn cluster_1d(n: usize, near: &[bool]) -> (r: Vec<(usize, usize)>)
    requires
        n > 0 ==> near@.len() == n - 1,
    ensures
        r@ == clusters(near@, n as int),
{
    let mut r: Vec<(usize, usize)> = Vec::new();
    if n == 0 {
        return r;
    }
    let mut from: usize = 0;
    let mut k: usize = 1;
    assert(r@.push((0usize, 1usize)) =~= clusters(near@, 1));
    while k < n
        invariant
            1 <= k <= n,
            near@.len() == n - 1,
            from < k,
            r@.push((from, k)) == clusters(near@, k as int),
        decreases n - k,
    {
        let ghost s = clusters(near@, k as int);
        assert(s.drop_last() =~= r@ && s.last() == (from, k));
        if !near[k - 1] {
            r.push((from, k));
            from = k;
        }
        k = k + 1;
        assert(r@.push((from, k)) =~= clusters(near@, k as int));
    }
    r.push((from, n));
    r
}

/// Clusters lose no value and part only where values lie apart: the first starts
/// with the first value, each next one where the last ended, and the last ends
/// with the last value; all steps inside of a cluster are close, and those from
/// one to the next are not.
pub proof fn law_clusters_cover(near: Seq<bool>, n: int)
    requires
        1 <= n <= usize::MAX,
        n - 1 <= near.len(),
    ensures
        clusters(near, n).len() > 0,
        clusters(near, n)[0].0 == 0,
        clusters(near, n).last().1 == n,
        forall|i: int|
            0 <= i < clusters(near, n).len() ==> (#[trigger] clusters(near, n)[i]).0 < clusters(
                near,
                n,
            )[i].1 <= n,
        forall|i: int, j: int|
            #![trigger clusters(near, n)[i], clusters(near, n)[j]]
            0 <= i && j == i + 1 && j < clusters(near, n).len() ==> clusters(near, n)[j].0
                == clusters(near, n)[i].1,
        forall|i: int, k: int|
            #![trigger clusters(near, n)[i], near[k]]
            0 <= i < clusters(near, n).len() && clusters(near, n)[i].0 <= k && k + 1 < clusters(
                near,
                n,
            )[i].1 ==> near[k],
        forall|i: int|
            1 <= i < clusters(near, n).len() ==> !near[(#[trigger] clusters(near, n)[i]).0 - 1],
    decreases n,
{
    if n > 1 {
        law_clusters_cover(near, n - 1);
        let s = clusters(near, n - 1);
        let t = clusters(near, n);
        let last = s.len() - 1;
        if near[n - 2] {
            assert(t.len() == s.len());
            assert(forall|i: int| 0 <= i < last ==> t[i] == s[i]);
            assert(t[last] == (s[last].0, n as usize));
            assert forall|i: int, k: int|
                #![trigger t[i], near[k]]
                0 <= i < t.len() && t[i].0 <= k && k + 1 < t[i].1 implies near[k] by {
                if i == last && k < n - 2 {
                    assert(s[last].0 <= k && k + 1 < s[last].1);
                } else if i < last {
                    assert(s[i].0 <= k);
                }
            }
            assert forall|i: int| 1 <= i < t.len() implies !near[(#[trigger] t[i]).0 - 1] by {
                assert(t[i].0 == s[i].0);
            }
        } else {
            assert(t.len() == s.len() + 1);
            assert(forall|i: int| 0 <= i <= last ==> t[i] == s[i]);
            assert(t[last + 1] == ((n - 1) as usize, n as usize));
            assert forall|i: int, k: int|
                #![trigger t[i], near[k]]
                0 <= i < t.len() && t[i].0 <= k && k + 1 < t[i].1 implies near[k] by {
                if i <= last {
                    assert(s[i].0 <= k);
                }
            }
            assert forall|i: int| 1 <= i < t.len() implies !near[(#[trigger] t[i]).0 - 1] by {
                if i <= last {
                    assert(t[i] == s[i]);
                }
            }
        }
    }
}

// ── the contest ─────────────────────────────────────────────────────────────

/// The candidate that a run chooses.
pub open spec fn choice(cands: Seq<Candidate>, v: Views) -> Option<int> {
    best_of(cands, v, cands.len() as int)
}

/// Those of the first `n` runs that choose candidate `c`.
pub open spec fn won_by(cands: Seq<Candidate>, views: Seq<Views>, c: int, n: int) -> Seq<usize>
    decreases n,
{
    if n <= 0 {
        Seq::empty()
    } else {
        let s = won_by(cands, views, c, n - 1);
        if choice(cands, views[n - 1]) == Some(c) {
            s.push((n - 1) as usize)
        } else {
            s
        }
    }
}

/// How many of the first `n` of some runs have decimals.
pub open spec fn decimals_among(decimals: Seq<bool>, runs: Seq<usize>, n: int) -> nat
    decreases n,
{
    if n <= 0 {
        0
    } else {
        decimals_among(decimals, runs, n - 1) + (if decimals[runs[n - 1] as int] {
            1nat
        } else {
            0nat
        })
    }
}

/// A column: the candidate that it comes from, how it is set, and its runs.
#[derive(Debug)]
pub struct Won {
    pub candidate: usize,
    pub align: Align,
    pub runs: Vec<usize>,
}

/// A column, as a value.
pub ghost struct Column {
    pub candidate: usize,
    pub align: Align,
    pub runs: Seq<usize>,
}

pub open spec fn column_of(w: Won) -> Column {
    Column { candidate: w.candidate, align: w.align, runs: w.runs@ }
}

pub open spec fn columns_of(s: Seq<Won>) -> Seq<Column> {
    Seq::new(s.len(), |i: int| column_of(s[i]))
}

/// The columns among the first `n` candidates: those that enough runs choose.
pub open spec fn won_columns(
    cands: Seq<Candidate>,
    views: Seq<Views>,
    decimals: Seq<bool>,
    n: int,
) -> Seq<Column>
    decreases n,
{
    if n <= 0 {
        Seq::empty()
    } else {
        let s = won_columns(cands, views, decimals, n - 1);
        let kind = cands[n - 1].kind;
        let runs = won_by(cands, views, n - 1, views.len() as int);
        if is_column(kind, runs.len(), decimals_among(decimals, runs, runs.len() as int)) {
            s.push(Column { candidate: (n - 1) as usize, align: align_of_kind(kind), runs })
        } else {
            s
        }
    }
}

/// The choices of the runs are `chosen`.
spec fn are_choices(cands: Seq<Candidate>, views: Seq<Views>, chosen: Seq<Option<usize>>) -> bool {
    &&& chosen.len() == views.len()
    &&& forall|i: int|
        0 <= i < views.len() ==> match #[trigger] choice(cands, views[i]) {
            None => chosen[i] is None,
            Some(b) => chosen[i] == Some(b as usize) && 0 <= b < cands.len(),
        }
}

fn choices(cands: &[Candidate], views: &Vec<Views>) -> (chosen: Vec<Option<usize>>)
    requires
        forall|i: int| 0 <= i < views@.len() ==> (#[trigger] views@[i]).wf(cands@.len()),
    ensures
        are_choices(cands@, views@, chosen@),
{
    let mut chosen: Vec<Option<usize>> = Vec::new();
    let mut i: usize = 0;
    while i < views.len()
        invariant
            i <= views@.len(),
            forall|j: int| 0 <= j < views@.len() ==> (#[trigger] views@[j]).wf(cands@.len()),
            chosen@.len() == i,
            forall|j: int|
                0 <= j < i ==> match #[trigger] choice(cands@, views@[j]) {
                    None => chosen@[j] is None,
                    Some(b) => chosen@[j] == Some(b as usize) && 0 <= b < cands@.len(),
                },
        decreases views.len() - i,
    {
        chosen.push(choose_candidate(cands, &views[i]));
        i = i + 1;
    }
    chosen
}

proof fn lemma_won_below(cands: Seq<Candidate>, views: Seq<Views>, c: int, n: int)
    requires
        0 <= n <= views.len() <= usize::MAX,
    ensures
        won_by(cands, views, c, n).len() <= n,
        forall|i: int|
            0 <= i < won_by(cands, views, c, n).len() ==> (#[trigger] won_by(
                cands,
                views,
                c,
                n,
            )[i]) < n && choice(cands, views[won_by(cands, views, c, n)[i] as int]) == Some(c),
    decreases n,
{
    if n > 0 {
        lemma_won_below(cands, views, c, n - 1);
    }
}

fn runs_of(
    cands: &[Candidate],
    views: &Vec<Views>,
    chosen: &Vec<Option<usize>>,
    c: usize,
) -> (runs: Vec<usize>)
    requires
        are_choices(cands@, views@, chosen@),
        c < cands@.len(),
    ensures
        runs@ == won_by(cands@, views@, c as int, views@.len() as int),
{
    let total: usize = cands.len();
    let mut runs: Vec<usize> = Vec::new();
    let mut i: usize = 0;
    while i < chosen.len()
        invariant
            i <= chosen@.len(),
            are_choices(cands@, views@, chosen@),
            c < total,
            total == cands@.len(),
            runs@ == won_by(cands@, views@, c as int, i as int),
        decreases chosen.len() - i,
    {
        if chosen[i] == Some(c) {
            runs.push(i);
        }
        i = i + 1;
    }
    runs
}

fn count_decimals(decimals: &[bool], runs: &Vec<usize>) -> (n: usize)
    requires
        forall|i: int| 0 <= i < runs@.len() ==> (#[trigger] runs@[i]) < decimals@.len(),
    ensures
        n == decimals_among(decimals@, runs@, runs@.len() as int),
{
    let mut n: usize = 0;
    let mut i: usize = 0;
    while i < runs.len()
        invariant
            i <= runs@.len(),
            n <= i,
            forall|j: int| 0 <= j < runs@.len() ==> (#[trigger] runs@[j]) < decimals@.len(),
            n == decimals_among(decimals@, runs@, i as int),
        decreases runs.len() - i,
    {
        assert(runs@[i as int] < decimals@.len());
        if decimals[runs[i]] {
            n = n + 1;
        }
        i = i + 1;
    }
    n
}

/// The columns that runs make: every run chooses the best candidate within its
/// reach, and a candidate that enough runs choose is a column. `decimals` says
/// of each run whether it has decimals.
pub fn detect_columns(cands: &[Candidate], views: &Vec<Views>, decimals: &[bool]) -> (r: Vec<Won>)
    requires
        forall|i: int| 0 <= i < views@.len() ==> (#[trigger] views@[i]).wf(cands@.len()),
        decimals@.len() == views@.len(),
    ensures
        columns_of(r@) == won_columns(cands@, views@, decimals@, cands@.len() as int),
{
    let chosen: Vec<Option<usize>> = choices(cands, views);
    let count: usize = views.len();
    let mut r: Vec<Won> = Vec::new();
    let mut c: usize = 0;
    assert(columns_of(r@) =~= won_columns(cands@, views@, decimals@, 0));
    while c < cands.len()
        invariant
            c <= cands@.len(),
            count == views@.len(),
            decimals@.len() == views@.len(),
            are_choices(cands@, views@, chosen@),
            columns_of(r@) == won_columns(cands@, views@, decimals@, c as int),
        decreases cands.len() - c,
    {
        let runs: Vec<usize> = runs_of(cands, views, &chosen, c);
        proof {
            lemma_won_below(cands@, views@, c as int, views@.len() as int);
        }
        let with_decimals: usize = count_decimals(decimals, &runs);
        let ghost before = r@;
        if let Some(align) = column_from(cands[c].kind, runs.len(), with_decimals) {
            r.push(Won { candidate: c, align, runs });
            assert(columns_of(r@) =~= columns_of(before).push(column_of(r@.last())));
        }
        c = c + 1;
    }
    r
}

/// Left to right by their middles.
pub open spec fn middle_ranks(centers: Seq<i64>) -> Seq<Rank> {
    Seq::new(centers.len(), |i: int| Rank { last: false, region: 0, band: 0, down: centers[i] })
}

/// Order columns from left to right by the keys of their middles, and drop one
/// that stands too close to the last that was kept. `close` says of each two
/// columns whether they do.
pub fn order_columns(centers: &[i64], close: &Vec<Vec<bool>>) -> (r: Vec<usize>)
    requires
        close_wf(close@, centers@.len()),
    ensures
        r@ == kept_in(
            ordered(middle_ranks(centers@), centers@.len() as int),
            close@,
            centers@.len() as int,
        ),
{
    let len: usize = centers.len();
    let mut ranks: Vec<Rank> = Vec::new();
    let mut i: usize = 0;
    while i < len
        invariant
            i <= len,
            len == centers@.len(),
            ranks@ =~= middle_ranks(centers@).take(i as int),
        decreases len - i,
    {
        ranks.push(Rank { last: false, region: 0, band: 0, down: centers[i] });
        i = i + 1;
    }
    assert(ranks@ =~= middle_ranks(centers@));
    let order: Vec<usize> = stable_order(&ranks);
    proof {
        law_ordering(ranks@, len as int);
    }
    keep_apart(order.as_slice(), close)
}

// ── rows ────────────────────────────────────────────────────────────────────

/// Those of the first `n` lines that are rows: their runs belong to two columns
/// or more. `hits` holds the columns of the runs of each line.
pub open spec fn rows_among(hits: Seq<Vec<Option<usize>>>, n: int) -> Seq<usize>
    decreases n,
{
    if n <= 0 {
        Seq::empty()
    } else {
        let s = rows_among(hits, n - 1);
        if spans_columns(hits[n - 1]@) {
            s.push((n - 1) as usize)
        } else {
            s
        }
    }
}

/// The lines that are rows.
pub fn tabular_rows(hits: &Vec<Vec<Option<usize>>>) -> (r: Vec<usize>)
    ensures
        r@ == rows_among(hits@, hits@.len() as int),
{
    let mut r: Vec<usize> = Vec::new();
    let mut i: usize = 0;
    while i < hits.len()
        invariant
            i <= hits@.len(),
            r@ == rows_among(hits@, i as int),
        decreases hits.len() - i,
    {
        if is_row(&hits[i]) {
            r.push(i);
        }
        i = i + 1;
    }
    r
}

/// A line belongs to a table.
pub open spec fn claimed(tables: Seq<Placed>, line: usize) -> bool {
    exists|k: int| 0 <= k < tables.len() && (#[trigger] tables[k]).covered_lines@.contains(line)
}

/// Those of the first `n` lines that belong to no table.
pub open spec fn unclaimed(tables: Seq<Placed>, n: int) -> Seq<usize>
    decreases n,
{
    if n <= 0 {
        Seq::empty()
    } else {
        let s = unclaimed(tables, n - 1);
        if claimed(tables, (n - 1) as usize) {
            s
        } else {
            s.push((n - 1) as usize)
        }
    }
}

fn is_claimed(plan: &TablePlan, line: usize) -> (b: bool)
    ensures
        b == claimed(plan.tables@, line),
{
    let mut k: usize = 0;
    while k < plan.tables.len()
        invariant
            k <= plan.tables@.len(),
            forall|j: int|
                0 <= j < k ==> !(#[trigger] plan.tables@[j]).covered_lines@.contains(line),
        decreases plan.tables.len() - k,
    {
        let lines: &Vec<usize> = &plan.tables[k].covered_lines;
        let mut i: usize = 0;
        while i < lines.len()
            invariant
                i <= lines@.len(),
                k < plan.tables@.len(),
                lines@ == plan.tables@[k as int].covered_lines@,
                forall|j: int| 0 <= j < i ==> lines@[j] != line,
            decreases lines.len() - i,
        {
            if lines[i] == line {
                assert(plan.tables@[k as int].covered_lines@[i as int] == line);
                return true;
            }
            i = i + 1;
        }
        k = k + 1;
    }
    false
}

/// The lines of a page of `n` lines that no table has taken.
pub fn free_lines(plan: &TablePlan, n: usize) -> (r: Vec<usize>)
    ensures
        r@ == unclaimed(plan.tables@, n as int),
{
    let mut r: Vec<usize> = Vec::new();
    let mut i: usize = 0;
    while i < n
        invariant
            i <= n,
            r@ == unclaimed(plan.tables@, i as int),
        decreases n - i,
    {
        if !is_claimed(plan, i) {
            r.push(i);
        }
        i = i + 1;
    }
    r
}

// ── laws ────────────────────────────────────────────────────────────────────

proof fn lemma_columns(
    cands: Seq<Candidate>,
    views: Seq<Views>,
    decimals: Seq<bool>,
    n: int,
)
    requires
        0 <= n <= cands.len() <= usize::MAX,
    ensures
        forall|i: int|
            0 <= i < won_columns(cands, views, decimals, n).len() ==> ({
                let col = #[trigger] won_columns(cands, views, decimals, n)[i];
                &&& col.candidate < n
                &&& col.runs == won_by(cands, views, col.candidate as int, views.len() as int)
                &&& col.align == align_of_kind(cands[col.candidate as int].kind)
                &&& is_column(
                    cands[col.candidate as int].kind,
                    col.runs.len(),
                    decimals_among(decimals, col.runs, col.runs.len() as int),
                )
            }),
        forall|i: int, j: int|
            #![trigger won_columns(cands, views, decimals, n)[i], won_columns(cands, views, decimals, n)[j]]
            0 <= i < j < won_columns(cands, views, decimals, n).len() ==> won_columns(
                cands,
                views,
                decimals,
                n,
            )[i].candidate < won_columns(cands, views, decimals, n)[j].candidate,
    decreases n,
{
    if n > 0 {
        lemma_columns(cands, views, decimals, n - 1);
        let s = won_columns(cands, views, decimals, n - 1);
        let t = won_columns(cands, views, decimals, n);
        assert(forall|i: int| 0 <= i < s.len() ==> t[i] == s[i]);
    }
}

/// A run belongs to one column at most: no physical column is found twice
/// through the same runs.
pub proof fn law_run_in_one_column(
    cands: Seq<Candidate>,
    views: Seq<Views>,
    decimals: Seq<bool>,
    i: int,
    j: int,
    run: usize,
)
    requires
        cands.len() <= usize::MAX,
        views.len() <= usize::MAX,
        0 <= i < j < won_columns(cands, views, decimals, cands.len() as int).len(),
    ensures
        ({
            let s = won_columns(cands, views, decimals, cands.len() as int);
            !(s[i].runs.contains(run) && s[j].runs.contains(run))
        }),
{
    let n = cands.len() as int;
    let s = won_columns(cands, views, decimals, n);
    lemma_columns(cands, views, decimals, n);
    let a = s[i].candidate as int;
    let b = s[j].candidate as int;
    lemma_won_below(cands, views, a, views.len() as int);
    lemma_won_below(cands, views, b, views.len() as int);
    if s[i].runs.contains(run) && s[j].runs.contains(run) {
        let p = choose|p: int| 0 <= p < s[i].runs.len() && s[i].runs[p] == run;
        let q = choose|q: int| 0 <= q < s[j].runs.len() && s[j].runs[q] == run;
        assert(choice(cands, views[s[i].runs[p] as int]) == Some(a));
        assert(choice(cands, views[s[j].runs[q] as int]) == Some(b));
    }
}

/// A lone run anchors no column: every column holds two runs or more, and one on
/// decimals two or more with decimals.
pub proof fn law_columns_are_shared(
    cands: Seq<Candidate>,
    views: Seq<Views>,
    decimals: Seq<bool>,
    i: int,
)
    requires
        cands.len() <= usize::MAX,
        0 <= i < won_columns(cands, views, decimals, cands.len() as int).len(),
    ensures
        ({
            let col = won_columns(cands, views, decimals, cands.len() as int)[i];
            &&& col.runs.len() >= 2
            &&& cands[col.candidate as int].kind is Decimal ==> decimals_among(
                decimals,
                col.runs,
                col.runs.len() as int,
            ) >= 2
        }),
{
    lemma_columns(cands, views, decimals, cands.len() as int);
}

/// What belongs to a table is not free, and all the rest is.
pub proof fn law_free_lines(tables: Seq<Placed>, n: int, line: usize)
    requires
        0 <= n <= usize::MAX,
    ensures
        unclaimed(tables, n).contains(line) <==> line < n && !claimed(tables, line),
    decreases n,
{
    if n > 0 {
        law_free_lines(tables, n - 1, line);
        let s = unclaimed(tables, n - 1);
        let t = unclaimed(tables, n);
        if s.contains(line) {
            let i = choose|i: int| 0 <= i < s.len() && s[i] == line;
            assert(t[i] == line);
        }
        if t.contains(line) {
            let i = choose|i: int| 0 <= i < t.len() && t[i] == line;
            if i < s.len() {
                assert(s[i] == line);
            }
        }
        if line == n - 1 && !claimed(tables, line) {
            assert(t.last() == line);
        }
    }
}

} // verus!
