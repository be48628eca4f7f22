//! Planning of tables: which grids are tables, and which runs share a column.
use super::furniture::digit_run;
use super::model::Align;
use super::select::{find_best, first_best};
use super::text::{chars_of, is_digit, is_space, is_whitespace, trim_chars, trimmed};
use vstd::prelude::*;

verus! {

// ── tables and forms ────────────────────────────────────────────────────────

/// The most columns of a table.
pub const MAX_TABLE_COLS: usize = 14;

/// The most cells of a table.
pub const MAX_TABLE_CELLS: usize = 160;

/// A cell at row `r` and column `c` holds one of the first `n` runs.
pub open spec fn occupied(cells: Seq<Option<(usize, usize)>>, r: usize, c: usize, n: int) -> bool {
    exists|k: int| 0 <= k < n && #[trigger] cells[k] == Some((r, c))
}

/// How many of the first `k` cells, row by row, hold a run.
pub open spec fn occupied_count(
    cells: Seq<Option<(usize, usize)>>,
    cols: int,
    k: int,
) -> nat
    decreases k,
{
    if k <= 0 {
        0
    } else {
        occupied_count(cells, cols, k - 1) + (if occupied(
            cells,
            ((k - 1) / cols) as usize,
            ((k - 1) % cols) as usize,
            cells.len() as int,
        ) {
            1nat
        } else {
            0nat
        })
    }
}

/// A grid is a table and not a form: few columns, not too many cells, and at
/// least 28 of 100 cells hold text.
pub open spec fn is_table(rows: int, cols: int, cells: Seq<Option<(usize, usize)>>) -> bool {
    &&& 0 < cols <= MAX_TABLE_COLS
    &&& 0 < rows
    &&& rows * cols <= MAX_TABLE_CELLS
    &&& 100 * occupied_count(cells, cols, rows * cols) >= 28 * (rows * cols)
}

fn is_occupied(cells: &[Option<(usize, usize)>], r: usize, c: usize) -> (b: bool)
    ensures
        b == occupied(cells@, r, c, cells@.len() as int),
{
    let mut k: usize = 0;
    while k < cells.len()
        invariant
            k <= cells@.len(),
            !occupied(cells@, r, c, k as int),
        decreases cells.len() - k,
    {
        if let Some((a, b)) = cells[k] {
            if a == r && b == c {
                assert(cells@[k as int] == Some((r, c)));
                return true;
            }
        }
        k = k + 1;
    }
    false
}

/// How many cells of a grid hold text. `cells` says of each run that is not
/// blank which cell its centre lies in.
pub fn cell_fill(rows: usize, cols: usize, cells: &[Option<(usize, usize)>]) -> (n: usize)
    requires
        rows * cols <= usize::MAX,
        cols > 0,
    ensures
        n == occupied_count(cells@, cols as int, rows * cols),
        n <= rows * cols,
{
    let size: usize = rows * cols;
    let mut n: usize = 0;
    let mut k: usize = 0;
    while k < size
        invariant
            k <= size,
            cols > 0,
            n <= k,
            n == occupied_count(cells@, cols as int, k as int),
        decreases size - k,
    {
        if is_occupied(cells, k / cols, k % cols) {
            n = n + 1;
        }
        k = k + 1;
    }
    n
}

/// Whether a grid is a table and not the layout of a form.
pub fn passes_table_sanity(rows: usize, cols: usize, cells: &[Option<(usize, usize)>]) -> (b: bool)
    ensures
        b == is_table(rows as int, cols as int, cells@),
{
    if rows == 0 || cols == 0 || cols > MAX_TABLE_COLS {
        return false;
    }
    if rows > MAX_TABLE_CELLS {
        assert(rows * cols > MAX_TABLE_CELLS) by (nonlinear_arith)
            requires
                rows > MAX_TABLE_CELLS,
                cols >= 1,
        ;
        return false;
    }
    assert(rows * cols <= 160 * 14) by (nonlinear_arith)
        requires
            0 < rows <= 160,
            0 < cols <= 14,
    ;
    if rows * cols > MAX_TABLE_CELLS {
        return false;
    }
    let filled: usize = cell_fill(rows, cols, cells);
    100 * filled >= 28 * (rows * cols)
}

/// A grid in which fewer than 28 of 100 cells hold text is no table.
pub proof fn law_sparse_grid_is_a_form(
    rows: int,
    cols: int,
    cells: Seq<Option<(usize, usize)>>,
)
    requires
        100 * occupied_count(cells, cols, rows * cols) < 28 * (rows * cols),
    ensures
        !is_table(rows, cols, cells),
{
}

// ── decimal separators ──────────────────────────────────────────────────────

/// How many times `c` occurs in `s`.
pub open spec fn occurrences(s: Seq<char>, c: char) -> nat
    decreases s.len(),
{
    if s.len() == 0 {
        0
    } else {
        occurrences(s.drop_last(), c) + (if s.last() == c {
            1nat
        } else {
            0nat
        })
    }
}

/// What may follow the digits behind a decimal separator.
pub open spec fn is_unit(c: char) -> bool {
    is_space(c) || c == '\u{20AC}' || c == '$' || c == '%' || c == '\u{A3}' || c == '-' || c == '+'
}

/// The decimal separator of an amount: a comma where there is one; else a dot,
/// unless there are two or more, which group thousands.
pub open spec fn separator_char(s: Seq<char>) -> Option<char> {
    if occurrences(s, ',') > 0 {
        Some(',')
    } else if occurrences(s, '.') >= 2 {
        None
    } else {
        Some('.')
    }
}

/// Character `i` parts an amount: a digit before it, one to three digits behind
/// it, and only signs, currency and white space behind those.
pub open spec fn parts_amount(s: Seq<char>, i: int) -> bool {
    let frac = digit_run(s.skip(i + 1)) as int;
    &&& 1 <= frac <= 3
    &&& forall|k: int| i + 1 + frac <= k < s.len() ==> is_unit(#[trigger] s[k])
    &&& exists|k: int| 0 <= k < i && is_digit(#[trigger] s[k])
}

/// The last separator `c` before `n` that parts an amount.
pub open spec fn last_separator(s: Seq<char>, c: char, n: int) -> Option<int>
    decreases n,
{
    if n <= 0 {
        None
    } else if s[n - 1] == c && parts_amount(s, n - 1) {
        Some(n - 1)
    } else {
        last_separator(s, c, n - 1)
    }
}

/// Where the decimal separator of a trimmed text stands.
pub open spec fn separator_at(s: Seq<char>) -> Option<int> {
    if s.len() < 2 {
        None
    } else {
        match separator_char(s) {
            None => None,
            Some(c) => last_separator(s, c, s.len() as int),
        }
    }
}

fn count_char(v: &Vec<char>, c: char) -> (n: usize)
    ensures
        n == occurrences(v@, c),
{
    let len: usize = v.len();
    let mut n: usize = 0;
    let mut i: usize = 0;
    assert(v@.take(0) =~= Seq::empty());
    while i < len
        invariant
            i <= len,
            len == v@.len(),
            n <= i,
            n == occurrences(v@.take(i as int), c),
        decreases len - i,
    {
        assert(v@.take(i + 1).drop_last() =~= v@.take(i as int));
        if v[i] == c {
            n = n + 1;
        }
        i = i + 1;
    }
    assert(v@.take(len as int) =~= v@);
    n
}

fn is_unit_char(c: char) -> (b: bool)
    ensures
        b == is_unit(c),
{
    is_whitespace(c) || c == '\u{20AC}' || c == '$' || c == '%' || c == '\u{A3}' || c == '-' || c
        == '+'
}

fn count_digits(v: &Vec<char>, from: usize) -> (n: usize)
    requires
        from <= v@.len(),
    ensures
        n == digit_run(v@.skip(from as int)),
        from + n <= v@.len(),
{
    let len: usize = v.len();
    let ghost s = v@.skip(from as int);
    let mut to: usize = from;
    assert(s.skip(0) =~= s);
    while to < len && '0' <= v[to] && v[to] <= '9'
        invariant
            from <= to <= len,
            len == v@.len(),
            s == v@.skip(from as int),
            digit_run(s) == (to - from) + digit_run(s.skip(to - from)),
        decreases len - to,
    {
        assert(s.skip(to - from)[0] == v@[to as int]);
        assert(s.skip(to - from).skip(1) =~= s.skip(to - from + 1));
        to = to + 1;
    }
    proof {
        if to < len {
            assert(s.skip(to - from)[0] == v@[to as int]);
        }
    }
    to - from
}

fn divides(v: &Vec<char>, i: usize) -> (b: bool)
    requires
        i < v@.len(),
    ensures
        b == parts_amount(v@, i as int),
{
    let len: usize = v.len();
    let frac: usize = count_digits(v, i + 1);
    if frac < 1 || frac > 3 {
        return false;
    }
    let mut k: usize = i + 1 + frac;
    while k < len
        invariant
            i + 1 + frac <= k <= len,
            len == v@.len(),
            frac == digit_run(v@.skip(i + 1)),
            forall|j: int| i + 1 + frac <= j < k ==> is_unit(#[trigger] v@[j]),
        decreases len - k,
    {
        if !is_unit_char(v[k]) {
            assert(!is_unit(v@[k as int]));
            return false;
        }
        k = k + 1;
    }
    let mut lead: bool = false;
    k = 0;
    while k < i
        invariant
            k <= i < v@.len(),
            lead == (exists|j: int| 0 <= j < k && is_digit(#[trigger] v@[j])),
        decreases i - k,
    {
        if '0' <= v[k] && v[k] <= '9' {
            assert(is_digit(v@[k as int]));
            lead = true;
        }
        k = k + 1;
    }
    lead
}

/// Where the decimal separator of an amount stands in the trimmed text, and how
/// long that is; none where the text is no amount with decimals.
pub fn decimal_sep(text: &str) -> (r: Option<(usize, usize)>)
    ensures
        ({
            let s = trimmed(text@);
            match separator_at(s) {
                None => r is None,
                Some(i) => r == Some((i as usize, s.len() as usize)) && 0 <= i < s.len(),
            }
        }),
{
    let chars: Vec<char> = chars_of(text);
    let v: Vec<char> = trim_chars(&chars);
    let n: usize = v.len();
    if n < 2 {
        return None;
    }
    let c: char = if count_char(&v, ',') > 0 {
        ','
    } else if count_char(&v, '.') >= 2 {
        return None;
    } else {
        '.'
    };
    let mut i: usize = n;
    while i > 0
        invariant
            i <= n,
            n == v@.len(),
            v@ == trimmed(text@),
            separator_at(v@) == last_separator(v@, c, i as int),
        decreases i,
    {
        if v[i - 1] == c && divides(&v, i - 1) {
            return Some((i - 1, n));
        }
        i = i - 1;
    }
    None
}

// ── columns without rules ───────────────────────────────────────────────────

/// What a column may be aligned on.
#[derive(Clone, Copy, Debug, PartialEq, Eq, Structural)]
pub enum Kind {
    Left,
    Right,
    Decimal,
}

/// How near a run is to a candidate, against the best so far.
#[derive(Clone, Copy, Debug, PartialEq, Eq, Structural)]
pub enum Nearness {
    Nearer,
    Farther,
    Even,
}

/// A candidate for a column: what it is aligned on, and how many runs share
/// that edge.
#[derive(Clone, Copy, Debug)]
pub struct Candidate {
    pub kind: Kind,
    pub support: usize,
}

/// A run's view of the candidates.
#[derive(Debug)]
pub struct Views {
    /// For each candidate, whether its edge is near enough to the run's.
    pub reach: Vec<bool>,
    /// For each candidate, how near it is against each of those before it.
    pub nearness: Vec<Vec<Nearness>>,
    /// For each candidate, whether its runs lie tighter than those of each of
    /// those before it.
    pub tighter: Vec<Vec<bool>>,
}

impl Views {
    pub open spec fn wf(&self, n: nat) -> bool {
        &&& self.reach@.len() == n
        &&& self.nearness@.len() == n
        &&& self.tighter@.len() == n
        &&& forall|k: int| 0 <= k < n ==> (#[trigger] self.nearness@[k])@.len() == k
        &&& forall|k: int| 0 <= k < n ==> (#[trigger] self.tighter@[k])@.len() == k
    }
}

/// Candidate `k` is better for a run than candidate `b` before it: nearer; or
/// as near and aligned on decimals; or as good and shared by more runs; or
/// shared by as many that lie tighter.
pub open spec fn is_better(cands: Seq<Candidate>, v: Views, k: int, b: int) -> bool {
    match v.nearness@[k]@[b] {
        Nearness::Nearer => true,
        Nearness::Farther => false,
        Nearness::Even => if (cands[k].kind is Decimal) != (cands[b].kind is Decimal) {
            cands[k].kind is Decimal
        } else if cands[k].support != cands[b].support {
            cands[k].support > cands[b].support
        } else {
            v.tighter@[k]@[b]
        },
    }
}

/// The best of the first `n` candidates that a run reaches.
pub open spec fn best_of(cands: Seq<Candidate>, v: Views, n: int) -> Option<int>
    decreases n,
{
    if n <= 0 {
        None
    } else {
        let b = best_of(cands, v, n - 1);
        if v.reach@[n - 1] && (b is None || is_better(cands, v, n - 1, b->0)) {
            Some(n - 1)
        } else {
            b
        }
    }
}

/// The candidate that a run chooses.
pub fn choose_candidate(cands: &[Candidate], v: &Views) -> (r: Option<usize>)
    requires
        v.wf(cands@.len()),
    ensures
        match best_of(cands@, *v, cands@.len() as int) {
            None => r is None,
            Some(b) => r == Some(b as usize) && 0 <= b < cands@.len(),
        },
{
    let mut best: Option<usize> = None;
    let mut k: usize = 0;
    while k < cands.len()
        invariant
            k <= cands@.len(),
            v.wf(cands@.len()),
            match best {
                Some(b) => b < k && best_of(cands@, *v, k as int) == Some(b as int),
                None => best_of(cands@, *v, k as int) is None,
            },
        decreases cands.len() - k,
    {
        if v.reach[k] {
            let better: bool = match best {
                None => true,
                Some(b) => match v.nearness[k][b] {
                    Nearness::Nearer => true,
                    Nearness::Farther => false,
                    Nearness::Even => {
                        let new_decimal: bool = cands[k].kind == Kind::Decimal;
                        let old_decimal: bool = cands[b].kind == Kind::Decimal;
                        if new_decimal != old_decimal {
                            new_decimal
                        } else if cands[k].support != cands[b].support {
                            cands[k].support > cands[b].support
                        } else {
                            v.tighter[k][b]
                        }
                    },
                },
            };
            if better {
                best = Some(k);
            }
        }
        k = k + 1;
    }
    best
}

/// How a column of a kind is set; one on decimals counts as set right.
pub open spec fn align_of_kind(k: Kind) -> Align {
    match k {
        Kind::Left => Align::Left,
        Kind::Right | Kind::Decimal => Align::Right,
    }
}

/// A candidate that so many runs chose is a column: two or more did, and on
/// decimals two or more with decimals.
pub open spec fn is_column(kind: Kind, chosen: nat, with_decimals: nat) -> bool {
    chosen >= 2 && (kind is Decimal ==> with_decimals >= 2)
}

/// A candidate that one run alone chose is no column, whatever it is aligned on.
/// One on a left edge is set left and all others right; one on decimals needs
/// two runs with decimals, and any other none.
pub proof fn law_what_columns_take(kind: Kind, chosen: nat, with_decimals: nat)
    ensures
        chosen < 2 ==> !is_column(kind, chosen, with_decimals),
        chosen >= 2 && with_decimals >= 2 ==> is_column(kind, chosen, with_decimals),
        chosen >= 2 && kind != Kind::Decimal ==> is_column(kind, chosen, with_decimals),
        with_decimals < 2 ==> !is_column(Kind::Decimal, chosen, with_decimals),
        align_of_kind(kind) == Align::Left <==> kind == Kind::Left,
        align_of_kind(kind) == Align::Right <==> kind != Kind::Left,
{
}

/// The alignment of the column that a candidate becomes, if it is one.
pub fn column_from(kind: Kind, chosen: usize, with_decimals: usize) -> (r: Option<Align>)
    ensures
        r == (if is_column(kind, chosen as nat, with_decimals as nat) {
            Some(align_of_kind(kind))
        } else {
            None
        }),
{
    if chosen < 2 {
        return None;
    }
    match kind {
        Kind::Left => Some(Align::Left),
        Kind::Right => Some(Align::Right),
        Kind::Decimal => if with_decimals < 2 {
            None
        } else {
            Some(Align::Right)
        },
    }
}

/// The column that a run at these distances belongs to.
pub open spec fn nearest_column(distances: Seq<Option<i64>>) -> Option<int> {
    first_best(distances, false, distances.len() as int)
}

/// A run belongs to the nearest column within reach, the first of several; to
/// none where none is within reach.
pub proof fn law_runs_belong_to_the_nearest_column(distances: Seq<Option<i64>>)
    ensures
        match nearest_column(distances) {
            None => forall|k: int| 0 <= k < distances.len() ==> #[trigger] distances[k] is None,
            Some(b) => {
                &&& 0 <= b < distances.len()
                &&& distances[b] is Some
                &&& forall|k: int|
                    0 <= k < distances.len() && #[trigger] distances[k] is Some ==> distances[b]->0
                        <= distances[k]->0
                &&& forall|k: int|
                    0 <= k < b && #[trigger] distances[k] is Some ==> distances[b]->0
                        < distances[k]->0
            },
        },
{
    super::select::law_first_best(distances, false, distances.len() as int);
}

/// The column that a run belongs to: the nearest within reach. Distances are
/// keys that order as they do.
pub fn column_of_run(distances: &[Option<i64>]) -> (r: Option<usize>)
    ensures
        match nearest_column(distances@) {
            None => r is None,
            Some(b) => r == Some(b as usize) && 0 <= b < distances@.len(),
        },
{
    find_best(distances, false)
}

/// Two of the runs of a line belong to different columns.
pub open spec fn spans_columns(hits: Seq<Option<usize>>) -> bool {
    exists|i: int, j: int|
        #![trigger hits[i], hits[j]]
        0 <= i < hits.len() && 0 <= j < hits.len() && hits[i] is Some && hits[j] is Some && hits[i]
            != hits[j]
}

/// Whether a line is a row: its runs belong to two columns or more.
pub fn is_row(hits: &[Option<usize>]) -> (r: bool)
    ensures
        r == spans_columns(hits@),
{
    let mut first: Option<usize> = None;
    let mut at: usize = 0;
    let mut k: usize = 0;
    while k < hits.len()
        invariant
            k <= hits@.len(),
            match first {
                None => forall|j: int| 0 <= j < k ==> hits@[j] is None,
                Some(c) => at < k && hits@[at as int] == Some(c) && forall|j: int|
                    0 <= j < k && hits@[j] is Some ==> hits@[j] == Some(c),
            },
        decreases hits.len() - k,
    {
        if let Some(c) = hits[k] {
            match first {
                None => {
                    first = Some(c);
                    at = k;
                },
                Some(f) => {
                    if f != c {
                        assert(hits@[at as int] != hits@[k as int]);
                        return true;
                    }
                },
            }
        }
        k = k + 1;
    }
    false
}

// ── bands of rules ──────────────────────────────────────────────────────────

/// Bands so far: the intervals of each, from one up to another, where the open
/// one starts, and which interval of it reaches farthest.
pub ghost struct Bands {
    pub done: Seq<(usize, usize)>,
    pub from: int,
    pub far: int,
}

/// The bands of the first `n` intervals, sorted by their start. One that starts
/// clearly beyond the farthest end of the open band opens the next.
pub open spec fn bands_of(ends: Seq<i64>, apart: Seq<Vec<bool>>, n: int) -> Bands
    decreases n,
{
    if n <= 1 {
        Bands { done: Seq::empty(), from: 0, far: 0 }
    } else {
        let b = bands_of(ends, apart, n - 1);
        let k = n - 1;
        if apart[k]@[b.far] {
            Bands { done: b.done.push((b.from as usize, k as usize)), from: k, far: k }
        } else if ends[k] > ends[b.far] {
            Bands { far: k, ..b }
        } else {
            b
        }
    }
}

/// Part intervals, sorted by their start, into bands. `ends` orders their ends;
/// `apart` says of each whether it starts clearly beyond the end of each of
/// those before it. Each band is given by its intervals, from one up to
/// another.
pub fn segment_rule_bands(ends: &[i64], apart: &Vec<Vec<bool>>) -> (r: Vec<(usize, usize)>)
    requires
        apart@.len() == ends@.len(),
        forall|k: int| 0 <= k < apart@.len() ==> (#[trigger] apart@[k])@.len() == k,
    ensures
        ends@.len() == 0 ==> r@.len() == 0,
        ends@.len() > 0 ==> ({
            let b = bands_of(ends@, apart@, ends@.len() as int);
            r@ == b.done.push((b.from as usize, ends@.len() as usize))
        }),
{
    let len: usize = ends.len();
    let mut r: Vec<(usize, usize)> = Vec::new();
    if len == 0 {
        return r;
    }
    let mut from: usize = 0;
    let mut far: usize = 0;
    let mut k: usize = 1;
    assert(r@ =~= bands_of(ends@, apart@, 1).done);
    while k < len
        invariant
            1 <= k <= len,
            len == ends@.len(),
            apart@.len() == len,
            forall|j: int| 0 <= j < apart@.len() ==> (#[trigger] apart@[j])@.len() == j,
            from < k,
            far < k,
            ({
                let b = bands_of(ends@, apart@, k as int);
                r@ == b.done && from == b.from && far == b.far
            }),
        decreases len - k,
    {
        assert(apart@[k as int]@.len() == k);
        if apart[k][far] {
            r.push((from, k));
            from = k;
            far = k;
        } else if ends[k] > ends[far] {
            far = k;
        }
        k = k + 1;
    }
    r.push((from, len));
    r
}

// ── laws ────────────────────────────────────────────────────────────────────

/// A grid of at most fourteen columns and 160 cells is a table where at least 28
/// of 100 cells hold text; one with more columns or cells is none.
pub proof fn law_filled_grid_is_a_table(
    rows: int,
    cols: int,
    cells: Seq<Option<(usize, usize)>>,
)
    requires
        0 < rows,
        0 < cols,
    ensures
        cols <= 14 && rows * cols <= 160 && 100 * occupied_count(cells, cols, rows * cols) >= 28 * (
        rows * cols) ==> is_table(rows, cols, cells),
        cols > 14 ==> !is_table(rows, cols, cells),
        rows * cols > 160 ==> !is_table(rows, cols, cells),
{
}

/// Where every cell holds a run all are counted, and where none does none is.
pub proof fn law_cells_are_counted(cells: Seq<Option<(usize, usize)>>, cols: int, k: int)
    requires
        0 <= k,
        0 < cols,
    ensures
        occupied_count(cells, cols, k) <= k,
        (forall|i: int|
            0 <= i < k ==> #[trigger] occupied(
                cells,
                (i / cols) as usize,
                (i % cols) as usize,
                cells.len() as int,
            )) <==> occupied_count(cells, cols, k) == k,
        (forall|i: int|
            0 <= i < k ==> !#[trigger] occupied(
                cells,
                (i / cols) as usize,
                (i % cols) as usize,
                cells.len() as int,
            )) <==> occupied_count(cells, cols, k) == 0,
    decreases k,
{
    if k > 0 {
        law_cells_are_counted(cells, cols, k - 1);
        let last = occupied(
            cells,
            ((k - 1) / cols) as usize,
            ((k - 1) % cols) as usize,
            cells.len() as int,
        );
        assert forall|i: int| 0 <= i < k implies i < k - 1 || #[trigger] occupied(
            cells,
            (i / cols) as usize,
            (i % cols) as usize,
            cells.len() as int,
        ) == last by {}
    }
}

/// A decimal separator stands between digits: one before it, and one to three
/// right behind it, with no more than units behind those. It is a comma wherever
/// the text holds one; a dot is one only where it is the only dot.
pub proof fn law_decimals_stand_behind_a_separator(s: Seq<char>)
    ensures
        separator_at(s) matches Some(i) ==> {
            &&& 0 < i < s.len() - 1
            &&& is_digit(s[i + 1])
            &&& exists|k: int| 0 <= k < i && is_digit(#[trigger] s[k])
            &&& s[i] == ',' || s[i] == '.'
            &&& s.contains(',') ==> s[i] == ','
            &&& s[i] == '.' ==> forall|k: int| 0 <= k < s.len() && k != i ==> s[k] != '.'
            &&& i + 4 < s.len() ==> is_unit(s[i + 4])
            &&& !is_digit(s.last()) ==> is_unit(s.last())
        },
{
    if let Some(i) = separator_at(s) {
        let c = separator_char(s)->0;
        lemma_last_separator(s, c, s.len() as int);
        lemma_occurrences(s, ',');
        lemma_occurrences(s, '.');
        let t = s.skip(i + 1);
        let frac = digit_run(t) as int;
        lemma_digits_open(t);
        assert(t[0] == s[i + 1]);
        assert(t.len() >= frac);
        assert(t[frac - 1] == s[i + frac]);
        if i + 1 + frac == s.len() {
            assert(s.last() == t[frac - 1]);
        }
        if s[i] == '.' {
            assert forall|k: int| 0 <= k < s.len() && k != i implies s[k] != '.' by {
                if s[k] == '.' {
                    lemma_two_occurrences(s, '.', i, k);
                }
            }
        }
    }
}

proof fn lemma_digits_open(t: Seq<char>)
    ensures
        digit_run(t) <= t.len(),
        forall|k: int| 0 <= k < digit_run(t) ==> is_digit(#[trigger] t[k]),
    decreases t.len(),
{
    if t.len() > 0 && is_digit(t[0]) {
        let u = t.skip(1);
        lemma_digits_open(u);
        assert forall|k: int| 0 <= k < digit_run(t) implies is_digit(#[trigger] t[k]) by {
            if k > 0 {
                assert(t[k] == u[k - 1]);
            }
        }
    }
}

proof fn lemma_last_separator(s: Seq<char>, c: char, n: int)
    requires
        0 <= n <= s.len(),
    ensures
        last_separator(s, c, n) matches Some(i) ==> 0 <= i < n && s[i] == c && parts_amount(s, i),
    decreases n,
{
    if n > 0 {
        lemma_last_separator(s, c, n - 1);
    }
}

proof fn lemma_occurrences(s: Seq<char>, c: char)
    ensures
        occurrences(s, c) > 0 <==> s.contains(c),
    decreases s.len(),
{
    if s.len() > 0 {
        let t = s.drop_last();
        lemma_occurrences(t, c);
        if s.contains(c) {
            let k = choose|k: int| 0 <= k < s.len() && s[k] == c;
            if k < t.len() {
                assert(t[k] == c);
            }
        }
        if t.contains(c) {
            let k = choose|k: int| 0 <= k < t.len() && t[k] == c;
            assert(s[k] == c);
        }
        if s.last() == c {
            assert(s[s.len() - 1] == c);
        }
    }
}

proof fn lemma_two_occurrences(s: Seq<char>, c: char, i: int, k: int)
    requires
        0 <= i < s.len(),
        0 <= k < s.len(),
        i != k,
        s[i] == c,
        s[k] == c,
    ensures
        occurrences(s, c) >= 2,
    decreases s.len(),
{
    let t = s.drop_last();
    let last = s.len() - 1;
    if i == last {
        assert(t[k] == c);
        lemma_occurrences(t, c);
    } else if k == last {
        assert(t[i] == c);
        lemma_occurrences(t, c);
    } else {
        lemma_two_occurrences(t, c, i, k);
    }
}

/// How near a run is to candidates tells how far they are.
pub open spec fn views_distances(v: Views, d: Seq<int>) -> bool {
    forall|k: int, b: int|
        #![trigger v.nearness@[k]@[b]]
        0 <= b < k < d.len() ==> {
            &&& v.nearness@[k]@[b] is Nearer <==> d[k] < d[b]
            &&& v.nearness@[k]@[b] is Farther <==> d[k] > d[b]
        }
}

/// A run chooses a candidate that it reaches, if there is one: no other that it
/// reaches is nearer; of those as near one on decimals goes first, and then the
/// one that more runs share.
pub proof fn law_runs_choose_the_nearest(cands: Seq<Candidate>, v: Views, d: Seq<int>, n: int)
    requires
        0 <= n <= cands.len(),
        d.len() == cands.len(),
        v.wf(cands.len()),
        views_distances(v, d),
    ensures
        match best_of(cands, v, n) {
            None => forall|k: int| 0 <= k < n ==> !#[trigger] v.reach@[k],
            Some(b) => {
                &&& 0 <= b < n
                &&& v.reach@[b]
                &&& forall|k: int| 0 <= k < n && #[trigger] v.reach@[k] ==> {
                    &&& d[b] <= d[k]
                    &&& d[b] == d[k] && cands[k].kind is Decimal ==> cands[b].kind is Decimal
                    &&& d[b] == d[k] && (cands[k].kind is Decimal) == (cands[b].kind is Decimal)
                        ==> cands[k].support <= cands[b].support
                }
            },
        },
    decreases n,
{
    if n > 0 {
        law_runs_choose_the_nearest(cands, v, d, n - 1);
        let b = best_of(cands, v, n - 1);
        if let Some(x) = b {
            let near = v.nearness@[n - 1]@[x];
            assert(near is Nearer <==> d[n - 1] < d[x]);
            assert(near is Farther <==> d[n - 1] > d[x]);
        }
    }
}

/// Intervals from their start to how far they reach, sorted by start; the keys
/// order as the reaches do, and one is apart from another where it starts beyond
/// its reach.
pub open spec fn are_intervals(
    ends: Seq<i64>,
    apart: Seq<Vec<bool>>,
    starts: Seq<int>,
    reach: Seq<int>,
) -> bool {
    &&& starts.len() == ends.len()
    &&& reach.len() == ends.len()
    &&& apart.len() == ends.len()
    &&& forall|i: int, j: int|
        #![trigger starts[i], starts[j]]
        0 <= i < j < starts.len() ==> starts[i] <= starts[j]
    &&& forall|i: int, j: int|
        #![trigger ends[i], ends[j]]
        0 <= i < ends.len() && 0 <= j < ends.len() ==> (ends[i] < ends[j] <==> reach[i] < reach[j])
    &&& forall|k: int, b: int|
        #![trigger apart[k]@[b]]
        0 <= b < k < ends.len() ==> (apart[k]@[b] <==> starts[k] > reach[b])
    &&& forall|k: int| 0 <= k < ends.len() ==> starts[k] <= #[trigger] reach[k]
}

/// All bands of the first `n` intervals.
pub open spec fn all_bands(ends: Seq<i64>, apart: Seq<Vec<bool>>, n: int) -> Seq<(usize, usize)> {
    let b = bands_of(ends, apart, n);
    b.done.push((b.from as usize, n as usize))
}

/// A band starts at an interval.
pub open spec fn starts_band(bands: Seq<(usize, usize)>, k: int) -> bool {
    exists|i: int| 0 <= i < bands.len() && (#[trigger] bands[i]).0 == k
}

/// Bands follow each other without a gap, and a new one starts at an interval
/// exactly where that starts beyond the reach of all intervals before it.
pub proof fn law_bands_part_where_nothing_reaches(
    ends: Seq<i64>,
    apart: Seq<Vec<bool>>,
    starts: Seq<int>,
    reach: Seq<int>,
    n: int,
)
    requires
        1 <= n <= ends.len() <= usize::MAX,
        are_intervals(ends, apart, starts, reach),
    ensures
        ({
            let all = all_bands(ends, apart, n);
            &&& all[0].0 == 0 && all.last().1 == n
            &&& forall|i: int| 0 <= i < all.len() ==> (#[trigger] all[i]).0 < all[i].1
            &&& forall|i: int, j: int|
                #![trigger all[i], all[j]]
                0 <= i && j == i + 1 && j < all.len() ==> all[j].0 == all[i].1
            &&& forall|k: int|
                1 <= k < n ==> (#[trigger] starts_band(all, k) <==> forall|b: int|
                    0 <= b < k ==> starts[k] > #[trigger] reach[b])
        }),
        ({
            let b = bands_of(ends, apart, n);
            &&& 0 <= b.from <= b.far < n
            &&& forall|i: int| 0 <= i < n ==> #[trigger] reach[i] <= reach[b.far]
        }),
    decreases n,
{
    let all = all_bands(ends, apart, n);
    if n == 1 {
        assert(all =~= seq![(0usize, 1usize)]);
    } else {
        law_bands_part_where_nothing_reaches(ends, apart, starts, reach, n - 1);
        let b = bands_of(ends, apart, n - 1);
        let c = bands_of(ends, apart, n);
        let old = all_bands(ends, apart, n - 1);
        let k = n - 1;
        assert(old.last() == (b.from as usize, k as usize));
        assert(apart[k]@[b.far] <==> starts[k] > reach[b.far]);
        assert(starts[k] <= reach[k]);
        assert(ends[b.far] < ends[k] <==> reach[b.far] < reach[k]);
        if apart[k]@[b.far] {
            assert(all =~= old.push((k as usize, n as usize)));
            assert(forall|i: int| 0 <= i < old.len() ==> all[i] == old[i]);
            assert forall|j: int| 1 <= j < n implies (#[trigger] starts_band(all, j) <==> forall|b: int|
                0 <= b < j ==> starts[j] > #[trigger] reach[b]) by {
                if j < k {
                    assert(starts_band(old, j) <==> starts_band(all, j)) by {
                        if starts_band(old, j) {
                            let i = choose|i: int| 0 <= i < old.len() && (#[trigger] old[i]).0 == j;
                            assert(all[i].0 == j);
                        }
                        if starts_band(all, j) {
                            let i = choose|i: int| 0 <= i < all.len() && (#[trigger] all[i]).0 == j;
                            assert(i < old.len());
                            assert(old[i].0 == j);
                        }
                    }
                } else {
                    assert(all[old.len() as int].0 == k);
                }
            }
        } else {
            let last = old.len() - 1;
            assert(all.len() == old.len());
            assert(forall|i: int| 0 <= i < last ==> all[i] == old[i]);
            assert(all[last].0 == old[last].0);
            assert forall|j: int| 1 <= j < n implies (#[trigger] starts_band(all, j) <==> forall|b: int|
                0 <= b < j ==> starts[j] > #[trigger] reach[b]) by {
                assert(starts_band(old, j) <==> starts_band(all, j)) by {
                    if starts_band(old, j) {
                        let i = choose|i: int| 0 <= i < old.len() && (#[trigger] old[i]).0 == j;
                        assert(all[i].0 == j);
                    }
                    if starts_band(all, j) {
                        let i = choose|i: int| 0 <= i < all.len() && (#[trigger] all[i]).0 == j;
                        assert(old[i].0 == j);
                    }
                }
                if j == k {
                    assert(!(starts[k] > reach[b.far]));
                    if starts_band(old, k) {
                        let i = choose|i: int| 0 <= i < old.len() && (#[trigger] old[i]).0 == k;
                        lemma_bands_end(old, i, k);
                    }
                }
            }
        }
    }
}

proof fn lemma_bands_end(all: Seq<(usize, usize)>, i: int, n: int)
    requires
        0 <= i < all.len(),
        all.last().1 == n,
        forall|i: int| 0 <= i < all.len() ==> (#[trigger] all[i]).0 < all[i].1,
        forall|i: int, j: int|
            #![trigger all[i], all[j]]
            0 <= i && j == i + 1 && j < all.len() ==> all[j].0 == all[i].1,
    ensures
        all[i].1 <= n,
        all[i].0 < n,
    decreases all.len() - i,
{
    if i + 1 < all.len() {
        lemma_bands_end(all, i + 1, n);
        assert(all[i + 1].0 == all[i].1);
    }
}

} // verus!
