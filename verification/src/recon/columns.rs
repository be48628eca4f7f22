//! Columns and the reading order of a page.
use super::order::{ordered, stable_order, Rank};
use vstd::prelude::*;

verus! {

/// The columns of a page and the lines that part it into regions. Coordinates
/// are keys that order as they do.
#[derive(Debug)]
pub struct ColumnLayout {
    /// The edges of the columns, left to right; one more than there are
    /// columns.
    pub bands: Vec<i64>,
    /// The tops of the lines that part the page, from the top down.
    pub separators: Vec<i64>,
}

/// A line, as the layout sees it.
#[derive(Clone, Copy, Debug)]
pub struct LinePlace {
    pub center: i64,
    pub top: i64,
    /// How far the top is below that of the page.
    pub down: i64,
    /// The line parts the page: it is about as wide as the page, or stands in
    /// two columns or more.
    pub separator: bool,
}

/// The first band that ends right of `x`, from band `k` on; else the last.
pub open spec fn band_from(bands: Seq<i64>, x: i64, k: int) -> int
    decreases bands.len() - k,
{
    if k + 1 >= bands.len() || k < 0 {
        if bands.len() >= 2 {
            bands.len() - 2
        } else {
            0
        }
    } else if x < bands[k + 1] {
        k
    } else {
        band_from(bands, x, k + 1)
    }
}

/// How many of the first `n` separators stand above `top`.
pub open spec fn above(separators: Seq<i64>, top: i64, n: int) -> nat
    decreases n,
{
    if n <= 0 {
        0
    } else {
        above(separators, top, n - 1) + (if separators[n - 1] > top {
            1nat
        } else {
            0nat
        })
    }
}

impl ColumnLayout {
    pub open spec fn multi(&self) -> bool {
        self.bands@.len() > 2
    }

    /// The place of a point: its region, its column, and how far down.
    pub open spec fn rank_of(&self, center: i64, top: i64, down: i64) -> Rank {
        Rank {
            last: false,
            region: above(self.separators@, top, self.separators@.len() as int) as usize,
            band: if self.multi() {
                band_from(self.bands@, center, 0) as usize
            } else {
                0
            },
            down,
        }
    }

    /// The place of a line: one that parts the page comes behind all columns of
    /// its region.
    pub open spec fn line_rank_of(&self, l: LinePlace) -> Rank {
        let r = self.rank_of(l.center, l.top, l.down);
        if self.multi() && l.separator {
            Rank { band: self.bands@.len() as usize, ..r }
        } else {
            r
        }
    }

    /// Whether the page has more than one column.
    pub fn is_multi_column(&self) -> (r: bool)
        ensures
            r == self.multi(),
    {
        self.bands.len() > 2
    }

    /// The column that a centre falls in, left to right. Left of all columns is
    /// the first, right of them the last.
    pub fn band_of(&self, center: i64) -> (r: usize)
        ensures
            r == band_from(self.bands@, center, 0),
            self.bands@.len() >= 2 ==> r + 1 < self.bands@.len(),
    {
        let len: usize = self.bands.len();
        let mut k: usize = 0;
        while len > 1 && k < len - 1
            invariant
                len == self.bands@.len(),
                len > 1 ==> k <= len - 1,
                len <= 1 ==> k == 0,
                band_from(self.bands@, center, 0) == band_from(self.bands@, center, k as int),
            decreases len - k,
        {
            if center < self.bands[k + 1] {
                return k;
            }
            k = k + 1;
        }
        if len >= 2 {
            len - 2
        } else {
            0
        }
    }

    /// The region that a top falls in: how many separators stand above it.
    pub fn region_of(&self, top: i64) -> (r: usize)
        ensures
            r == above(self.separators@, top, self.separators@.len() as int),
    {
        let len: usize = self.separators.len();
        let mut r: usize = 0;
        let mut n: usize = 0;
        while n < len
            invariant
                n <= len,
                len == self.separators@.len(),
                r <= n,
                r == above(self.separators@, top, n as int),
            decreases len - n,
        {
            if self.separators[n] > top {
                r = r + 1;
            }
            n = n + 1;
        }
        r
    }

    /// The place of a point in the reading order.
    pub fn rank(&self, center: i64, top: i64, down: i64) -> (r: Rank)
        ensures
            r == self.rank_of(center, top, down),
    {
        let region: usize = self.region_of(top);
        let band: usize = if self.is_multi_column() {
            self.band_of(center)
        } else {
            0
        };
        Rank { last: false, region, band, down }
    }

    /// The place of a line in the reading order.
    pub fn line_rank(&self, line: &LinePlace) -> (r: Rank)
        ensures
            r == self.line_rank_of(*line),
    {
        let r: Rank = self.rank(line.center, line.top, line.down);
        if self.is_multi_column() && line.separator {
            Rank { last: r.last, region: r.region, band: self.bands.len(), down: r.down }
        } else {
            r
        }
    }

    /// The lines in reading order: region by region, column by column, from the
    /// top down. A page of one column keeps the order it has.
    pub fn order_lines(&self, lines: &[LinePlace]) -> (r: Vec<usize>)
        ensures
            r@.len() == lines@.len(),
            !self.multi() && self.separators@.len() == 0 ==> forall|i: int|
                0 <= i < lines@.len() ==> r@[i] == i,
            self.multi() || self.separators@.len() > 0 ==> r@ == ordered(
                Seq::new(lines@.len(), |i: int| self.line_rank_of(lines@[i])),
                lines@.len() as int,
            ),
    {
        let len: usize = lines.len();
        if !self.is_multi_column() && self.separators.len() == 0 {
            let mut r: Vec<usize> = Vec::new();
            let mut i: usize = 0;
            while i < len
                invariant
                    i <= len,
                    r@.len() == i,
                    forall|k: int| 0 <= k < i ==> r@[k] == k,
                decreases len - i,
            {
                r.push(i);
                i = i + 1;
            }
            return r;
        }
        let mut keys: Vec<Rank> = Vec::new();
        let mut i: usize = 0;
        while i < len
            invariant
                i <= len,
                len == lines@.len(),
                keys@.len() == i,
                forall|k: int| 0 <= k < i ==> keys@[k] == self.line_rank_of(#[trigger] lines@[k]),
            decreases len - i,
        {
            keys.push(self.line_rank(&lines[i]));
            i = i + 1;
        }
        assert(keys@ =~= Seq::new(lines@.len(), |i: int| self.line_rank_of(lines@[i])));
        proof {
            super::order::law_ordering(keys@, len as int);
        }
        stable_order(keys.as_slice())
    }
}

/// How many of the first `n` flags are set.
pub open spec fn count_set(flags: Seq<bool>, n: int) -> nat
    decreases n,
{
    if n <= 0 {
        0
    } else {
        count_set(flags, n - 1) + (if flags[n - 1] {
            1nat
        } else {
            0nat
        })
    }
}

pub fn count_flags(flags: &[bool]) -> (r: usize)
    ensures
        r == count_set(flags@, flags@.len() as int),
        r <= flags@.len(),
{
    let len: usize = flags.len();
    let mut r: usize = 0;
    let mut n: usize = 0;
    while n < len
        invariant
            n <= len,
            len == flags@.len(),
            r <= n,
            r == count_set(flags@, n as int),
        decreases len - n,
    {
        if flags[n] {
            r = r + 1;
        }
        n = n + 1;
    }
    r
}

/// A line parts the page.
pub open spec fn parts_page(multi: bool, full_width: bool, overlaps: Seq<bool>) -> bool {
    multi && (full_width || count_set(overlaps, overlaps.len() as int) >= 2)
}

proof fn lemma_count_set(flags: Seq<bool>, n: int)
    requires
        0 <= n <= flags.len(),
    ensures
        count_set(flags, n) >= 1 <==> exists|i: int| 0 <= i < n && #[trigger] flags[i],
        count_set(flags, n) >= 2 <==> exists|i: int, j: int|
            0 <= i < j < n && #[trigger] flags[i] && #[trigger] flags[j],
    decreases n,
{
    if n > 0 {
        lemma_count_set(flags, n - 1);
        if exists|i: int, j: int| 0 <= i < j < n && #[trigger] flags[i] && #[trigger] flags[j] {
            let (i, j) = choose|i: int, j: int|
                0 <= i < j < n && #[trigger] flags[i] && #[trigger] flags[j];
            if j < n - 1 {
                assert(flags[i] && flags[j]);
            } else {
                assert(flags[i]);
            }
        }
        if count_set(flags, n - 1) >= 1 && flags[n - 1] {
            let i = choose|i: int| 0 <= i < n - 1 && #[trigger] flags[i];
            assert(flags[i] && flags[n - 1]);
        }
    }
}

/// A page of one column is parted by no line. One of several is parted by a line
/// that is about as wide as the page, and by one that stands in two columns, and
/// not by one that stands in a single column.
pub proof fn law_wide_lines_part_the_page(full_width: bool, overlaps: Seq<bool>)
    ensures
        !parts_page(false, full_width, overlaps),
        parts_page(true, true, overlaps),
        parts_page(true, false, overlaps) <==> exists|i: int, j: int|
            0 <= i < j < overlaps.len() && #[trigger] overlaps[i] && #[trigger] overlaps[j],
{
    lemma_count_set(overlaps, overlaps.len() as int);
}

/// Whether a line parts the page: only on a page of several columns, where it
/// is about as wide as the page or stands in two columns or more.
pub fn line_is_separator(multi: bool, full_width: bool, overlaps: &[bool]) -> (r: bool)
    ensures
        r == parts_page(multi, full_width, overlaps@),
{
    multi && (full_width || count_flags(overlaps) >= 2)
}

// ── gutters ─────────────────────────────────────────────────────────────────

/// How many lines cover the stretch behind the first `n` edges, each of which
/// opens or closes a line.
pub open spec fn coverage(opens: Seq<bool>, n: int) -> int
    decreases n,
{
    if n <= 0 {
        0
    } else {
        coverage(opens, n - 1) + (if opens[n - 1] {
            1int
        } else {
            -1int
        })
    }
}

/// The stretches found so far, and the edge where an open one starts.
pub ghost struct Sweep {
    pub done: Seq<(usize, usize)>,
    pub open: Option<int>,
}

/// The sweep over the stretches behind the first `n` edges. A stretch that no
/// line covers opens at an edge within the text and ends where a line starts.
pub open spec fn sweep(opens: Seq<bool>, inside: Seq<bool>, n: int) -> Sweep
    decreases n,
{
    if n <= 0 {
        Sweep { done: Seq::empty(), open: None }
    } else {
        let s = sweep(opens, inside, n - 1);
        let k = n - 1;
        if coverage(opens, n) == 0 {
            if s.open is None && inside[k] {
                Sweep { open: Some(k), ..s }
            } else {
                s
            }
        } else {
            match s.open {
                Some(from) => Sweep {
                    done: s.done.push((from as usize, k as usize)),
                    open: None,
                },
                None => s,
            }
        }
    }
}

/// The stretches that no line covers with lines on both sides, as the edges
/// where they start and end. The edges are sorted; each opens or closes a line
/// and is inside the text or not. The last edge starts no stretch.
pub fn empty_runs(opens: &[bool], inside: &[bool]) -> (r: Vec<(usize, usize)>)
    requires
        inside@.len() == opens@.len(),
        opens@.len() <= i64::MAX,
    ensures
        r@ == sweep(opens@, inside@, opens@.len() - 1).done,
{
    let len: usize = opens.len();
    let mut r: Vec<(usize, usize)> = Vec::new();
    let mut cover: i64 = 0;
    let mut open: Option<usize> = None;
    let mut k: usize = 0;
    while len > 0 && k < len - 1
        invariant
            len == opens@.len(),
            inside@.len() == opens@.len(),
            len <= i64::MAX,
            len > 0 ==> k <= len - 1,
            len == 0 ==> k == 0,
            -k <= cover <= k,
            cover == coverage(opens@, k as int),
            ({
                let s = sweep(opens@, inside@, k as int);
                r@ == s.done && match open {
                    Some(from) => from < k && s.open == Some(from as int),
                    None => s.open is None,
                }
            }),
        decreases len - k,
    {
        if opens[k] {
            cover = cover + 1;
        } else {
            cover = cover - 1;
        }
        if cover == 0 {
            if open.is_none() && inside[k] {
                open = Some(k);
            }
        } else if let Some(from) = open {
            r.push((from, k));
            open = None;
        }
        k = k + 1;
    }
    r
}

/// A stretch that was found is empty at its start and covered at its end.
pub proof fn law_gutters_are_empty(opens: Seq<bool>, inside: Seq<bool>, n: int, i: int)
    requires
        0 <= n <= opens.len() <= usize::MAX,
        0 <= i < sweep(opens, inside, n).done.len(),
    ensures
        ({
            let (a, b) = sweep(opens, inside, n).done[i];
            a < b < n && inside[a as int] && coverage(opens, a + 1) == 0 && coverage(opens, b + 1)
                != 0
        }),
    decreases n,
{
    if n > 0 {
        lemma_open(opens, inside, n - 1);
        let s = sweep(opens, inside, n - 1);
        if i < s.done.len() {
            law_gutters_are_empty(opens, inside, n - 1, i);
        }
    }
}

proof fn lemma_open(opens: Seq<bool>, inside: Seq<bool>, n: int)
    requires
        0 <= n <= opens.len(),
    ensures
        sweep(opens, inside, n).open matches Some(a) ==> 0 <= a < n && inside[a] && coverage(
            opens,
            a + 1,
        ) == 0,
    decreases n,
{
    if n > 0 {
        lemma_open(opens, inside, n - 1);
    }
}

/// How many of the first `n` columns hold two lines or more.
pub open spec fn well_filled(lines: Seq<usize>, n: int) -> nat
    decreases n,
{
    if n <= 0 {
        0
    } else {
        well_filled(lines, n - 1) + (if lines[n - 1] >= 2 {
            1nat
        } else {
            0nat
        })
    }
}

/// Whether columns with so many lines in each are columns: two of them are well
/// filled; or there are but two, one well filled, and the lines of the other
/// stand beside it. `beside[k]` says so of column `k`.
pub open spec fn are_columns(lines: Seq<usize>, beside: (bool, bool)) -> bool {
    ||| well_filled(lines, lines.len() as int) >= 2
    ||| lines.len() == 2 && (if lines[0] >= lines[1] {
        lines[0] >= 2 && lines[1] > 0 && beside.1
    } else {
        lines[1] >= 2 && lines[0] > 0 && beside.0
    })
}

/// Whether the columns between gutters are columns of a page.
pub fn accept_bands(lines: &[usize], beside: (bool, bool)) -> (r: bool)
    ensures
        r == are_columns(lines@, beside),
{
    let len: usize = lines.len();
    let mut filled: usize = 0;
    let mut n: usize = 0;
    while n < len
        invariant
            n <= len,
            len == lines@.len(),
            filled <= n,
            filled == well_filled(lines@, n as int),
        decreases len - n,
    {
        if lines[n] >= 2 {
            filled = filled + 1;
        }
        n = n + 1;
    }
    if filled >= 2 {
        return true;
    }
    len == 2 && single_gutter_split(lines[0], lines[1], beside)
}

/// Whether two columns, one of them short, are columns: the fuller one holds
/// two lines or more, and those of the other stand beside it.
pub fn single_gutter_split(left: usize, right: usize, beside: (bool, bool)) -> (r: bool)
    ensures
        r == (if left >= right {
            left >= 2 && right > 0 && beside.1
        } else {
            right >= 2 && left > 0 && beside.0
        }),
{
    if left >= right {
        left >= 2 && right > 0 && beside.1
    } else {
        right >= 2 && left > 0 && beside.0
    }
}

/// A line that parts the page comes behind every column of its region and
/// before the next region.
pub proof fn law_separator_closes_region(layout: ColumnLayout, s: LinePlace, l: LinePlace)
    requires
        layout.multi(),
        s.separator,
        !l.separator,
        layout.bands@.len() <= usize::MAX,
        layout.separators@.len() <= usize::MAX,
    ensures
        ({
            let a = layout.line_rank_of(l);
            let b = layout.line_rank_of(s);
            a.region == b.region ==> super::order::before(a, b)
        }),
{
    lemma_band(layout.bands@, l.center, 0);
}

proof fn lemma_band(bands: Seq<i64>, x: i64, k: int)
    requires
        bands.len() >= 2,
        0 <= k,
    ensures
        0 <= band_from(bands, x, k) <= bands.len() - 2,
    decreases bands.len() - k,
{
    if k + 1 < bands.len() && !(x < bands[k + 1]) {
        lemma_band(bands, x, k + 1);
    }
}

/// Edges go from left to right.
pub open spec fn edges_wf(bands: Seq<i64>) -> bool {
    forall|i: int, j: int| 0 <= i < j < bands.len() ==> bands[i] <= bands[j]
}

proof fn lemma_band_holds(bands: Seq<i64>, x: i64, k: int)
    requires
        bands.len() >= 2,
        edges_wf(bands),
        0 <= k < bands.len() - 1,
        k == 0 || bands[k] <= x,
    ensures
        ({
            let b = band_from(bands, x, k);
            &&& k <= b <= bands.len() - 2
            &&& x < bands.last() ==> x < bands[b + 1]
            &&& b > 0 ==> bands[b] <= x
        }),
    decreases bands.len() - k,
{
    if !(x < bands[k + 1]) && k + 1 < bands.len() - 1 {
        lemma_band_holds(bands, x, k + 1);
    } else if !(x < bands[k + 1]) {
        assert(band_from(bands, x, k + 1) == bands.len() - 2);
    }
}

/// A point falls in the column whose edges it lies between; left of all columns
/// is the first, right of them the last.
pub proof fn law_columns_hold_their_points(bands: Seq<i64>, x: i64)
    requires
        bands.len() >= 2,
        edges_wf(bands),
    ensures
        ({
            let b = band_from(bands, x, 0);
            &&& 0 <= b <= bands.len() - 2
            &&& bands[0] <= x < bands.last() ==> bands[b] <= x < bands[b + 1]
            &&& x < bands[0] ==> b == 0
            &&& x >= bands.last() ==> b == bands.len() - 2
        }),
{
    lemma_band_holds(bands, x, 0);
    let b = band_from(bands, x, 0);
    if x < bands[0] && b > 0 {
        assert(bands[0] <= bands[b]);
    }
    if x >= bands.last() {
        lemma_band_last(bands, x, 0);
    }
}

proof fn lemma_band_last(bands: Seq<i64>, x: i64, k: int)
    requires
        bands.len() >= 2,
        edges_wf(bands),
        0 <= k <= bands.len() - 1,
        x >= bands.last(),
    ensures
        band_from(bands, x, k) == bands.len() - 2,
    decreases bands.len() - k,
{
    if k + 1 < bands.len() {
        assert(bands[k + 1] <= bands.last());
        lemma_band_last(bands, x, k + 1);
    }
}

/// Separators part the page: what is lower is in the same region or a later one,
/// and in a later one exactly where a separator stands between.
pub proof fn law_regions_part_at_separators(separators: Seq<i64>, hi: i64, lo: i64, n: int)
    requires
        0 <= n <= separators.len(),
        lo <= hi,
    ensures
        above(separators, hi, n) <= above(separators, lo, n) <= n,
        above(separators, hi, n) < above(separators, lo, n) <==> exists|k: int|
            0 <= k < n && lo < #[trigger] separators[k] <= hi,
    decreases n,
{
    if n > 0 {
        law_regions_part_at_separators(separators, hi, lo, n - 1);
        if lo < separators[n - 1] <= hi {
        } else if exists|k: int| 0 <= k < n && lo < #[trigger] separators[k] <= hi {
            let k = choose|k: int| 0 <= k < n && lo < #[trigger] separators[k] <= hi;
            assert(k < n - 1);
        }
    }
}

/// A page is read region by region, in each region column by column from left to
/// right, and in each column from the top down: what stands above a separator
/// comes before what stands below it; without one between, what stands left of
/// the edge of a column comes before what stands right of it, however high that
/// is; and in one column what is higher comes first.
pub proof fn law_pages_are_read_by_region_and_column(layout: ColumnLayout, a: LinePlace, b: LinePlace)
    requires
        layout.bands@.len() <= usize::MAX,
        layout.separators@.len() <= usize::MAX,
        edges_wf(layout.bands@),
        !a.separator,
        !b.separator,
    ensures
        ({
            let x = layout.line_rank_of(a);
            let y = layout.line_rank_of(b);
            let parted = exists|k: int|
                0 <= k < layout.separators@.len() && b.top < #[trigger] layout.separators@[k]
                    <= a.top;
            let level = forall|k: int|
                0 <= k < layout.separators@.len() ==> (#[trigger] layout.separators@[k] > a.top
                    <==> layout.separators@[k] > b.top);
            let across = exists|e: int|
                1 <= e < layout.bands@.len() - 1 && a.center < #[trigger] layout.bands@[e]
                    <= b.center;
            &&& parted ==> super::order::before(x, y)
            &&& level && layout.multi() && across ==> super::order::before(x, y)
            &&& level && !layout.multi() ==> (super::order::before(x, y) <==> a.down < b.down)
            &&& level && a.center == b.center ==> (super::order::before(x, y) <==> a.down < b.down)
        }),
{
    let seps = layout.separators@;
    let bands = layout.bands@;
    let n = seps.len() as int;
    if a.top >= b.top {
        law_regions_part_at_separators(seps, a.top, b.top, n);
    } else {
        law_regions_part_at_separators(seps, b.top, a.top, n);
    }
    law_regions_part_at_separators(seps, a.top, a.top, n);
    law_regions_part_at_separators(seps, b.top, b.top, n);
    if exists|e: int| 1 <= e < bands.len() - 1 && a.center < #[trigger] bands[e] <= b.center {
        let e = choose|e: int| 1 <= e < bands.len() - 1 && a.center < #[trigger] bands[e] <= b.center;
        law_columns_hold_their_points(bands, a.center);
        law_columns_hold_their_points(bands, b.center);
        lemma_band_holds(bands, a.center, 0);
        lemma_band_holds(bands, b.center, 0);
        let i = band_from(bands, a.center, 0);
        let j = band_from(bands, b.center, 0);
        if i >= e && i > 0 {
            assert(bands[e] <= bands[i]);
        }
        assert(i < e);
        if j < e {
            assert(b.center < bands.last() ==> b.center < bands[j + 1] && bands[j + 1] <= bands[e]);
        }
        assert(j >= e);
    }
}

proof fn lemma_coverage_steps(opens: Seq<bool>, n: int)
    requires
        n >= 1,
    ensures
        coverage(opens, n) == 0 ==> coverage(opens, n - 1) != 0 && coverage(opens, n + 1) != 0,
{
}

/// Every gutter is found, in order from left to right: the stretch behind an
/// edge inside the text that no line covers, up to the next edge.
pub proof fn law_every_gutter_is_found(opens: Seq<bool>, inside: Seq<bool>, n: int)
    requires
        0 <= n <= opens.len() <= usize::MAX,
    ensures
        ({
            let found = sweep(opens, inside, n).done;
            &&& forall|a: int|
                0 <= a < n - 1 && inside[a] && #[trigger] coverage(opens, a + 1) == 0
                    ==> found.contains((a as usize, (a + 1) as usize))
            &&& forall|i: int|
                0 <= i < found.len() ==> {
                    let (a, b) = #[trigger] found[i];
                    b == a + 1 && b < n && inside[a as int] && coverage(opens, a + 1) == 0
                }
            &&& forall|i: int, j: int|
                0 <= i < j < found.len() ==> (#[trigger] found[i]).0 < (#[trigger] found[j]).0
        }),
        sweep(opens, inside, n).open == (if n > 0 && coverage(opens, n) == 0 && inside[n - 1] {
            Some(n - 1)
        } else {
            None
        }),
    decreases n,
{
    if n > 0 {
        law_every_gutter_is_found(opens, inside, n - 1);
        lemma_coverage_steps(opens, n);
        let s = sweep(opens, inside, n - 1);
        let t = sweep(opens, inside, n);
        assert(coverage(opens, 0) == 0);
        assert forall|a: int|
            0 <= a < n - 1 && inside[a] && #[trigger] coverage(opens, a + 1) == 0 implies t.done.contains(
            (a as usize, (a + 1) as usize),
        ) by {
            if a < n - 2 {
                let i = choose|i: int|
                    0 <= i < s.done.len() && s.done[i] == (a as usize, (a + 1) as usize);
                assert(t.done[i] == s.done[i]);
            } else {
                assert(s.open == Some(a));
                lemma_coverage_steps(opens, n - 1);
                assert(t.done.last() == (a as usize, (a + 1) as usize));
            }
        }
    }
}

/// Whether two columns are columns does not depend on which side is which; an
/// empty column is none, and two well filled ones always are.
pub proof fn law_columns_are_judged_alike(left: usize, right: usize, beside: (bool, bool))
    ensures
        are_columns(seq![left, right], beside) == are_columns(
            seq![right, left],
            (beside.1, beside.0),
        ),
        left == 0 || right == 0 ==> !are_columns(seq![left, right], beside),
        left >= 2 && right >= 2 ==> are_columns(seq![left, right], beside),
        left < 2 && right < 2 ==> !are_columns(seq![left, right], beside),
        left >= 2 && right == 1 ==> are_columns(seq![left, right], beside) == beside.1,
        left == 1 && right >= 2 ==> are_columns(seq![left, right], beside) == beside.0,
{
    reveal_with_fuel(well_filled, 3);
}

} // verus!
