//! Tables: cells filled from text runs, and merged where rules are missing.
use super::ids::IdGen;
use super::model::{
    pieces_of, plain, plain_style, Align, Block, BlockKind, BorderStyle, Cell, CharStyle, Frame,
    Inline, InlineRun, Paragraph, ParagraphStyle, Piece, Rotation, Row, Table, BLACK, NO_LENGTH,
    ONE_POINT,
};
use super::text::{chars_of, string_of, trim_chars, trimmed};
use vstd::multiset::Multiset;
use vstd::prelude::*;

verus! {

// ── the grid ────────────────────────────────────────────────────────────────

/// A text run and the cell, by row and column, that its centre lies in.
#[derive(Debug)]
pub struct GridRun {
    pub text: String,
    pub style: CharStyle,
    pub source_index: Option<usize>,
    pub cell: Option<(usize, usize)>,
}

/// The grid of a table.
#[derive(Debug)]
pub struct Grid {
    pub rows: usize,
    pub cols: usize,
    /// Rules were drawn around the cells.
    pub ruled: bool,
    /// For each row and column, whether a rule stands at the left edge.
    pub left_rules: Vec<Vec<bool>>,
    /// For each row and column, whether a rule lies along the top edge.
    pub top_rules: Vec<Vec<bool>>,
    /// The alignment of each column; a column without one is set left.
    pub col_align: Vec<Align>,
    /// The width of each column, as a handle.
    pub col_widths: Vec<usize>,
    /// The height of each row, as a handle.
    pub row_heights: Vec<usize>,
}

pub open spec fn flags_wf(v: Seq<Vec<bool>>, rows: nat, cols: nat) -> bool {
    &&& v.len() == rows
    &&& forall|r: int| 0 <= r < rows ==> (#[trigger] v[r])@.len() == cols
}

impl Grid {
    pub open spec fn wf(&self) -> bool {
        &&& self.rows * self.cols <= usize::MAX
        &&& flags_wf(self.left_rules@, self.rows as nat, self.cols as nat)
        &&& flags_wf(self.top_rules@, self.rows as nat, self.cols as nat)
        &&& self.col_widths@.len() == self.cols
        &&& self.row_heights@.len() == self.rows
    }

    /// A table with rules has a border of one point in black, another none.
    pub open spec fn border(&self) -> BorderStyle {
        BorderStyle {
            width: if self.ruled {
                ONE_POINT
            } else {
                NO_LENGTH
            },
            color: BLACK,
        }
    }

    pub open spec fn size(&self) -> nat {
        (self.rows * self.cols) as nat
    }

    pub open spec fn left_rule(&self, r: int, c: int) -> bool {
        self.left_rules@[r]@[c]
    }

    pub open spec fn top_rule(&self, r: int, c: int) -> bool {
        self.top_rules@[r]@[c]
    }

    pub open spec fn align(&self, c: int) -> Align {
        if c < self.col_align@.len() {
            self.col_align@[c]
        } else {
            Align::Left
        }
    }
}

// ── the cell of a point ─────────────────────────────────────────────────────

/// A place lies between two neighbouring edges, from the first on and before
/// the second.
pub open spec fn holds_place(edges: Seq<i64>, i: int, x: i64) -> bool {
    edges[i] <= x < edges[i + 1]
}

/// The same where the edges run downwards.
pub open spec fn holds_height(edges: Seq<i64>, i: int, y: i64) -> bool {
    edges[i] >= y > edges[i + 1]
}

/// The first column that holds `x`, from its left edge on and before its right
/// one.
pub fn col_of(cols: &[i64], x: i64) -> (r: Option<usize>)
    ensures
        match r {
            Some(i) => i + 1 < cols@.len() && holds_place(cols@, i as int, x) && forall|k: int|
                0 <= k < i ==> !#[trigger] holds_place(cols@, k, x),
            None => forall|k: int| 0 <= k && k + 1 < cols@.len() ==> !#[trigger] holds_place(
                cols@,
                k,
                x,
            ),
        },
{
    let mut i: usize = 0;
    while cols.len() >= 2 && i < cols.len() - 1
        invariant
            cols@.len() >= 2 ==> i < cols@.len(),
            forall|k: int| 0 <= k < i ==> !#[trigger] holds_place(cols@, k, x),
        decreases cols.len() - i,
    {
        if cols[i] <= x && x < cols[i + 1] {
            return Some(i);
        }
        i = i + 1;
    }
    None
}

/// The first row that holds `y`, from its top edge down and before its bottom
/// one. The edges run downwards.
pub fn row_of(rows: &[i64], y: i64) -> (r: Option<usize>)
    ensures
        match r {
            Some(i) => i + 1 < rows@.len() && holds_height(rows@, i as int, y) && forall|k: int|
                0 <= k < i ==> !#[trigger] holds_height(rows@, k, y),
            None => forall|k: int| 0 <= k && k + 1 < rows@.len() ==> !#[trigger] holds_height(
                rows@,
                k,
                y,
            ),
        },
{
    let mut i: usize = 0;
    while rows.len() >= 2 && i < rows.len() - 1
        invariant
            rows@.len() >= 2 ==> i < rows@.len(),
            forall|k: int| 0 <= k < i ==> !#[trigger] holds_height(rows@, k, y),
        decreases rows.len() - i,
    {
        if rows[i] >= y && y > rows[i + 1] {
            return Some(i);
        }
        i = i + 1;
    }
    None
}

/// Edges that ascend part the line: no place lies in two columns, and one from
/// the first edge on and before the last lies in one.
pub proof fn law_columns_part_the_line(edges: Seq<i64>, x: i64, i: int, j: int)
    requires
        forall|a: int, b: int| 0 <= a < b < edges.len() ==> edges[a] < edges[b],
        edges.len() >= 2,
    ensures
        0 <= i < j && j + 1 < edges.len() && holds_place(edges, i, x) ==> !holds_place(edges, j, x),
        edges[0] <= x < edges.last() ==> exists|k: int|
            0 <= k && k + 1 < edges.len() && #[trigger] holds_place(edges, k, x),
{
    if 0 <= i < j && j + 1 < edges.len() && holds_place(edges, i, x) {
        assert(edges[i + 1] <= edges[j]);
    }
    if edges[0] <= x < edges.last() {
        lemma_place_found(edges, x, edges.len() - 1);
    }
}

proof fn lemma_place_found(edges: Seq<i64>, x: i64, n: int)
    requires
        0 < n < edges.len(),
        edges[0] <= x < edges[n],
    ensures
        exists|k: int| 0 <= k && k + 1 < edges.len() && #[trigger] holds_place(edges, k, x),
    decreases n,
{
    if x < edges[n - 1] {
        lemma_place_found(edges, x, n - 1);
    } else {
        assert(holds_place(edges, n - 1, x));
    }
}

// ── what the cells hold ─────────────────────────────────────────────────────

/// What a cell holds: the words of its runs, the style of the first, and the
/// first source.
#[verifier::ext_equal]
pub ghost struct Slot {
    pub words: Seq<Seq<char>>,
    pub style: Option<CharStyle>,
    pub source: Option<usize>,
}

pub open spec fn empty_slot() -> Slot {
    Slot { words: Seq::empty(), style: None, source: None }
}

/// One value, or else another.
pub open spec fn or<T>(a: Option<T>, b: Option<T>) -> Option<T> {
    if a is Some {
        a
    } else {
        b
    }
}

/// The first `n` words with spaces between.
pub open spec fn spelled(words: Seq<Seq<char>>, n: int) -> Seq<char>
    decreases n,
{
    if n <= 0 {
        Seq::empty()
    } else if n == 1 {
        words[0]
    } else {
        spelled(words, n - 1) + seq![' '] + words[n - 1]
    }
}

/// Words with spaces between.
pub open spec fn spell(words: Seq<Seq<char>>) -> Seq<char> {
    spelled(words, words.len() as int)
}

/// No word is empty.
pub open spec fn words_wf(words: Seq<Seq<char>>) -> bool {
    forall|i: int| 0 <= i < words.len() ==> (#[trigger] words[i]).len() > 0
}

proof fn lemma_spelled_prefix(a: Seq<Seq<char>>, b: Seq<Seq<char>>, n: int)
    requires
        0 <= n <= a.len(),
        n <= b.len(),
        forall|i: int| 0 <= i < n ==> a[i] == b[i],
    ensures
        spelled(a, n) == spelled(b, n),
    decreases n,
{
    if n > 1 {
        lemma_spelled_prefix(a, b, n - 1);
    }
}

proof fn lemma_spell_add(a: Seq<Seq<char>>, b: Seq<Seq<char>>, n: int)
    requires
        0 < n <= b.len(),
        a.len() > 0,
    ensures
        spelled(a + b, a.len() + n) == spell(a) + seq![' '] + spelled(b, n),
    decreases n,
{
    if n == 1 {
        lemma_spelled_prefix(a, a + b, a.len() as int);
        assert((a + b)[a.len() as int] == b[0]);
        assert(spelled(a + b, a.len() + n) =~= spell(a) + seq![' '] + spelled(b, n));
    } else {
        lemma_spell_add(a, b, n - 1);
        assert((a + b)[a.len() + n - 1] == b[n - 1]);
        assert(spelled(a + b, a.len() + n) =~= spell(a) + seq![' '] + spelled(b, n));
    }
}

/// Words that are not empty spell a text that is empty only where there are
/// none.
proof fn lemma_spell_empty(words: Seq<Seq<char>>)
    requires
        words_wf(words),
    ensures
        spell(words).len() == 0 <==> words.len() == 0,
{
    if words.len() == 1 {
        assert(words[0].len() > 0);
    } else if words.len() > 1 {
        assert(words[words.len() - 1].len() > 0);
    }
}

// ── filling ─────────────────────────────────────────────────────────────────

/// A slot with the word, style and source of one more run.
pub open spec fn with_run(s: Slot, run: GridRun) -> Slot {
    Slot {
        words: s.words.push(trimmed(run.text@)),
        style: or(s.style, Some(run.style)),
        source: or(s.source, run.source_index),
    }
}

/// The slots, row by row, after the first `n` runs. A run goes to the cell that
/// its centre lies in; one that is blank or lies in none goes nowhere.
pub open spec fn filled(grid: Grid, runs: Seq<GridRun>, n: int) -> Seq<Slot>
    decreases n,
{
    if n <= 0 {
        Seq::new(grid.size(), |k: int| empty_slot())
    } else {
        let s = filled(grid, runs, n - 1);
        let run = runs[n - 1];
        match run.cell {
            Some((r, c)) => if r < grid.rows && c < grid.cols && trimmed(run.text@).len() > 0 {
                let k = r * grid.cols + c;
                s.update(k, with_run(s[k], run))
            } else {
                s
            },
            None => s,
        }
    }
}

/// The text, style and source of a cell.
struct CellText {
    text: Vec<char>,
    style: Option<CharStyle>,
    source: Option<usize>,
}

spec fn holds(c: CellText, s: Slot) -> bool {
    &&& c.text@ == spell(s.words)
    &&& words_wf(s.words)
    &&& c.style == s.style
    &&& c.source == s.source
}

spec fn all_hold(v: Seq<CellText>, s: Seq<Slot>) -> bool {
    &&& v.len() == s.len()
    &&& forall|k: int| 0 <= k < v.len() ==> holds(#[trigger] v[k], s[k])
}

proof fn lemma_slot_index(r: int, c: int, rows: int, cols: int)
    requires
        0 <= r < rows,
        0 <= c < cols,
    ensures
        0 <= r * cols + c < rows * cols,
{
    assert(r * cols + c < rows * cols) by (nonlinear_arith)
        requires
            0 <= r < rows,
            0 <= c < cols,
    ;
    assert(0 <= r * cols) by (nonlinear_arith)
        requires
            0 <= r,
            0 < cols,
    ;
}

fn join_word(text: &mut Vec<char>, word: &Vec<char>, Ghost(words): Ghost<Seq<Seq<char>>>)
    requires
        old(text)@ == spell(words),
        words_wf(words),
        word@.len() > 0,
    ensures
        final(text)@ == spell(words.push(word@)),
        words_wf(words.push(word@)),
{
    proof {
        lemma_spell_empty(words);
    }
    if text.len() > 0 {
        text.push(' ');
    }
    let mut more: Vec<char> = Vec::new();
    let mut i: usize = 0;
    while i < word.len()
        invariant
            i <= word@.len(),
            more@ == word@.take(i as int),
        decreases word.len() - i,
    {
        more.push(word[i]);
        i = i + 1;
        assert(more@ =~= word@.take(i as int));
    }
    assert(more@ =~= word@);
    text.append(&mut more);
    proof {
        let all = words.push(word@);
        if words.len() > 0 {
            lemma_spelled_prefix(words, all, words.len() as int);
            assert(all[words.len() as int] == word@);
            assert(text@ =~= spell(all));
        } else {
            assert(all[0] == word@);
            assert(text@ =~= spell(all));
        }
        assert forall|i: int| 0 <= i < all.len() implies (#[trigger] all[i]).len() > 0 by {
            if i < words.len() {
                assert(all[i] == words[i]);
            }
        }
    }
}

fn fill(grid: &Grid, runs: &[GridRun]) -> (v: Vec<CellText>)
    requires
        grid.wf(),
    ensures
        all_hold(v@, filled(*grid, runs@, runs@.len() as int)),
{
    let size: usize = grid.rows * grid.cols;
    let mut v: Vec<CellText> = Vec::new();
    while v.len() < size
        invariant
            v@.len() <= size,
            forall|k: int| 0 <= k < v@.len() ==> holds(#[trigger] v@[k], empty_slot()),
        decreases size - v.len(),
    {
        v.push(CellText { text: Vec::new(), style: None, source: None });
    }
    let mut n: usize = 0;
    while n < runs.len()
        invariant
            n <= runs@.len(),
            grid.wf(),
            size == grid.rows * grid.cols,
            v@.len() == size,
            all_hold(v@, filled(*grid, runs@, n as int)),
        decreases runs.len() - n,
    {
        let ghost s = filled(*grid, runs@, n as int);
        let ghost v0 = v@;
        let run: &GridRun = &runs[n];
        if let Some((r, c)) = run.cell {
            if r < grid.rows && c < grid.cols {
                let chars: Vec<char> = chars_of(run.text.as_str());
                let word: Vec<char> = trim_chars(&chars);
                if word.len() > 0 {
                    proof {
                        lemma_slot_index(r as int, c as int, grid.rows as int, grid.cols as int);
                    }
                    assert(r * grid.cols <= size);
                    let k: usize = r * grid.cols + c;
                    assert(holds(v@[k as int], s[k as int]));
                    join_word(&mut v[k].text, &word, Ghost(s[k as int].words));
                    if v[k].style.is_none() {
                        v[k].style = Some(run.style);
                    }
                    if v[k].source.is_none() {
                        v[k].source = run.source_index;
                    }
                    proof {
                        let t = filled(*grid, runs@, n + 1);
                        assert(t == s.update(k as int, with_run(s[k as int], *run)));
                        assert forall|j: int| 0 <= j < v@.len() implies holds(
                            #[trigger] v@[j],
                            t[j],
                        ) by {
                            if j != k {
                                assert(v@[j] == v0[j]);
                                assert(holds(v0[j], s[j]));
                            }
                        }
                    }
                }
            }
        }
        n = n + 1;
    }
    v
}

// ── merging ─────────────────────────────────────────────────────────────────

/// The columns that a cell at row `r` and column `c` spans, at least `w`: it
/// grows while no rule stands at the next left edge.
pub open spec fn span_cols(grid: Grid, r: int, c: int, w: int) -> int
    decreases grid.cols - c - w,
{
    if c + w < grid.cols && !grid.left_rule(r, c + w) {
        span_cols(grid, r, c, w + 1)
    } else {
        w
    }
}

/// No rule lies along the top of row `r` from column `c` over `w` columns.
pub open spec fn no_top_rule(grid: Grid, r: int, c: int, w: int) -> bool {
    forall|k: int| c <= k < c + w ==> !#[trigger] grid.top_rule(r, k)
}

/// The rows that a cell spans, at least `h`: it grows while no rule lies along
/// the next top edge of any of its columns.
pub open spec fn span_rows(grid: Grid, r: int, c: int, w: int, h: int) -> int
    decreases grid.rows - r - h,
{
    if r + h < grid.rows && no_top_rule(grid, r + h, c, w) {
        span_rows(grid, r, c, w, h + 1)
    } else {
        h
    }
}

/// The merging so far: what each slot holds, which are swallowed, and the span
/// of each.
#[verifier::ext_equal]
pub ghost struct Merge {
    pub slots: Seq<Slot>,
    pub covered: Seq<bool>,
    pub spans: Seq<(int, int)>,
}

/// Slot `x` is swallowed by slot `a`: its words go to the end of those of `a`,
/// and its style and source fill what `a` lacks.
pub open spec fn swallow(m: Merge, a: int, x: int) -> Merge {
    let p = m.slots[a];
    let q = m.slots[x];
    let p2 = Slot {
        words: p.words + q.words,
        style: or(p.style, q.style),
        source: or(p.source, q.source),
    };
    let q2 = Slot {
        words: Seq::empty(),
        style: if p.style is Some {
            q.style
        } else {
            None
        },
        source: if p.source is Some {
            q.source
        } else {
            None
        },
    };
    Merge {
        slots: m.slots.update(x, q2).update(a, p2),
        covered: m.covered.update(x, true),
        spans: m.spans,
    }
}

/// The slot at place `i`, counted row by row, in the block of `w` columns that
/// starts at row `r` and column `c`.
pub open spec fn block_slot(cols: int, r: int, c: int, w: int, i: int) -> int {
    (r + i / w) * cols + c + i % w
}

/// Slot `a`, at row `r` and column `c`, swallows the others of the first `n` of
/// its block.
pub open spec fn swallow_block(
    m: Merge,
    cols: int,
    r: int,
    c: int,
    w: int,
    n: int,
) -> Merge
    decreases n,
{
    if n <= 1 {
        m
    } else {
        swallow(
            swallow_block(m, cols, r, c, w, n - 1),
            r * cols + c,
            block_slot(cols, r, c, w, n - 1),
        )
    }
}

/// Merge at slot `k`: it spans as far as rules are missing and swallows what it
/// spans; a slot that was swallowed spans nothing.
pub open spec fn merge_at(grid: Grid, m: Merge, k: int) -> Merge {
    let cols = grid.cols as int;
    let r = k / cols;
    let c = k % cols;
    if m.covered[k] {
        m
    } else {
        let w = span_cols(grid, r, c, 1);
        let h = span_rows(grid, r, c, w, 1);
        swallow_block(Merge { spans: m.spans.update(k, (w, h)), ..m }, cols, r, c, w, w * h)
    }
}

/// The merging after the first `n` slots.
pub open spec fn merged(grid: Grid, slots: Seq<Slot>, n: int) -> Merge
    decreases n,
{
    if n <= 0 {
        Merge {
            slots,
            covered: Seq::new(grid.size(), |k: int| false),
            spans: Seq::new(grid.size(), |k: int| (1, 1)),
        }
    } else {
        merge_at(grid, merged(grid, slots, n - 1), n - 1)
    }
}

/// The merging of a whole grid: only rules can show by their absence that
/// cells are merged, so a table without rules is left as it is.
pub open spec fn merging(grid: Grid, has_rules: bool, slots: Seq<Slot>) -> Merge {
    merged(
        grid,
        slots,
        if grid.ruled && has_rules {
            grid.size() as int
        } else {
            0
        },
    )
}

proof fn lemma_span_cols(grid: Grid, r: int, c: int, w: int)
    requires
        1 <= w,
        0 <= c,
        c + w <= grid.cols,
    ensures
        w <= span_cols(grid, r, c, w) <= grid.cols - c,
    decreases grid.cols - c - w,
{
    if c + w < grid.cols && !grid.left_rule(r, c + w) {
        lemma_span_cols(grid, r, c, w + 1);
    }
}

proof fn lemma_span_rows(grid: Grid, r: int, c: int, w: int, h: int)
    requires
        1 <= h,
        0 <= r,
        r + h <= grid.rows,
    ensures
        h <= span_rows(grid, r, c, w, h) <= grid.rows - r,
    decreases grid.rows - r - h,
{
    if r + h < grid.rows && no_top_rule(grid, r + h, c, w) {
        lemma_span_rows(grid, r, c, w, h + 1);
    }
}

fn count_span_cols(grid: &Grid, r: usize, c: usize) -> (w: usize)
    requires
        grid.wf(),
        r < grid.rows,
        c < grid.cols,
    ensures
        w == span_cols(*grid, r as int, c as int, 1),
        1 <= w <= grid.cols - c,
{
    let mut w: usize = 1;
    while w < grid.cols - c && !grid.left_rules[r][c + w]
        invariant
            grid.wf(),
            r < grid.rows,
            1 <= w <= grid.cols - c,
            c < grid.cols,
            span_cols(*grid, r as int, c as int, 1) == span_cols(
                *grid,
                r as int,
                c as int,
                w as int,
            ),
        decreases grid.cols - c - w,
    {
        w = w + 1;
    }
    w
}

fn top_is_open(grid: &Grid, r: usize, c: usize, w: usize) -> (b: bool)
    requires
        grid.wf(),
        r < grid.rows,
        c + w <= grid.cols,
    ensures
        b == no_top_rule(*grid, r as int, c as int, w as int),
{
    let mut k: usize = c;
    while k < c + w
        invariant
            grid.wf(),
            r < grid.rows,
            c <= k <= c + w <= grid.cols,
            forall|j: int| c <= j < k ==> !#[trigger] grid.top_rule(r as int, j),
        decreases c + w - k,
    {
        if grid.top_rules[r][k] {
            assert(grid.top_rule(r as int, k as int));
            return false;
        }
        k = k + 1;
    }
    true
}

fn count_span_rows(grid: &Grid, r: usize, c: usize, w: usize) -> (h: usize)
    requires
        grid.wf(),
        r < grid.rows,
        1 <= w,
        c + w <= grid.cols,
    ensures
        h == span_rows(*grid, r as int, c as int, w as int, 1),
        1 <= h <= grid.rows - r,
{
    let mut h: usize = 1;
    while h < grid.rows - r && top_is_open(grid, r + h, c, w)
        invariant
            grid.wf(),
            r < grid.rows,
            c + w <= grid.cols,
            1 <= h <= grid.rows - r,
            span_rows(*grid, r as int, c as int, w as int, 1) == span_rows(
                *grid,
                r as int,
                c as int,
                w as int,
                h as int,
            ),
        decreases grid.rows - r - h,
    {
        h = h + 1;
    }
    h
}

/// The merging state.
struct Merging {
    cells: Vec<CellText>,
    covered: Vec<bool>,
    spans: Vec<(usize, usize)>,
}

spec fn merging_is(v: Merging, m: Merge, size: int) -> bool {
    &&& all_hold(v.cells@, m.slots)
    &&& m.slots.len() == size
    &&& v.covered@ == m.covered
    &&& m.covered.len() == size
    &&& v.spans@.len() == m.spans.len()
    &&& m.spans.len() == size
    &&& forall|k: int|
        0 <= k < size ==> (#[trigger] v.spans@[k]).0 == m.spans[k].0 && v.spans@[k].1
            == m.spans[k].1
}

fn swallow_slot(v: &mut Merging, a: usize, x: usize, Ghost(m): Ghost<Merge>, Ghost(size): Ghost<int>)
    requires
        merging_is(*old(v), m, size),
        a < size,
        x < size,
        a != x,
    ensures
        merging_is(*final(v), swallow(m, a as int, x as int), size),
{
    let ghost cells0 = v.cells@;
    let ghost p = m.slots[a as int];
    let ghost q = m.slots[x as int];
    let ghost goal = swallow(m, a as int, x as int);
    assert(holds(v.cells@[a as int], p));
    assert(holds(v.cells@[x as int], q));
    v.covered.set(x, true);
    let mut text: Vec<char> = Vec::new();
    core::mem::swap(&mut text, &mut v.cells[x].text);
    proof {
        lemma_spell_empty(p.words);
        lemma_spell_empty(q.words);
    }
    if text.len() > 0 {
        if v.cells[a].text.len() > 0 {
            v.cells[a].text.push(' ');
        }
        v.cells[a].text.append(&mut text);
    }
    proof {
        let both = p.words + q.words;
        assert(words_wf(both)) by {
            assert forall|i: int| 0 <= i < both.len() implies (#[trigger] both[i]).len() > 0 by {
                if i < p.words.len() {
                    assert(both[i] == p.words[i]);
                } else {
                    assert(both[i] == q.words[i - p.words.len()]);
                }
            }
        }
        if p.words.len() > 0 && q.words.len() > 0 {
            lemma_spell_add(p.words, q.words, q.words.len() as int);
        } else if q.words.len() > 0 {
            assert(both =~= q.words);
        } else {
            assert(both =~= p.words);
        }
        assert(v.cells@[a as int].text@ =~= spell(both));
        assert(v.cells@[x as int].text@ =~= spell(Seq::<Seq<char>>::empty()));
    }
    if v.cells[a].style.is_none() {
        let style: Option<CharStyle> = v.cells[x].style;
        v.cells[x].style = None;
        v.cells[a].style = style;
    }
    if v.cells[a].source.is_none() {
        let source: Option<usize> = v.cells[x].source;
        v.cells[x].source = None;
        v.cells[a].source = source;
    }
    proof {
        assert forall|k: int| 0 <= k < v.cells@.len() implies holds(
            #[trigger] v.cells@[k],
            goal.slots[k],
        ) by {
            if k != a && k != x {
                assert(v.cells@[k] == cells0[k]);
                assert(holds(cells0[k], m.slots[k]));
            }
        }
    }
}

proof fn lemma_block_slot(rows: int, cols: int, r: int, c: int, w: int, h: int, i: int)
    requires
        0 <= r,
        0 <= c,
        1 <= w <= cols - c,
        1 <= h <= rows - r,
        0 < i < w * h,
    ensures
        0 <= i / w < h,
        0 <= i % w < w,
        0 <= block_slot(cols, r, c, w, i) < rows * cols,
        block_slot(cols, r, c, w, i) != r * cols + c,
        block_slot(cols, r, c, w, i) > r * cols + c,
{
    let a = i / w;
    let b = i % w;
    assert(i == w * a + b && 0 <= b < w) by (nonlinear_arith)
        requires
            w > 0,
            a == i / w,
            b == i % w,
    ;
    assert(a < h) by (nonlinear_arith)
        requires
            i == w * a + b,
            0 <= b,
            i < w * h,
            w > 0,
    ;
    assert(0 <= a) by (nonlinear_arith)
        requires
            i == w * a + b,
            b < w,
            0 < i,
            w > 0,
    ;
    lemma_slot_index(r + a, c + b, rows, cols);
    if a == 0 {
        assert(b > 0) by (nonlinear_arith)
            requires
                i == w * a + b,
                a == 0,
                0 < i,
        ;
    } else {
        assert((r + a) * cols >= r * cols + cols) by (nonlinear_arith)
            requires
                a >= 1,
                cols >= 1,
        ;
    }
}

#[verifier::rlimit(30)]
fn merge_slot(grid: &Grid, v: &mut Merging, k: usize, Ghost(m): Ghost<Merge>)
    requires
        grid.wf(),
        k < grid.rows * grid.cols,
        merging_is(*old(v), m, grid.rows * grid.cols),
    ensures
        merging_is(*final(v), merge_at(*grid, m, k as int), grid.rows * grid.cols),
{
    let ghost size = grid.rows * grid.cols;
    if v.covered[k] {
        return;
    }
    let cols: usize = grid.cols;
    assert(cols > 0) by (nonlinear_arith)
        requires
            k < grid.rows * cols,
            0 <= k,
            cols >= 0,
            grid.cols == cols,
    ;
    let r: usize = k / cols;
    let c: usize = k % cols;
    assert(r < grid.rows && r * cols + c == k && 0 <= r) by (nonlinear_arith)
        requires
            r == k / cols,
            c == k % cols,
            cols > 0,
            k < grid.rows * cols,
    ;
    let w: usize = count_span_cols(grid, r, c);
    let h: usize = count_span_rows(grid, r, c, w);
    let ghost m1 = Merge { spans: m.spans.update(k as int, (w as int, h as int)), ..m };
    v.spans.set(k, (w, h));
    assert(merging_is(*v, m1, size));
    let mut rr: usize = 0;
    assert(w * h <= size) by (nonlinear_arith)
        requires
            1 <= w <= cols,
            1 <= h <= grid.rows,
            size == grid.rows * cols,
    ;
    assert(swallow_block(m1, cols as int, r as int, c as int, w as int, 0) == m1);
    assert(0 * w == 0);
    while rr < h
        invariant
            grid.wf(),
            size == grid.rows * grid.cols,
            cols == grid.cols,
            cols > 0,
            k == r * cols + c,
            k < size,
            1 <= w <= cols - c,
            1 <= h <= grid.rows - r,
            rr <= h,
            merging_is(
                *v,
                swallow_block(m1, cols as int, r as int, c as int, w as int, rr * w),
                size,
            ),
        decreases h - rr,
    {
        let mut cc: usize = 0;
        while cc < w
            invariant
                grid.wf(),
                size == grid.rows * grid.cols,
                cols == grid.cols,
                cols > 0,
                k == r * cols + c,
                k < size,
                1 <= w <= cols - c,
                1 <= h <= grid.rows - r,
                rr < h,
                cc <= w,
                merging_is(
                    *v,
                    swallow_block(m1, cols as int, r as int, c as int, w as int, rr * w + cc),
                    size,
                ),
            decreases w - cc,
        {
            let ghost i = rr * w + cc;
            let ghost before = swallow_block(m1, cols as int, r as int, c as int, w as int, i);
            proof {
                assert(i < w * h && 0 <= i && (rr > 0 || cc > 0 ==> i > 0)) by (nonlinear_arith)
                    requires
                        i == rr * w + cc,
                        0 <= rr < h,
                        0 <= cc < w,
                ;
                assert(i / w as int == rr && i % (w as int) == cc) by {
                    vstd::arithmetic::div_mod::lemma_fundamental_div_mod_converse(
                        i,
                        w as int,
                        rr as int,
                        cc as int,
                    );
                }
            }
            if rr > 0 || cc > 0 {
                proof {
                    lemma_block_slot(
                        grid.rows as int,
                        cols as int,
                        r as int,
                        c as int,
                        w as int,
                        h as int,
                        i,
                    );
                    assert((r + rr) * cols <= size) by (nonlinear_arith)
                        requires
                            r + rr <= grid.rows,
                            size == grid.rows * cols,
                            0 < cols,
                    ;
                }
                let x: usize = (r + rr) * cols + c + cc;
                assert(x == block_slot(cols as int, r as int, c as int, w as int, i));
                swallow_slot(v, k, x, Ghost(before), Ghost(size));
                assert(swallow_block(m1, cols as int, r as int, c as int, w as int, i + 1)
                    == swallow(before, k as int, x as int));
            } else {
                assert(swallow_block(m1, cols as int, r as int, c as int, w as int, 1) == m1);
            }
            cc = cc + 1;
        }
        assert(rr * w + w == (rr + 1) * w) by (nonlinear_arith);
        rr = rr + 1;
    }
    assert(h * w == w * h) by (nonlinear_arith);
}

fn merge(grid: &Grid, has_rules: bool, cells: Vec<CellText>, Ghost(slots): Ghost<Seq<Slot>>) -> (v:
    Merging)
    requires
        grid.wf(),
        all_hold(cells@, slots),
        slots.len() == grid.rows * grid.cols,
    ensures
        merging_is(v, merging(*grid, has_rules, slots), grid.rows * grid.cols),
{
    let size: usize = grid.rows * grid.cols;
    let mut covered: Vec<bool> = Vec::new();
    let mut spans: Vec<(usize, usize)> = Vec::new();
    while covered.len() < size
        invariant
            covered@.len() <= size,
            spans@.len() == covered@.len(),
            forall|k: int| 0 <= k < covered@.len() ==> covered@[k] == false,
            forall|k: int| 0 <= k < spans@.len() ==> spans@[k] == (1usize, 1usize),
        decreases size - covered.len(),
    {
        covered.push(false);
        spans.push((1, 1));
    }
    let mut v = Merging { cells, covered, spans };
    proof {
        assert(v.covered@ =~= merged(*grid, slots, 0).covered);
        assert(merging_is(v, merged(*grid, slots, 0), size as int));
    }
    if grid.ruled && has_rules {
        let mut k: usize = 0;
        while k < size
            invariant
                k <= size,
                grid.wf(),
                size == grid.rows * grid.cols,
                merging_is(v, merged(*grid, slots, k as int), size as int),
            decreases size - k,
        {
            merge_slot(grid, &mut v, k, Ghost(merged(*grid, slots, k as int)));
            k = k + 1;
        }
    }
    v
}

// ── the table ───────────────────────────────────────────────────────────────

/// A span as the model holds it, in sixteen bits and at least one.
pub open spec fn span_u16(n: int) -> u16 {
    if n % 65536 == 0 {
        1
    } else {
        (n % 65536) as u16
    }
}

/// The pieces of a cell: one run, or none where it holds no words.
pub open spec fn slot_pieces(s: Slot) -> Seq<Piece> {
    if s.words.len() == 0 {
        Seq::empty()
    } else {
        seq![
            Piece::Run {
                text: spell(s.words),
                style: match s.style {
                    Some(t) => t,
                    None => plain(),
                },
                source: s.source,
            },
        ]
    }
}

/// A cell holds what a slot holds, spans what it spans, and is set so.
pub open spec fn is_cell(cell: Cell, s: Slot, span: (int, int), align: Align, id: nat) -> bool {
    &&& cell.col_span == span_u16(span.0)
    &&& cell.row_span == span_u16(span.1)
    &&& cell.blocks@.len() == 1
    &&& cell.blocks@[0].id.0 == id
    &&& cell.blocks@[0].frame is None
    &&& cell.blocks@[0].rotation == Rotation::D0
    &&& cell.blocks@[0].kind matches BlockKind::Paragraph(p) && p.style == (ParagraphStyle {
        align,
        spacing: 0,
    }) && pieces_of(p.runs@) == slot_pieces(s)
}

/// The first `n` columns of row `r` that were not swallowed.
pub open spec fn shown(covered: Seq<bool>, cols: int, r: int, n: int) -> Seq<int>
    decreases n,
{
    if n <= 0 {
        Seq::empty()
    } else if covered[r * cols + n - 1] {
        shown(covered, cols, r, n - 1)
    } else {
        shown(covered, cols, r, n - 1).push(n - 1)
    }
}

/// How many of the first `k` slots were not swallowed.
pub open spec fn shown_before(covered: Seq<bool>, k: int) -> nat
    decreases k,
{
    if k <= 0 {
        0
    } else {
        shown_before(covered, k - 1) + (if covered[k - 1] {
            0nat
        } else {
            1nat
        })
    }
}

/// The first `n` shown cells of row `r`.
pub open spec fn are_cells(
    cells: Seq<Cell>,
    grid: Grid,
    m: Merge,
    r: int,
    n: int,
    id: nat,
) -> bool {
    let cols = grid.cols as int;
    let cs = shown(m.covered, cols, r, n);
    &&& cells.len() == cs.len()
    &&& forall|j: int|
        0 <= j < cs.len() ==> is_cell(
            #[trigger] cells[j],
            m.slots[r * cols + cs[j]],
            m.spans[r * cols + cs[j]],
            grid.align(cs[j]),
            id + shown_before(m.covered, r * cols + cs[j]),
        )
}

/// The rows of a table are those of a merged grid, its cells under identities
/// from `id` on, row by row.
pub open spec fn are_rows(rows: Seq<Row>, grid: Grid, m: Merge, id: nat) -> bool {
    &&& rows.len() == grid.rows
    &&& forall|r: int|
        0 <= r < grid.rows ==> (#[trigger] rows[r]).height == Some(grid.row_heights@[r])
            && are_cells(rows[r].cells@, grid, m, r, grid.cols as int, id)
}

fn to_u16(n: usize) -> (r: u16)
    ensures
        r == span_u16(n as int),
{
    let m: usize = n % 65536;
    if m == 0 {
        1
    } else {
        m as u16
    }
}

/// A cell that holds `text`, in a paragraph of its own.
fn make_cell_spanned(
    text: String,
    style: Option<CharStyle>,
    source_index: Option<usize>,
    span: (usize, usize),
    align: Align,
    ids: &mut IdGen,
    Ghost(s): Ghost<Slot>,
) -> (cell: Cell)
    requires
        old(ids).next() < u64::MAX,
        text@ == spell(s.words),
        words_wf(s.words),
        style == s.style,
        source_index == s.source,
    ensures
        final(ids).next() == old(ids).next() + 1,
        is_cell(cell, s, (span.0 as int, span.1 as int), align, old(ids).next()),
{
    let mut runs: Vec<Inline> = Vec::new();
    proof {
        lemma_spell_empty(s.words);
    }
    let chars: Vec<char> = chars_of(text.as_str());
    if chars.len() > 0 {
        let style: CharStyle = match style {
            Some(t) => t,
            None => plain_style(),
        };
        runs.push(Inline::Run(InlineRun { text, style, source_index }));
    }
    assert(pieces_of(runs@) =~= slot_pieces(s));
    let block = Block {
        id: ids.mint(),
        frame: None,
        rotation: Rotation::D0,
        kind: BlockKind::Paragraph(
            Paragraph { style: ParagraphStyle { align, spacing: 0 }, runs },
        ),
    };
    let mut blocks: Vec<Block> = Vec::new();
    blocks.push(block);
    Cell { blocks, col_span: to_u16(span.0), row_span: to_u16(span.1) }
}

proof fn lemma_shown_before(covered: Seq<bool>, k: int)
    requires
        0 <= k,
    ensures
        shown_before(covered, k) <= k,
    decreases k,
{
    if k > 0 {
        lemma_shown_before(covered, k - 1);
    }
}

fn column_align(grid: &Grid, c: usize) -> (a: Align)
    ensures
        a == grid.align(c as int),
{
    if c < grid.col_align.len() {
        grid.col_align[c]
    } else {
        Align::Left
    }
}

#[verifier::rlimit(30)]
fn build_row(
    grid: &Grid,
    v: &mut Merging,
    r: usize,
    ids: &mut IdGen,
    Ghost(m): Ghost<Merge>,
    Ghost(id): Ghost<nat>,
) -> (row: Row)
    requires
        grid.wf(),
        r < grid.rows,
        old(v).covered@ == m.covered,
        m.covered.len() == grid.rows * grid.cols,
        m.slots.len() == grid.rows * grid.cols,
        m.spans.len() == grid.rows * grid.cols,
        old(v).spans@.len() == m.spans.len(),
        old(v).cells@.len() == m.slots.len(),
        forall|k: int|
            0 <= k < m.spans.len() ==> (#[trigger] old(v).spans@[k]).0 == m.spans[k].0 && old(
                v,
            ).spans@[k].1 == m.spans[k].1,
        forall|k: int|
            r * grid.cols <= k < m.slots.len() ==> holds(#[trigger] old(v).cells@[k], m.slots[k]),
        old(ids).next() == id + shown_before(m.covered, r * grid.cols),
        id + grid.rows * grid.cols < u64::MAX,
    ensures
        final(v).covered@ == m.covered,
        final(v).spans@ == old(v).spans@,
        final(v).cells@.len() == m.slots.len(),
        forall|k: int|
            (r + 1) * grid.cols <= k < m.slots.len() ==> holds(
                #[trigger] final(v).cells@[k],
                m.slots[k],
            ),
        final(ids).next() == id + shown_before(m.covered, (r + 1) * grid.cols),
        are_cells(row.cells@, *grid, m, r as int, grid.cols as int, id),
        row.height == Some(grid.row_heights@[r as int]),
{
    let cols: usize = grid.cols;
    let ghost size = grid.rows * grid.cols;
    let ghost spans0 = v.spans@;
    let mut cells: Vec<Cell> = Vec::new();
    let mut c: usize = 0;
    assert(r * cols <= size) by (nonlinear_arith)
        requires
            r < grid.rows,
            size == grid.rows * cols,
            0 <= cols,
    ;
    while c < cols
        invariant
            grid.wf(),
            cols == grid.cols,
            size == grid.rows * grid.cols,
            r < grid.rows,
            r * cols <= size,
            c <= cols,
            v.covered@ == m.covered,
            m.covered.len() == size,
            m.slots.len() == size,
            m.spans.len() == size,
            v.spans@ == spans0,
            spans0.len() == size,
            v.cells@.len() == size,
            forall|k: int|
                0 <= k < size ==> (#[trigger] spans0[k]).0 == m.spans[k].0 && spans0[k].1
                    == m.spans[k].1,
            forall|k: int|
                r * cols + c <= k < size ==> holds(#[trigger] v.cells@[k], m.slots[k]),
            ids.next() == id + shown_before(m.covered, r * cols + c),
            id + size < u64::MAX,
            are_cells(cells@, *grid, m, r as int, c as int, id),
        decreases cols - c,
    {
        proof {
            lemma_slot_index(r as int, c as int, grid.rows as int, cols as int);
            lemma_shown_before(m.covered, r * cols + c);
        }
        let k: usize = r * cols + c;
        let ghost before = cells@;
        let ghost cs = shown(m.covered, cols as int, r as int, c as int);
        if !v.covered[k] {
            assert(holds(v.cells@[k as int], m.slots[k as int]));
            let mut text: Vec<char> = Vec::new();
            core::mem::swap(&mut text, &mut v.cells[k].text);
            let style: Option<CharStyle> = v.cells[k].style;
            let source: Option<usize> = v.cells[k].source;
            let cell: Cell = make_cell_spanned(
                string_of(&text),
                style,
                source,
                v.spans[k],
                column_align(grid, c),
                ids,
                Ghost(m.slots[k as int]),
            );
            cells.push(cell);
        }
        proof {
            let next = shown(m.covered, cols as int, r as int, c + 1);
            assert forall|j: int| 0 <= j < next.len() implies is_cell(
                #[trigger] cells@[j],
                m.slots[r * cols + next[j]],
                m.spans[r * cols + next[j]],
                grid.align(next[j]),
                id + shown_before(m.covered, r * cols + next[j]),
            ) by {
                if j < cs.len() {
                    assert(next[j] == cs[j]);
                    assert(cells@[j] == before[j]);
                    assert(is_cell(
                        before[j],
                        m.slots[r * cols + cs[j]],
                        m.spans[r * cols + cs[j]],
                        grid.align(cs[j]),
                        id + shown_before(m.covered, r * cols + cs[j]),
                    ));
                } else {
                    assert(next[j] == c);
                }
            }
        }
        c = c + 1;
    }
    assert(r * cols + cols == (r + 1) * cols) by (nonlinear_arith);
    Row { cells, height: Some(grid.row_heights[r]) }
}

/// The table block of a grid: every run in the cell that its centre lies in,
/// cells merged where the rule between them is missing. A grid without rows or
/// columns makes no table.
pub fn build_table(
    grid: &Grid,
    has_rules: bool,
    runs: &[GridRun],
    frame: Frame,
    ids: &mut IdGen,
) -> (b: Option<Block>)
    requires
        grid.wf(),
        old(ids).next() + grid.rows * grid.cols < u64::MAX,
    ensures
        grid.rows == 0 || grid.cols == 0 ==> b is None && final(ids).next() == old(ids).next(),
        grid.rows > 0 && grid.cols > 0 ==> ({
            let m = merging(*grid, has_rules, filled(*grid, runs@, runs@.len() as int));
            let id = old(ids).next() + shown_before(m.covered, grid.size() as int);
            &&& final(ids).next() == id + 1
            &&& b matches Some(t) && t.id.0 == id && t.frame == Some(frame) && t.rotation
                == Rotation::D0 && (t.kind matches BlockKind::Table(table) && table.col_widths@
                == grid.col_widths@ && table.border == grid.border() && are_rows(
                table.rows@,
                *grid,
                m,
                old(ids).next(),
            ))
        }),
{
    if grid.rows == 0 || grid.cols == 0 {
        return None;
    }
    let ghost id0 = ids.next();
    let ghost slots = filled(*grid, runs@, runs@.len() as int);
    let cells: Vec<CellText> = fill(grid, runs);
    proof {
        lemma_filled_len(*grid, runs@, runs@.len() as int);
    }
    let ghost m = merging(*grid, has_rules, slots);
    let mut v: Merging = merge(grid, has_rules, cells, Ghost(slots));
    let ghost size = grid.rows * grid.cols;
    let ghost spans0 = v.spans@;
    let mut rows: Vec<Row> = Vec::new();
    let mut r: usize = 0;
    assert(0 * grid.cols == 0);
    while r < grid.rows
        invariant
            grid.wf(),
            size == grid.rows * grid.cols,
            r <= grid.rows,
            v.covered@ == m.covered,
            m.covered.len() == size,
            m.slots.len() == size,
            m.spans.len() == size,
            v.spans@ == spans0,
            spans0.len() == size,
            v.cells@.len() == size,
            forall|k: int|
                0 <= k < size ==> (#[trigger] spans0[k]).0 == m.spans[k].0 && spans0[k].1
                    == m.spans[k].1,
            forall|k: int| r * grid.cols <= k < size ==> holds(#[trigger] v.cells@[k], m.slots[k]),
            ids.next() == id0 + shown_before(m.covered, r * grid.cols),
            id0 + size < u64::MAX,
            rows@.len() == r,
            forall|q: int|
                0 <= q < r ==> (#[trigger] rows@[q]).height == Some(grid.row_heights@[q])
                    && are_cells(rows@[q].cells@, *grid, m, q, grid.cols as int, id0),
        decreases grid.rows - r,
    {
        let row: Row = build_row(grid, &mut v, r, ids, Ghost(m), Ghost(id0));
        rows.push(row);
        r = r + 1;
    }
    proof {
        lemma_shown_before(m.covered, size);
    }
    let mut col_widths: Vec<usize> = Vec::new();
    col_widths.extend_from_slice(grid.col_widths.as_slice());
    assert(col_widths@ =~= grid.col_widths@);
    let border: BorderStyle = BorderStyle {
        width: if grid.ruled {
            ONE_POINT
        } else {
            NO_LENGTH
        },
        color: BLACK,
    };
    Some(
        Block {
            id: ids.mint(),
            frame: Some(frame),
            rotation: Rotation::D0,
            kind: BlockKind::Table(Table { rows, col_widths, border }),
        },
    )
}

proof fn lemma_filled_len(grid: Grid, runs: Seq<GridRun>, n: int)
    ensures
        filled(grid, runs, n).len() == grid.size(),
    decreases n,
{
    if n > 0 {
        lemma_filled_len(grid, runs, n - 1);
        if let Some((r, c)) = runs[n - 1].cell {
            if r < grid.rows && c < grid.cols {
                lemma_slot_index(r as int, c as int, grid.rows as int, grid.cols as int);
            }
        }
    }
}

// ── laws ────────────────────────────────────────────────────────────────────

/// In a table with every rule drawn nothing is merged: each cell spans one row
/// and one column and holds its own runs.
pub proof fn law_full_rules_merge_nothing(grid: Grid, slots: Seq<Slot>, n: int)
    requires
        grid.wf(),
        slots.len() == grid.size(),
        0 <= n <= grid.size(),
        forall|r: int, c: int|
            0 <= r < grid.rows && 1 <= c < grid.cols ==> #[trigger] grid.left_rule(r, c),
        forall|r: int, c: int|
            1 <= r < grid.rows && 0 <= c < grid.cols ==> #[trigger] grid.top_rule(r, c),
    ensures
        merged(grid, slots, n) == merged(grid, slots, 0),
    decreases n,
{
    if n > 0 {
        law_full_rules_merge_nothing(grid, slots, n - 1);
        let m = merged(grid, slots, 0);
        let k = n - 1;
        let cols = grid.cols as int;
        lemma_row_col(k, grid.rows as int, cols);
        let r = k / cols;
        let c = k % cols;
        if c + 1 < cols {
            assert(grid.left_rule(r, c + 1));
        }
        assert(span_cols(grid, r, c, 1) == 1);
        if r + 1 < grid.rows {
            assert(grid.top_rule(r + 1, c));
        }
        assert(span_rows(grid, r, c, 1, 1) == 1);
        assert(m.spans.update(k, (1, 1)) =~= m.spans);
        assert(merge_at(grid, m, k) =~= m);
    }
}

proof fn lemma_row_col(k: int, rows: int, cols: int)
    requires
        0 <= k < rows * cols,
        0 <= cols,
    ensures
        cols > 0,
        0 <= k / cols < rows,
        0 <= k % cols < cols,
        (k / cols) * cols + k % cols == k,
{
    assert(cols > 0) by (nonlinear_arith)
        requires
            0 <= k < rows * cols,
            0 <= cols,
    ;
    let r = k / cols;
    let c = k % cols;
    assert(r * cols + c == k && 0 <= c < cols && r < rows && 0 <= r) by (nonlinear_arith)
        requires
            r == k / cols,
            c == k % cols,
            cols > 0,
            0 <= k < rows * cols,
    ;
}

/// The words of the first `n` slots.
pub open spec fn all_words(slots: Seq<Slot>, n: int) -> Multiset<Seq<char>>
    decreases n,
{
    if n <= 0 {
        Multiset::empty()
    } else {
        all_words(slots, n - 1).add(slots[n - 1].words.to_multiset())
    }
}

proof fn lemma_words_update(slots: Seq<Slot>, k: int, s: Slot, n: int)
    requires
        0 <= k < slots.len(),
        0 <= n <= slots.len(),
    ensures
        k >= n ==> all_words(slots.update(k, s), n) == all_words(slots, n),
        k < n ==> all_words(slots.update(k, s), n).add(slots[k].words.to_multiset()) == all_words(
            slots,
            n,
        ).add(s.words.to_multiset()),
    decreases n,
{
    if n > 0 {
        lemma_words_update(slots, k, s, n - 1);
        let t = slots.update(k, s);
        if k < n - 1 {
            assert(t[n - 1] == slots[n - 1]);
            let a = all_words(t, n - 1).add(slots[k].words.to_multiset());
            let b = all_words(slots, n - 1).add(s.words.to_multiset());
            assert(all_words(t, n).add(slots[k].words.to_multiset()) =~= all_words(slots, n).add(
                s.words.to_multiset(),
            )) by {
                assert forall|w: Seq<char>|
                    all_words(t, n).add(slots[k].words.to_multiset()).count(w) == all_words(
                        slots,
                        n,
                    ).add(s.words.to_multiset()).count(w) by {
                    assert(a.count(w) == b.count(w));
                }
            }
        } else if k == n - 1 {
            assert(all_words(t, n).add(slots[k].words.to_multiset()) =~= all_words(slots, n).add(
                s.words.to_multiset(),
            ));
        } else {
            assert(t[n - 1] == slots[n - 1]);
        }
    }
}

/// What merging keeps: the words of all slots; slots that were swallowed hold
/// none.
spec fn keeps(m: Merge, words: Multiset<Seq<char>>, size: int) -> bool {
    &&& m.slots.len() == size
    &&& m.covered.len() == size
    &&& m.spans.len() == size
    &&& all_words(m.slots, size) == words
    &&& forall|k: int| 0 <= k < size && #[trigger] m.covered[k] ==> m.slots[k].words.len() == 0
}

proof fn lemma_swallow_keeps(m: Merge, a: int, x: int, words: Multiset<Seq<char>>, size: int)
    requires
        keeps(m, words, size),
        0 <= a < size,
        0 <= x < size,
        a != x,
        !m.covered[a],
    ensures
        keeps(swallow(m, a, x), words, size),
        !swallow(m, a, x).covered[a],
{
    broadcast use vstd::seq_lib::group_to_multiset_ensures;

    let p = m.slots[a];
    let q = m.slots[x];
    let r = swallow(m, a, x);
    let q2 = r.slots[x];
    let p2 = r.slots[a];
    let mid = m.slots.update(x, q2);
    lemma_words_update(m.slots, x, q2, size);
    lemma_words_update(mid, a, p2, size);
    assert(mid[a] == p);
    vstd::seq_lib::lemma_multiset_commutative(p.words, q.words);
    assert(p2.words.to_multiset() =~= p.words.to_multiset().add(q.words.to_multiset()));
    assert(q2.words.to_multiset() =~= Multiset::empty());
    assert(all_words(r.slots, size) =~= words) by {
        let before = all_words(m.slots, size);
        let middle = all_words(mid, size);
        let after = all_words(r.slots, size);
        assert(middle.add(q.words.to_multiset()) == before.add(Multiset::empty()));
        assert(after.add(p.words.to_multiset()) == middle.add(p2.words.to_multiset()));
        assert forall|w: Seq<char>| after.count(w) == before.count(w) by {
            assert(middle.add(q.words.to_multiset()).count(w) == before.add(
                Multiset::empty(),
            ).count(w));
            assert(after.add(p.words.to_multiset()).count(w) == middle.add(
                p2.words.to_multiset(),
            ).count(w));
        }
    }
}

proof fn lemma_block_keeps(
    m: Merge,
    rows: int,
    cols: int,
    r: int,
    c: int,
    w: int,
    h: int,
    n: int,
    words: Multiset<Seq<char>>,
)
    requires
        keeps(m, words, rows * cols),
        0 <= r,
        0 <= c,
        1 <= w <= cols - c,
        1 <= h <= rows - r,
        0 <= n <= w * h,
        !m.covered[r * cols + c],
    ensures
        keeps(swallow_block(m, cols, r, c, w, n), words, rows * cols),
        !swallow_block(m, cols, r, c, w, n).covered[r * cols + c],
    decreases n,
{
    if n > 1 {
        lemma_block_keeps(m, rows, cols, r, c, w, h, n - 1, words);
        lemma_block_slot(rows, cols, r, c, w, h, n - 1);
        lemma_slot_index(r, c, rows, cols);
        lemma_swallow_keeps(
            swallow_block(m, cols, r, c, w, n - 1),
            r * cols + c,
            block_slot(cols, r, c, w, n - 1),
            words,
            rows * cols,
        );
    }
}

/// Merging loses no text: all words are kept, and none is left in a cell that
/// was swallowed and so is not shown.
pub proof fn law_merging_keeps_words(grid: Grid, slots: Seq<Slot>, n: int)
    requires
        grid.wf(),
        slots.len() == grid.size(),
        0 <= n <= grid.size(),
    ensures
        ({
            let m = merged(grid, slots, n);
            let size = grid.size() as int;
            &&& m.slots.len() == size
            &&& m.covered.len() == size
            &&& all_words(m.slots, size) == all_words(slots, size)
            &&& forall|k: int|
                0 <= k < size && #[trigger] m.covered[k] ==> m.slots[k].words.len() == 0
        }),
{
    lemma_merged_keeps(grid, slots, n);
}

proof fn lemma_merged_keeps(grid: Grid, slots: Seq<Slot>, n: int)
    requires
        grid.wf(),
        slots.len() == grid.size(),
        0 <= n <= grid.size(),
    ensures
        keeps(
            merged(grid, slots, n),
            all_words(slots, grid.size() as int),
            grid.rows * grid.cols,
        ),
    decreases n,
{
    if n > 0 {
        lemma_merged_keeps(grid, slots, n - 1);
        let m = merged(grid, slots, n - 1);
        let k = n - 1;
        let cols = grid.cols as int;
        let words = all_words(slots, grid.size() as int);
        lemma_row_col(k, grid.rows as int, cols);
        let r = k / cols;
        let c = k % cols;
        if !m.covered[k] {
            lemma_span_cols(grid, r, c, 1);
            let w = span_cols(grid, r, c, 1);
            lemma_span_rows(grid, r, c, w, 1);
            let h = span_rows(grid, r, c, w, 1);
            let m1 = Merge { spans: m.spans.update(k, (w, h)), ..m };
            assert(0 <= w * h) by (nonlinear_arith)
                requires
                    1 <= w,
                    1 <= h,
            ;
            lemma_block_keeps(m1, grid.rows as int, cols, r, c, w, h, w * h, words);
        }
    }
}

// ── how a merged cell reads ─────────────────────────────────────────────────

/// Slot `x` lies in the block that slot `a` spans.
pub open spec fn in_block(m: Merge, cols: int, a: int, x: int) -> bool {
    &&& a / cols <= x / cols < a / cols + m.spans[a].1
    &&& a % cols <= x % cols < a % cols + m.spans[a].0
}

/// Slot `x` lies in the block of a slot before `k` that is shown.
pub open spec fn taken(m: Merge, cols: int, k: int, x: int) -> bool {
    exists|a: int| 0 <= a < k && !#[trigger] m.covered[a] && in_block(m, cols, a, x)
}

/// The words of each slot, but none of those that were taken before slot `k`.
pub open spec fn left_for(slots: Seq<Slot>, m: Merge, cols: int, k: int) -> Seq<Seq<Seq<char>>> {
    Seq::new(
        slots.len(),
        |x: int|
            if taken(m, cols, k, x) {
                Seq::empty()
            } else {
                slots[x].words
            },
    )
}

/// The words of `w` slots side by side, from left to right.
pub open spec fn row_read(words: Seq<Seq<Seq<char>>>, from: int, w: int) -> Seq<Seq<char>>
    decreases w,
{
    if w <= 0 {
        Seq::empty()
    } else {
        row_read(words, from, w - 1) + words[from + w - 1]
    }
}

/// The words of `h` rows of `w` slots, from slot `k` on, row by row.
pub open spec fn block_read(
    words: Seq<Seq<Seq<char>>>,
    cols: int,
    k: int,
    w: int,
    h: int,
) -> Seq<Seq<char>>
    decreases h,
{
    if h <= 0 {
        Seq::empty()
    } else {
        block_read(words, cols, k, w, h - 1) + row_read(words, k + (h - 1) * cols, w)
    }
}

/// The words of the first `n` slots of a block.
spec fn line_read(
    words: Seq<Seq<Seq<char>>>,
    cols: int,
    r: int,
    c: int,
    w: int,
    n: int,
) -> Seq<Seq<char>>
    decreases n,
{
    if n <= 0 {
        Seq::empty()
    } else {
        line_read(words, cols, r, c, w, n - 1) + words[block_slot(cols, r, c, w, n - 1)]
    }
}

proof fn lemma_line_read(
    words: Seq<Seq<Seq<char>>>,
    cols: int,
    r: int,
    c: int,
    w: int,
    h: int,
    t: int,
)
    requires
        1 <= w,
        0 <= h,
        0 <= t <= w,
    ensures
        line_read(words, cols, r, c, w, h * w + t) == block_read(words, cols, r * cols + c, w, h)
            + row_read(words, r * cols + c + h * cols, t),
    decreases h, t,
{
    let k = r * cols + c;
    assert(h * w >= 0) by (nonlinear_arith)
        requires
            h >= 0,
            w >= 1,
    ;
    if t > 0 {
        lemma_line_read(words, cols, r, c, w, h, t - 1);
        let i = h * w + t - 1;
        assert(i / w == h && i % w == t - 1) by (nonlinear_arith)
            requires
                i == h * w + (t - 1),
                0 <= t - 1 < w,
        ;
        assert((r + h) * cols == r * cols + h * cols) by (nonlinear_arith);
        assert(block_slot(cols, r, c, w, i) == k + h * cols + t - 1);
        assert(line_read(words, cols, r, c, w, h * w + t) =~= block_read(words, cols, k, w, h)
            + row_read(words, k + h * cols, t));
    } else if h > 0 {
        lemma_line_read(words, cols, r, c, w, h - 1, w);
        assert((h - 1) * w + w == h * w + 0) by (nonlinear_arith);
        assert(block_read(words, cols, k, w, h) + row_read(words, k + h * cols, 0) =~= block_read(
            words,
            cols,
            k,
            w,
            h - 1,
        ) + row_read(words, k + (h - 1) * cols, w));
    } else {
        assert(h * w == 0) by (nonlinear_arith)
            requires
                h == 0,
        ;
        assert(block_read(words, cols, k, w, 0) + row_read(words, k + h * cols, 0) =~= Seq::empty());
    }
}

/// Slot `x` is among the first `n` of the block of `w` columns at row `r` and
/// column `c`.
spec fn early(cols: int, r: int, c: int, w: int, n: int, x: int) -> bool {
    &&& r <= x / cols
    &&& c <= x % cols < c + w
    &&& (x / cols - r) * w + (x % cols - c) < n
}

proof fn lemma_early_step(rows: int, cols: int, r: int, c: int, w: int, h: int, n: int, x: int)
    requires
        0 <= r,
        0 <= c,
        1 <= w <= cols - c,
        1 <= h <= rows - r,
        0 <= n < w * h,
        0 <= x < rows * cols,
    ensures
        early(cols, r, c, w, n + 1, x) <==> early(cols, r, c, w, n, x) || x == block_slot(
            cols,
            r,
            c,
            w,
            n,
        ),
        !early(cols, r, c, w, n, block_slot(cols, r, c, w, n)),
{
    let y = block_slot(cols, r, c, w, n);
    let a = n / w;
    let b = n % w;
    assert(n == a * w + b && 0 <= b < w && 0 <= a) by (nonlinear_arith)
        requires
            w > 0,
            a == n / w,
            b == n % w,
            n >= 0,
    ;
    assert(y == (r + a) * cols + (c + b));
    let d = r + a;
    let e = c + b;
    assert(y / cols == d && y % cols == e) by (nonlinear_arith)
        requires
            y == d * cols + e,
            0 <= e < cols,
    ;
    lemma_row_col(x, rows, cols);
    let p = x / cols - r;
    let q = x % cols - c;
    if r <= x / cols && 0 <= q < w && p * w + q == n {
        assert(p == a && q == b) by (nonlinear_arith)
            requires
                p * w + q == a * w + b,
                0 <= q < w,
                0 <= b < w,
        ;
        assert(x == y);
    }
}

proof fn lemma_early_whole(rows: int, cols: int, r: int, c: int, w: int, h: int, x: int)
    requires
        0 <= r,
        0 <= c,
        1 <= w <= cols - c,
        1 <= h <= rows - r,
        0 <= x < rows * cols,
    ensures
        early(cols, r, c, w, w * h, x) <==> r <= x / cols < r + h && c <= x % cols < c + w,
        early(cols, r, c, w, w * h, x) ==> x >= r * cols + c,
        early(cols, r, c, w, 1, x) <==> x == r * cols + c,
{
    lemma_row_col(x, rows, cols);
    let p = x / cols - r;
    let q = x % cols - c;
    if p >= 0 && 0 <= q < w {
        assert(p * w + q < w * h <==> p < h) by (nonlinear_arith)
            requires
                p >= 0,
                0 <= q < w,
        ;
        assert(x / cols * cols >= r * cols) by (nonlinear_arith)
            requires
                x / cols >= r,
                cols >= 1,
        ;
        assert(p * w >= w || p == 0) by (nonlinear_arith)
            requires
                p >= 0,
                w >= 1,
        ;
        assert(p == 0 ==> p * w == 0);
    }
    let k = r * cols + c;
    assert(k / cols == r && k % cols == c) by (nonlinear_arith)
        requires
            k == r * cols + c,
            0 <= c < cols,
    ;
    assert(0 * w == 0);
}

/// The words of each slot.
spec fn words_of(slots: Seq<Slot>) -> Seq<Seq<Seq<char>>> {
    Seq::new(slots.len(), |x: int| slots[x].words)
}

/// The first value that is there among the first `n` slots of a block.
spec fn line_first<T>(vals: Seq<Option<T>>, cols: int, r: int, c: int, w: int, n: int) -> Option<T>
    decreases n,
{
    if n <= 0 {
        None
    } else {
        or(line_first(vals, cols, r, c, w, n - 1), vals[block_slot(cols, r, c, w, n - 1)])
    }
}

proof fn lemma_early_order(
    rows: int,
    cols: int,
    r: int,
    c: int,
    w: int,
    n: int,
    x: int,
    y: int,
)
    requires
        0 <= r,
        0 <= c,
        1 <= w <= cols - c,
        0 <= y < x < rows * cols,
        early(cols, r, c, w, n, x),
        r <= y / cols,
        c <= y % cols < c + w,
    ensures
        early(cols, r, c, w, n, y),
{
    lemma_row_col(x, rows, cols);
    lemma_row_col(y, rows, cols);
    let p = x / cols;
    let q = y / cols;
    let e = x % cols;
    let f = y % cols;
    assert(q < p || (q == p && f < e)) by (nonlinear_arith)
        requires
            q * cols + f < p * cols + e,
            0 <= e < cols,
            0 <= f < cols,
    ;
    if q < p {
        assert((q - r) * w + w <= (p - r) * w) by (nonlinear_arith)
            requires
                q + 1 <= p,
                w >= 1,
        ;
    }
}

proof fn lemma_line_first<T>(
    vals: Seq<Option<T>>,
    rows: int,
    cols: int,
    r: int,
    c: int,
    w: int,
    h: int,
    n: int,
)
    requires
        vals.len() == rows * cols,
        0 <= r,
        0 <= c,
        1 <= w <= cols - c,
        1 <= h <= rows - r,
        0 <= n <= w * h,
    ensures
        ({
            let v = line_first(vals, cols, r, c, w, n);
            &&& v is Some ==> exists|x: int|
                0 <= x < rows * cols && early(cols, r, c, w, n, x) && #[trigger] vals[x] == v
                    && forall|y: int|
                    0 <= y < x && early(cols, r, c, w, n, y) ==> #[trigger] vals[y] is None
            &&& v is None ==> forall|y: int|
                0 <= y < rows * cols && early(cols, r, c, w, n, y) ==> #[trigger] vals[y] is None
        }),
    decreases n,
{
    if n == 0 {
        assert forall|y: int| 0 <= y < rows * cols implies !#[trigger] early(
            cols,
            r,
            c,
            w,
            0,
            y,
        ) by {
            let p = y / cols - r;
            if p >= 0 {
                assert(p * w >= 0) by (nonlinear_arith)
                    requires
                        p >= 0,
                        w >= 1,
                ;
            }
        }
    } else {
        lemma_line_first(vals, rows, cols, r, c, w, h, n - 1);
        let u = line_first(vals, cols, r, c, w, n - 1);
        let v = line_first(vals, cols, r, c, w, n);
        let b = block_slot(cols, r, c, w, n - 1);
        if n > 1 {
            lemma_block_slot(rows, cols, r, c, w, h, n - 1);
        } else {
            lemma_slot_index(r, c, rows, cols);
            assert(0int / w == 0 && 0int % w == 0) by (nonlinear_arith)
                requires
                    w >= 1,
            ;
        }
        assert forall|y: int| 0 <= y < rows * cols implies #[trigger] early(cols, r, c, w, n, y)
            == (early(cols, r, c, w, n - 1, y) || y == b) by {
            lemma_early_step(rows, cols, r, c, w, h, n - 1, y);
        }
        if u is Some {
            let x = choose|x: int|
                0 <= x < rows * cols && early(cols, r, c, w, n - 1, x) && #[trigger] vals[x] == u
                    && forall|y: int|
                    0 <= y < x && early(cols, r, c, w, n - 1, y) ==> #[trigger] vals[y] is None;
            assert(early(cols, r, c, w, n, x));
            assert forall|y: int| 0 <= y < x && early(cols, r, c, w, n, y) implies #[trigger] vals[y]
                is None by {
                lemma_early_order(rows, cols, r, c, w, n - 1, x, y);
            }
            assert(vals[x] == v);
        } else if v is Some {
            assert(early(cols, r, c, w, n, b));
            assert(vals[b] == v);
            lemma_early_step(rows, cols, r, c, w, h, n - 1, b);
        } else {
            assert forall|y: int| 0 <= y < rows * cols && early(cols, r, c, w, n, y) implies #[trigger] vals[y]
                is None by {}
        }
    }
}

proof fn lemma_line_first_same<T>(
    u: Seq<Option<T>>,
    v: Seq<Option<T>>,
    rows: int,
    cols: int,
    r: int,
    c: int,
    w: int,
    h: int,
    n: int,
)
    requires
        0 <= r,
        0 <= c,
        1 <= w <= cols - c,
        1 <= h <= rows - r,
        0 <= n <= w * h,
        forall|x: int| 0 <= x < rows * cols && early(cols, r, c, w, n, x) ==> #[trigger] u[x] == v[x],
    ensures
        line_first(u, cols, r, c, w, n) == line_first(v, cols, r, c, w, n),
    decreases n,
{
    if n > 0 {
        let b = block_slot(cols, r, c, w, n - 1);
        assert forall|x: int| 0 <= x < rows * cols && early(cols, r, c, w, n - 1, x) implies #[trigger] u[x]
            == v[x] by {
            lemma_early_step(rows, cols, r, c, w, h, n - 1, x);
        }
        lemma_line_first_same(u, v, rows, cols, r, c, w, h, n - 1);
        if n > 1 {
            lemma_block_slot(rows, cols, r, c, w, h, n - 1);
        } else {
            lemma_slot_index(r, c, rows, cols);
            assert(0int / w == 0 && 0int % w == 0) by (nonlinear_arith)
                requires
                    w >= 1,
            ;
        }
        lemma_early_step(rows, cols, r, c, w, h, n - 1, b);
        assert(u[b] == v[b]);
    }
}

proof fn lemma_block_effect(
    m: Merge,
    rows: int,
    cols: int,
    r: int,
    c: int,
    w: int,
    h: int,
    n: int,
)
    requires
        m.slots.len() == rows * cols,
        m.covered.len() == rows * cols,
        m.spans.len() == rows * cols,
        0 <= r,
        0 <= c,
        1 <= w <= cols - c,
        1 <= h <= rows - r,
        1 <= n <= w * h,
    ensures
        ({
            let s = swallow_block(m, cols, r, c, w, n);
            let k = r * cols + c;
            &&& s.slots.len() == rows * cols
            &&& s.covered.len() == rows * cols
            &&& s.spans == m.spans
            &&& s.slots[k].words == line_read(words_of(m.slots), cols, r, c, w, n)
            &&& s.slots[k].style == line_first(styles_of(m.slots), cols, r, c, w, n)
            &&& s.slots[k].source == line_first(sources_of(m.slots), cols, r, c, w, n)
            &&& s.covered[k] == m.covered[k]
            &&& forall|x: int|
                0 <= x < rows * cols && x != k && early(cols, r, c, w, n, x)
                    ==> #[trigger] s.covered[x] && s.slots[x].words.len() == 0
            &&& forall|x: int|
                0 <= x < rows * cols && x != k && !early(cols, r, c, w, n, x)
                    ==> #[trigger] s.covered[x] == m.covered[x] && s.slots[x] == m.slots[x]
        }),
    decreases n,
{
    let k = r * cols + c;
    let words = words_of(m.slots);
    lemma_slot_index(r, c, rows, cols);
    if n == 1 {
        assert(swallow_block(m, cols, r, c, w, 1) == m);
        assert(0int / w == 0 && 0int % w == 0) by (nonlinear_arith)
            requires
                w >= 1,
        ;
        assert(block_slot(cols, r, c, w, 0) == k);
        assert(line_read(words, cols, r, c, w, 0) =~= Seq::empty());
        assert(line_read(words, cols, r, c, w, 1) =~= words[k]);
        assert(line_first(styles_of(m.slots), cols, r, c, w, 0) is None);
        assert(line_first(sources_of(m.slots), cols, r, c, w, 0) is None);
        assert forall|x: int| 0 <= x < rows * cols && x != k implies !early(
            cols,
            r,
            c,
            w,
            1,
            x,
        ) by {
            lemma_early_whole(rows, cols, r, c, w, h, x);
        }
    } else {
        lemma_block_effect(m, rows, cols, r, c, w, h, n - 1);
        let s = swallow_block(m, cols, r, c, w, n - 1);
        let t = swallow_block(m, cols, r, c, w, n);
        let b = block_slot(cols, r, c, w, n - 1);
        lemma_block_slot(rows, cols, r, c, w, h, n - 1);
        lemma_early_step(rows, cols, r, c, w, h, n - 1, b);
        assert(s.covered[b] == m.covered[b]);
        assert(s.slots[b] == m.slots[b]);
        assert(t == swallow(s, k, b));
        assert(words[b] == m.slots[b].words);
        assert(t.slots[k].words == s.slots[k].words + words[b]);
        assert(t.slots[k].words == line_read(words, cols, r, c, w, n));
        assert forall|x: int|
            0 <= x < rows * cols && x != k && early(cols, r, c, w, n, x) implies #[trigger] t.covered[x]
            && t.slots[x].words.len() == 0 by {
            lemma_early_step(rows, cols, r, c, w, h, n - 1, x);
            if x != b {
                assert(s.covered[x]);
            }
        }
        assert forall|x: int|
            0 <= x < rows * cols && x != k && !early(cols, r, c, w, n, x) implies #[trigger] t.covered[x]
            == m.covered[x] && t.slots[x] == m.slots[x] by {
            lemma_early_step(rows, cols, r, c, w, h, n - 1, x);
            assert(s.covered[x] == m.covered[x]);
        }
    }
}

/// What is known of a merging after the first `n` slots.
spec fn reads(grid: Grid, slots: Seq<Slot>, m: Merge, n: int) -> bool {
    let rows = grid.rows as int;
    let cols = grid.cols as int;
    &&& m.slots.len() == rows * cols
    &&& m.covered.len() == rows * cols
    &&& m.spans.len() == rows * cols
    &&& forall|a: int|
        0 <= a < n && !#[trigger] m.covered[a] ==> shows_block(grid, slots, m, a) && spans_open(
            grid,
            m,
            a,
        ) && shows_firsts(slots, m, cols, a)
    &&& forall|x: int|
        0 <= x < rows * cols ==> (#[trigger] m.covered[x] <==> exists|a: int|
            0 <= a < n && a != x && !#[trigger] m.covered[a] && in_block(m, cols, a, x))
    &&& forall|x: int|
        n <= x < rows * cols ==> #[trigger] m.slots[x].words == (if m.covered[x] {
            Seq::empty()
        } else {
            slots[x].words
        })
    &&& forall|x: int|
        n <= x < rows * cols && !#[trigger] m.covered[x] ==> m.slots[x] == slots[x]
    &&& forall|x: int| 0 <= x < rows * cols && #[trigger] m.covered[x] ==> m.slots[x].words.len() == 0
}

/// Slot `a` spans columns and rows that its rules leave open.
spec fn spans_open(grid: Grid, m: Merge, a: int) -> bool {
    let cols = grid.cols as int;
    let w = span_cols(grid, a / cols, a % cols, 1);
    m.spans[a] == (w, span_rows(grid, a / cols, a % cols, w, 1))
}

/// The style of each slot.
pub open spec fn styles_of(slots: Seq<Slot>) -> Seq<Option<CharStyle>> {
    Seq::new(slots.len(), |x: int| slots[x].style)
}

/// The source of each slot.
pub open spec fn sources_of(slots: Seq<Slot>) -> Seq<Option<usize>> {
    Seq::new(slots.len(), |x: int| slots[x].source)
}

/// `v` is the first of the values in the block of slot `a` that is there, and
/// is missing where all of them are.
pub open spec fn is_first<T>(v: Option<T>, vals: Seq<Option<T>>, m: Merge, cols: int, a: int) -> bool {
    &&& v is Some ==> exists|x: int|
        0 <= x < vals.len() && in_block(m, cols, a, x) && #[trigger] vals[x] == v && forall|y: int|
            0 <= y < x && in_block(m, cols, a, y) ==> #[trigger] vals[y] is None
    &&& v is None ==> forall|y: int|
        0 <= y < vals.len() && in_block(m, cols, a, y) ==> #[trigger] vals[y] is None
}

/// No slot in the block of slot `a` was taken before it.
pub open spec fn block_free(m: Merge, cols: int, a: int) -> bool {
    forall|x: int| 0 <= x < m.slots.len() && in_block(m, cols, a, x) ==> !#[trigger] taken(m, cols, a, x)
}

spec fn shows_firsts(slots: Seq<Slot>, m: Merge, cols: int, a: int) -> bool {
    block_free(m, cols, a) ==> is_first(m.slots[a].style, styles_of(slots), m, cols, a) && is_first(
        m.slots[a].source,
        sources_of(slots),
        m,
        cols,
        a,
    )
}

/// Slot `a` holds the words of its block in reading order.
pub open spec fn shows_block(grid: Grid, slots: Seq<Slot>, m: Merge, a: int) -> bool {
    let cols = grid.cols as int;
    let (w, h) = m.spans[a];
    &&& 1 <= w <= cols - a % cols
    &&& 1 <= h <= grid.rows - a / cols
    &&& m.slots[a].words == block_read(left_for(slots, m, cols, a), cols, a, w, h)
}

proof fn lemma_line_same(
    u: Seq<Seq<Seq<char>>>,
    v: Seq<Seq<Seq<char>>>,
    rows: int,
    cols: int,
    r: int,
    c: int,
    w: int,
    h: int,
    n: int,
)
    requires
        0 <= r,
        0 <= c,
        1 <= w <= cols - c,
        1 <= h <= rows - r,
        0 <= n <= w * h,
        forall|x: int| r * cols + c <= x < rows * cols ==> u[x] == v[x],
    ensures
        line_read(u, cols, r, c, w, n) == line_read(v, cols, r, c, w, n),
    decreases n,
{
    if n > 0 {
        lemma_line_same(u, v, rows, cols, r, c, w, h, n - 1);
        if n > 1 {
            lemma_block_slot(rows, cols, r, c, w, h, n - 1);
        } else {
            lemma_slot_index(r, c, rows, cols);
            assert(0int / w == 0 && 0int % w == 0) by (nonlinear_arith)
                requires
                    w >= 1,
            ;
        }
    }
}

proof fn lemma_first_moves<T>(
    v: Option<T>,
    vals: Seq<Option<T>>,
    m: Merge,
    t: Merge,
    cols: int,
    a: int,
)
    requires
        is_first(v, vals, m, cols, a),
        forall|x: int| #[trigger] in_block(t, cols, a, x) == in_block(m, cols, a, x),
    ensures
        is_first(v, vals, t, cols, a),
{
    if v is Some {
        let x = choose|x: int|
            0 <= x < vals.len() && in_block(m, cols, a, x) && #[trigger] vals[x] == v
                && forall|y: int|
                0 <= y < x && in_block(m, cols, a, y) ==> #[trigger] vals[y] is None;
        assert(in_block(t, cols, a, x));
        assert forall|y: int| 0 <= y < x && in_block(t, cols, a, y) implies #[trigger] vals[y] is None by {}
        assert(vals[x] == v);
    } else {
        assert forall|y: int| 0 <= y < vals.len() && in_block(t, cols, a, y) implies #[trigger] vals[y]
            is None by {}
    }
}

proof fn lemma_first_of_block<T>(
    v: Option<T>,
    vals: Seq<Option<T>>,
    t: Merge,
    rows: int,
    cols: int,
    n: int,
    r: int,
    c: int,
    w: int,
    h: int,
)
    requires
        vals.len() == rows * cols,
        0 <= r,
        0 <= c,
        1 <= w <= cols - c,
        1 <= h <= rows - r,
        v == line_first(vals, cols, r, c, w, w * h),
        forall|x: int|
            0 <= x < rows * cols ==> early(cols, r, c, w, w * h, x) == #[trigger] in_block(
                t,
                cols,
                n,
                x,
            ),
    ensures
        is_first(v, vals, t, cols, n),
{
    assert(w * h >= 0) by (nonlinear_arith)
        requires
            1 <= w,
            1 <= h,
    ;
    lemma_line_first(vals, rows, cols, r, c, w, h, w * h);
    if v is Some {
        let x = choose|x: int|
            0 <= x < rows * cols && early(cols, r, c, w, w * h, x) && #[trigger] vals[x] == v
                && forall|y: int|
                0 <= y < x && early(cols, r, c, w, w * h, y) ==> #[trigger] vals[y] is None;
        assert(in_block(t, cols, n, x));
        assert forall|y: int| 0 <= y < x && in_block(t, cols, n, y) implies #[trigger] vals[y] is None by {}
        assert(vals[x] == v);
    } else {
        assert forall|y: int| 0 <= y < vals.len() && in_block(t, cols, n, y) implies #[trigger] vals[y]
            is None by {}
    }
}

proof fn lemma_reads_step(grid: Grid, slots: Seq<Slot>, m: Merge, n: int)
    requires
        grid.wf(),
        slots.len() == grid.size(),
        0 <= n < grid.size(),
        reads(grid, slots, m, n),
    ensures
        reads(grid, slots, merge_at(grid, m, n), n + 1),
{
    let rows = grid.rows as int;
    let cols = grid.cols as int;
    lemma_row_col(n, rows, cols);
    let r = n / cols;
    let c = n % cols;
    let t = merge_at(grid, m, n);
    if m.covered[n] {
        assert(t == m);
    } else {
        lemma_span_cols(grid, r, c, 1);
        let w = span_cols(grid, r, c, 1);
        lemma_span_rows(grid, r, c, w, 1);
        let h = span_rows(grid, r, c, w, 1);
        let m1 = Merge { spans: m.spans.update(n, (w, h)), ..m };
        assert(w * h >= 1) by (nonlinear_arith)
            requires
                1 <= w,
                1 <= h,
        ;
        lemma_block_effect(m1, rows, cols, r, c, w, h, w * h);
        assert forall|x: int| 0 <= x < rows * cols implies early(cols, r, c, w, w * h, x)
            == #[trigger] in_block(t, cols, n, x) && (in_block(t, cols, n, x) ==> x >= n) by {
            lemma_early_whole(rows, cols, r, c, w, h, x);
        }
        assert forall|a: int| 0 <= a <= n implies #[trigger] t.covered[a] == m.covered[a] by {
            assert(in_block(t, cols, n, a) ==> a >= n);
        }
        assert forall|a: int, x: int| 0 <= a < n implies #[trigger] in_block(t, cols, a, x)
            == in_block(m, cols, a, x) by {}
        assert forall|a: int, x: int| 0 <= a <= n && 0 <= x < rows * cols implies #[trigger] taken(
            t,
            cols,
            a,
            x,
        ) == taken(m, cols, a, x) by {
            if taken(t, cols, a, x) {
                let b = choose|b: int|
                    0 <= b < a && !#[trigger] t.covered[b] && in_block(t, cols, b, x);
                assert(!m.covered[b] && in_block(m, cols, b, x));
            }
            if taken(m, cols, a, x) {
                let b = choose|b: int|
                    0 <= b < a && !#[trigger] m.covered[b] && in_block(m, cols, b, x);
                assert(!t.covered[b] && in_block(t, cols, b, x));
            }
        }
        assert forall|a: int| 0 <= a <= n implies #[trigger] left_for(slots, t, cols, a)
            == left_for(slots, m, cols, a) by {
            assert(left_for(slots, t, cols, a) =~= left_for(slots, m, cols, a));
        }
        // The cell that starts here.
        let words = words_of(m1.slots);
        let own = left_for(slots, m, cols, n);
        assert forall|x: int| n <= x < rows * cols implies words[x] == own[x] by {
            assert(m.slots[x].words == words[x]);
            assert(m.covered[x] == taken(m, cols, n, x));
        }
        lemma_line_same(words, own, rows, cols, r, c, w, h, w * h);
        lemma_line_read(own, cols, r, c, w, h, 0);
        assert(h * w + 0 == w * h) by (nonlinear_arith);
        assert(row_read(own, n + h * cols, 0) =~= Seq::empty());
        assert(line_read(own, cols, r, c, w, w * h) =~= block_read(own, cols, n, w, h));
        assert forall|a: int| 0 <= a < n + 1 && !#[trigger] t.covered[a] implies shows_block(
            grid,
            slots,
            t,
            a,
        ) && spans_open(grid, t, a) by {
            if a < n {
                assert(!m.covered[a]);
                assert(shows_block(grid, slots, m, a));
                assert(in_block(t, cols, n, a) ==> a >= n);
                assert(t.slots[a] == m.slots[a]);
                assert(left_for(slots, t, cols, a) == left_for(slots, m, cols, a));
            } else {
                assert(left_for(slots, t, cols, a) == own);
            }
        }
        assert forall|a: int| 0 <= a < n + 1 && !#[trigger] t.covered[a] implies shows_firsts(
            slots,
            t,
            cols,
            a,
        ) by {
            if a < n {
                assert(!m.covered[a]);
                assert(shows_firsts(slots, m, cols, a));
                assert(in_block(t, cols, n, a) ==> a >= n);
                assert(t.slots[a] == m.slots[a]);
                if block_free(t, cols, a) {
                    assert forall|x: int| 0 <= x < m.slots.len() && in_block(m, cols, a, x) implies !#[trigger] taken(
                        m,
                        cols,
                        a,
                        x,
                    ) by {
                        assert(in_block(t, cols, a, x));
                        assert(taken(t, cols, a, x) == taken(m, cols, a, x));
                    }
                    assert(block_free(m, cols, a));
                    lemma_first_moves(t.slots[a].style, styles_of(slots), m, t, cols, a);
                    lemma_first_moves(t.slots[a].source, sources_of(slots), m, t, cols, a);
                }
            } else if block_free(t, cols, n) {
                assert forall|x: int| 0 <= x < rows * cols && early(cols, r, c, w, w * h, x) implies #[trigger] m.slots[x]
                    == slots[x] by {
                    assert(in_block(t, cols, n, x));
                    assert(!taken(t, cols, n, x));
                    assert(taken(t, cols, n, x) == taken(m, cols, n, x));
                    assert(!m.covered[x]);
                }
                lemma_line_first_same(
                    styles_of(m.slots),
                    styles_of(slots),
                    rows,
                    cols,
                    r,
                    c,
                    w,
                    h,
                    w * h,
                );
                lemma_line_first_same(
                    sources_of(m.slots),
                    sources_of(slots),
                    rows,
                    cols,
                    r,
                    c,
                    w,
                    h,
                    w * h,
                );
                lemma_line_first(styles_of(slots), rows, cols, r, c, w, h, w * h);
                lemma_line_first(sources_of(slots), rows, cols, r, c, w, h, w * h);
                lemma_first_of_block(t.slots[n].style, styles_of(slots), t, rows, cols, n, r, c, w, h);
                lemma_first_of_block(
                    t.slots[n].source,
                    sources_of(slots),
                    t,
                    rows,
                    cols,
                    n,
                    r,
                    c,
                    w,
                    h,
                );
            }
        }
        assert forall|x: int| n + 1 <= x < rows * cols && !#[trigger] t.covered[x] implies t.slots[x]
            == slots[x] by {
            assert(!early(cols, r, c, w, w * h, x));
            assert(!m.covered[x]);
        }
        assert forall|x: int| 0 <= x < rows * cols implies (#[trigger] t.covered[x] <==> exists|a: int|
            0 <= a < n + 1 && a != x && !#[trigger] t.covered[a] && in_block(t, cols, a, x)) by {
            assert(early(cols, r, c, w, w * h, x) == in_block(t, cols, n, x));
            if t.covered[x] {
                if x != n && in_block(t, cols, n, x) {
                    assert(!t.covered[n]);
                } else {
                    assert(m.covered[x]);
                    let a = choose|a: int|
                        0 <= a < n && a != x && !#[trigger] m.covered[a] && in_block(m, cols, a, x);
                    assert(!t.covered[a] && in_block(t, cols, a, x));
                }
            }
            if exists|a: int|
                0 <= a < n + 1 && a != x && !#[trigger] t.covered[a] && in_block(t, cols, a, x) {
                let a = choose|a: int|
                    0 <= a < n + 1 && a != x && !#[trigger] t.covered[a] && in_block(t, cols, a, x);
                if a < n {
                    assert(!m.covered[a] && in_block(m, cols, a, x));
                    assert(m.covered[x]);
                }
            }
        }
        assert forall|x: int| n + 1 <= x < rows * cols implies #[trigger] t.slots[x].words == (
        if t.covered[x] {
            Seq::empty()
        } else {
            slots[x].words
        }) by {
            assert(m.slots[x].words == (if m.covered[x] {
                Seq::empty()
            } else {
                slots[x].words
            }));
            if early(cols, r, c, w, w * h, x) {
                assert(t.covered[x]);
                assert(t.slots[x].words =~= Seq::empty());
            } else {
                assert(t.covered[x] == m.covered[x]);
            }
        }
        assert forall|x: int| 0 <= x < rows * cols && #[trigger] t.covered[x] implies t.slots[x].words.len()
            == 0 by {
            if !early(cols, r, c, w, w * h, x) && x != n {
                assert(m.covered[x]);
            }
        }
    }
}

proof fn lemma_reads(grid: Grid, slots: Seq<Slot>, n: int)
    requires
        grid.wf(),
        slots.len() == grid.size(),
        0 <= n <= grid.size(),
    ensures
        reads(grid, slots, merged(grid, slots, n), n),
    decreases n,
{
    if n > 0 {
        lemma_reads(grid, slots, n - 1);
        lemma_reads_step(grid, slots, merged(grid, slots, n - 1), n - 1);
    }
}

/// A merged cell reads in order: its words are those of the slots of its block,
/// row by row and from left to right, one slot behind the other, without the
/// slots that a cell before it had already taken. A slot is hidden where it
/// lies in the block of another cell that is shown, and nowhere else.
pub proof fn law_merged_cell_reads_in_order(grid: Grid, has_rules: bool, slots: Seq<Slot>, k: int)
    requires
        grid.wf(),
        slots.len() == grid.size(),
        0 <= k < grid.size(),
    ensures
        ({
            let m = merging(grid, has_rules, slots);
            let cols = grid.cols as int;
            let (w, h) = m.spans[k];
            &&& !m.covered[k] ==> 1 <= w <= cols - k % cols && 1 <= h <= grid.rows - k / cols
            &&& !m.covered[k] ==> m.slots[k].words == block_read(
                left_for(slots, m, cols, k),
                cols,
                k,
                w,
                h,
            )
            &&& m.covered[k] ==> m.slots[k].words.len() == 0
            &&& m.covered[k] <==> exists|a: int|
                0 <= a < grid.size() && a != k && !#[trigger] m.covered[a] && in_block(
                    m,
                    cols,
                    a,
                    k,
                )
        }),
{
    let rows = grid.rows as int;
    let cols = grid.cols as int;
    let m = merging(grid, has_rules, slots);
    lemma_row_col(k, rows, cols);
    if grid.ruled && has_rules {
        lemma_reads(grid, slots, rows * cols);
        if !m.covered[k] {
            assert(shows_block(grid, slots, m, k));
        }
    } else {
        assert forall|a: int|
            0 <= a < rows * cols && !#[trigger] m.covered[a] && in_block(m, cols, a, k) implies a
            == k by {
            lemma_row_col(a, rows, cols);
        }
        let own = left_for(slots, m, cols, k);
        assert(own[k] == slots[k].words);
        assert(0 * cols == 0);
        assert(row_read(own, k, 0) =~= Seq::empty());
        assert(row_read(own, k, 1) =~= own[k]);
        assert(block_read(own, cols, k, 1, 0) =~= Seq::empty());
        assert(block_read(own, cols, k, 1, 1) =~= own[k]);
    }
}

/// A merged cell has the style, and the source, of the first slot of its block
/// that has one, in reading order, unless a cell before it took part of the
/// block.
pub proof fn law_merged_cell_looks_like_its_first_words(
    grid: Grid,
    has_rules: bool,
    slots: Seq<Slot>,
    k: int,
)
    requires
        grid.wf(),
        slots.len() == grid.size(),
        0 <= k < grid.size(),
        !merging(grid, has_rules, slots).covered[k],
        block_free(merging(grid, has_rules, slots), grid.cols as int, k),
    ensures
        ({
            let m = merging(grid, has_rules, slots);
            let cols = grid.cols as int;
            &&& is_first(m.slots[k].style, styles_of(slots), m, cols, k)
            &&& is_first(m.slots[k].source, sources_of(slots), m, cols, k)
        }),
{
    let rows = grid.rows as int;
    let cols = grid.cols as int;
    let m = merging(grid, has_rules, slots);
    lemma_row_col(k, rows, cols);
    if grid.ruled && has_rules {
        lemma_reads(grid, slots, rows * cols);
        assert(shows_firsts(slots, m, cols, k));
    } else {
        assert forall|y: int| 0 <= y < rows * cols && in_block(m, cols, k, y) implies y == k by {
            lemma_row_col(y, rows, cols);
        }
        assert(in_block(m, cols, k, k));
        assert(styles_of(slots)[k] == m.slots[k].style);
        assert(sources_of(slots)[k] == m.slots[k].source);
    }
}

proof fn lemma_span_cols_open(grid: Grid, r: int, c: int, w: int)
    requires
        1 <= w,
        c + w <= grid.cols,
        forall|j: int| c < j < c + w ==> !#[trigger] grid.left_rule(r, j),
    ensures
        ({
            let s = span_cols(grid, r, c, w);
            &&& forall|j: int| c < j < c + s ==> !#[trigger] grid.left_rule(r, j)
            &&& c + s == grid.cols || grid.left_rule(r, c + s)
        }),
    decreases grid.cols - c - w,
{
    if c + w < grid.cols && !grid.left_rule(r, c + w) {
        lemma_span_cols_open(grid, r, c, w + 1);
    }
}

proof fn lemma_span_rows_open(grid: Grid, r: int, c: int, w: int, h: int)
    requires
        1 <= h,
        r + h <= grid.rows,
        forall|i: int, j: int|
            r < i < r + h && c <= j < c + w ==> !#[trigger] grid.top_rule(i, j),
    ensures
        ({
            let s = span_rows(grid, r, c, w, h);
            &&& forall|i: int, j: int|
                r < i < r + s && c <= j < c + w ==> !#[trigger] grid.top_rule(i, j)
            &&& r + s == grid.rows || exists|j: int|
                c <= j < c + w && #[trigger] grid.top_rule(r + s, j)
        }),
    decreases grid.rows - r - h,
{
    if r + h < grid.rows && no_top_rule(grid, r + h, c, w) {
        lemma_span_rows_open(grid, r, c, w, h + 1);
    }
}

/// A cell of a ruled table reaches to the next rule: none stands inside it
/// along its first row, none lies across it, and it ends at the edge of the
/// grid or at a rule. In a table without rules every slot is a cell of its own
/// and is left as it is.
pub proof fn law_cells_reach_to_the_rules(grid: Grid, has_rules: bool, slots: Seq<Slot>, k: int)
    requires
        grid.wf(),
        slots.len() == grid.size(),
        0 <= k < grid.size(),
    ensures
        ({
            let m = merging(grid, has_rules, slots);
            let r = k / grid.cols as int;
            let c = k % grid.cols as int;
            let (w, h) = m.spans[k];
            if grid.ruled && has_rules {
                !m.covered[k] ==> {
                    &&& 1 <= w && c + w <= grid.cols
                    &&& 1 <= h && r + h <= grid.rows
                    &&& forall|j: int| c < j < c + w ==> !#[trigger] grid.left_rule(r, j)
                    &&& c + w < grid.cols ==> grid.left_rule(r, c + w)
                    &&& forall|i: int, j: int|
                        r < i < r + h && c <= j < c + w ==> !#[trigger] grid.top_rule(i, j)
                    &&& r + h < grid.rows ==> exists|j: int|
                        c <= j < c + w && #[trigger] grid.top_rule(r + h, j)
                }
            } else {
                w == 1 && h == 1 && !m.covered[k] && m.slots[k] == slots[k]
            }
        }),
{
    let rows = grid.rows as int;
    let cols = grid.cols as int;
    let m = merging(grid, has_rules, slots);
    lemma_row_col(k, rows, cols);
    if grid.ruled && has_rules {
        lemma_reads(grid, slots, rows * cols);
        if !m.covered[k] {
            assert(shows_block(grid, slots, m, k) && spans_open(grid, m, k));
            let r = k / cols;
            let c = k % cols;
            lemma_span_cols_open(grid, r, c, 1);
            lemma_span_rows_open(grid, r, c, m.spans[k].0, 1);
        }
    }
}

proof fn lemma_shown_in_order(covered: Seq<bool>, cols: int, r: int, n: int)
    requires
        0 <= n,
    ensures
        ({
            let cs = shown(covered, cols, r, n);
            &&& forall|j: int| 0 <= j < cs.len() ==> 0 <= #[trigger] cs[j] < n && !covered[r * cols + cs[j]]
            &&& forall|i: int, j: int| 0 <= i < j < cs.len() ==> #[trigger] cs[i] < #[trigger] cs[j]
            &&& forall|c: int| 0 <= c < n && !#[trigger] covered[r * cols + c] ==> cs.contains(c)
        }),
    decreases n,
{
    if n > 0 {
        lemma_shown_in_order(covered, cols, r, n - 1);
        let b = shown(covered, cols, r, n - 1);
        let cs = shown(covered, cols, r, n);
        assert forall|c: int| 0 <= c < n && !#[trigger] covered[r * cols + c] implies cs.contains(
            c,
        ) by {
            if c < n - 1 {
                let j = choose|j: int| 0 <= j < b.len() && b[j] == c;
                assert(cs[j] == c);
            } else {
                assert(cs[b.len() as int] == c);
            }
        }
    }
}

/// The rows of a table show each cell that is not part of another, once, from
/// left to right. Such a cell spans as many columns and rows as it reaches over.
pub proof fn law_rows_show_their_cells(
    rows: Seq<Row>,
    grid: Grid,
    has_rules: bool,
    slots: Seq<Slot>,
    id: nat,
    r: int,
)
    requires
        grid.wf(),
        grid.rows < 65536,
        grid.cols < 65536,
        slots.len() == grid.size(),
        0 <= r < grid.rows,
        are_rows(rows, grid, merging(grid, has_rules, slots), id),
    ensures
        ({
            let m = merging(grid, has_rules, slots);
            let cols = grid.cols as int;
            let cells = rows[r].cells@;
            exists|cs: Seq<int>|
                {
                    &&& cs.len() == cells.len()
                    &&& forall|c: int|
                        0 <= c < cols ==> (!#[trigger] m.covered[r * cols + c] <==> cs.contains(c))
                    &&& forall|i: int, j: int|
                        0 <= i < j < cs.len() ==> #[trigger] cs[i] < #[trigger] cs[j]
                    &&& forall|j: int|
                        0 <= j < cs.len() ==> {
                            let c = #[trigger] cs[j];
                            let cell = cells[j];
                            &&& 0 <= c < cols
                            &&& cell.col_span >= 1 && c + cell.col_span <= cols
                            &&& cell.row_span >= 1 && r + cell.row_span <= grid.rows
                            &&& cell.col_span == m.spans[r * cols + c].0
                            &&& cell.row_span == m.spans[r * cols + c].1
                        }
                }
        }),
{
    let m = merging(grid, has_rules, slots);
    let cols = grid.cols as int;
    let cs = shown(m.covered, cols, r, cols);
    let cells = rows[r].cells@;
    lemma_shown_in_order(m.covered, cols, r, cols);
    assert(are_cells(cells, grid, m, r, cols, id));
    assert forall|j: int| 0 <= j < cs.len() implies {
        let c = #[trigger] cs[j];
        let cell = cells[j];
        &&& 0 <= c < cols
        &&& cell.col_span >= 1 && c + cell.col_span <= cols
        &&& cell.row_span >= 1 && r + cell.row_span <= grid.rows
        &&& cell.col_span == m.spans[r * cols + c].0
        &&& cell.row_span == m.spans[r * cols + c].1
    } by {
        let c = cs[j];
        let k = r * cols + c;
        lemma_slot_index(r, c, grid.rows as int, cols);
        assert(k / cols == r && k % cols == c) by (nonlinear_arith)
            requires
                k == r * cols + c,
                0 <= c < cols,
        ;
        law_merged_cell_reads_in_order(grid, has_rules, slots, k);
        assert(is_cell(
            cells[j],
            m.slots[k],
            m.spans[k],
            grid.align(c),
            id + shown_before(m.covered, k),
        ));
    }
}

/// Texts join with one space between: the text of some words followed by others
/// is the text of the first, a space, and the text of the others. One word
/// alone is its own text.
pub proof fn law_words_join_with_a_space(a: Seq<Seq<char>>, b: Seq<Seq<char>>, word: Seq<char>)
    ensures
        a.len() > 0 && b.len() > 0 ==> spell(a + b) == spell(a) + seq![' '] + spell(b),
        spell(seq![word]) == word,
        spell(Seq::<Seq<char>>::empty()) == Seq::<char>::empty(),
{
    if a.len() > 0 && b.len() > 0 {
        lemma_spell_add(a, b, b.len() as int);
    }
}

/// A run with text that lies in the cell at row `r` and column `c`.
pub open spec fn is_run_of(run: GridRun, r: int, c: int) -> bool {
    &&& run.cell matches Some((i, j)) && i == r && j == c
    &&& trimmed(run.text@).len() > 0
}

/// The runs with text that lie in a cell, in the order in which they stand.
pub open spec fn runs_of(runs: Seq<GridRun>, r: int, c: int) -> Seq<GridRun> {
    runs.filter(|run: GridRun| is_run_of(run, r, c))
}

/// A cell is filled with the runs that lie in it and no others, in the order in
/// which they stand: its words are their texts without the white space around
/// them, its style is that of the first, and its source the first that one of
/// them has.
pub proof fn law_cells_hold_their_runs(grid: Grid, runs: Seq<GridRun>, r: int, c: int)
    requires
        grid.wf(),
        0 <= r < grid.rows,
        0 <= c < grid.cols,
    ensures
        ({
            let s = filled(grid, runs, runs.len() as int)[r * grid.cols + c];
            let own = runs_of(runs, r, c);
            &&& s.words == own.map_values(|run: GridRun| trimmed(run.text@))
            &&& s.style == (if own.len() == 0 {
                None
            } else {
                Some(own[0].style)
            })
            &&& s.source is Some ==> exists|i: int|
                0 <= i < own.len() && #[trigger] own[i].source_index == s.source && forall|j: int|
                    0 <= j < i ==> #[trigger] own[j].source_index is None
            &&& s.source is None ==> forall|i: int|
                0 <= i < own.len() ==> #[trigger] own[i].source_index is None
        }),
{
    lemma_filled_with(grid, runs, r, c, runs.len() as int);
    assert(runs.take(runs.len() as int) =~= runs);
}

spec fn slot_of(s: Slot, own: Seq<GridRun>) -> bool {
    &&& s.words == own.map_values(|run: GridRun| trimmed(run.text@))
    &&& s.style == (if own.len() == 0 {
        None
    } else {
        Some(own[0].style)
    })
    &&& s.source is Some ==> exists|i: int|
        0 <= i < own.len() && #[trigger] own[i].source_index == s.source && forall|j: int|
            0 <= j < i ==> #[trigger] own[j].source_index is None
    &&& s.source is None ==> forall|i: int|
        0 <= i < own.len() ==> #[trigger] own[i].source_index is None
}

proof fn lemma_slot_push(s: Slot, own: Seq<GridRun>, run: GridRun)
    requires
        slot_of(s, own),
    ensures
        slot_of(with_run(s, run), own.push(run)),
{
    let t = with_run(s, run);
    let all = own.push(run);
    assert(t.words =~= all.map_values(|run: GridRun| trimmed(run.text@)));
    if s.source is Some {
        let i = choose|i: int|
            0 <= i < own.len() && #[trigger] own[i].source_index == s.source && forall|j: int|
                0 <= j < i ==> #[trigger] own[j].source_index is None;
        assert(all[i].source_index == t.source);
        assert forall|j: int| 0 <= j < i implies #[trigger] all[j].source_index is None by {
            assert(own[j].source_index is None);
        }
    } else {
        assert forall|j: int| 0 <= j < own.len() implies #[trigger] all[j].source_index is None by {
            assert(own[j].source_index is None);
        }
        assert(all[own.len() as int].source_index == run.source_index);
    }
}

proof fn lemma_filled_with(grid: Grid, runs: Seq<GridRun>, r: int, c: int, n: int)
    requires
        grid.wf(),
        0 <= r < grid.rows,
        0 <= c < grid.cols,
        0 <= n <= runs.len(),
    ensures
        slot_of(filled(grid, runs, n)[r * grid.cols + c], runs_of(runs.take(n), r, c)),
    decreases n,
{
    let cols = grid.cols as int;
    let k = r * cols + c;
    lemma_slot_index(r, c, grid.rows as int, cols);
    reveal(Seq::filter);
    if n == 0 {
        assert(runs_of(runs.take(0), r, c) =~= Seq::empty());
        assert(empty_slot().words =~= runs_of(runs.take(0), r, c).map_values(
            |run: GridRun| trimmed(run.text@),
        ));
    } else {
        lemma_filled_with(grid, runs, r, c, n - 1);
        lemma_filled_len(grid, runs, n - 1);
        let run = runs[n - 1];
        let own = runs_of(runs.take(n - 1), r, c);
        assert(runs.take(n).drop_last() =~= runs.take(n - 1));
        assert(runs.take(n).last() == run);
        if is_run_of(run, r, c) {
            assert(runs_of(runs.take(n), r, c) == own.push(run));
            lemma_slot_push(filled(grid, runs, n - 1)[k], own, run);
        } else {
            assert(runs_of(runs.take(n), r, c) == own);
            if let Some((i, j)) = run.cell {
                if i < grid.rows && j < grid.cols {
                    let x = i * grid.cols + j;
                    lemma_slot_index(i as int, j as int, grid.rows as int, cols);
                    assert(x == k ==> i == r && j == c) by (nonlinear_arith)
                        requires
                            x == i * cols + j,
                            k == r * cols + c,
                            0 <= j < cols,
                            0 <= c < cols,
                    ;
                }
            }
        }
    }
}

} // verus!
