//! Pages: tables and text put together in reading order.
use super::ids::{pending_line, pending_of};
use super::model::Block;
use super::order::{ordered, stable_order, Rank};
use vstd::prelude::*;

verus! {

/// What the walk over the lines of a page comes upon.
#[derive(Clone, Copy, Debug, PartialEq, Eq, Structural)]
pub enum Step {
    /// A table starts here.
    Table(usize),
    /// A line of text.
    Line(usize),
}

/// A table, as far as its place goes.
#[derive(Debug)]
pub struct Placed {
    pub start_line: usize,
    pub covered_lines: Vec<usize>,
    pub used_paths: Vec<usize>,
}

/// The tables of a page.
#[derive(Debug)]
pub struct TablePlan {
    pub tables: Vec<Placed>,
}

/// The first table from `k` on that starts at a line.
pub open spec fn starts_at(tables: Seq<Placed>, line: usize, k: int) -> Option<usize>
    decreases tables.len() - k,
{
    if k < 0 || k >= tables.len() {
        None
    } else if tables[k].start_line == line {
        Some(k as usize)
    } else {
        starts_at(tables, line, k + 1)
    }
}

/// A line belongs to a table that starts at another line.
pub open spec fn consumed(tables: Seq<Placed>, line: usize) -> bool {
    exists|k: int|
        0 <= k < tables.len() && (#[trigger] tables[k]).start_line != line
            && tables[k].covered_lines@.contains(line)
}

/// A path is a rule of a table.
pub open spec fn is_rule(tables: Seq<Placed>, path: usize) -> bool {
    exists|k: int| 0 <= k < tables.len() && (#[trigger] tables[k]).used_paths@.contains(path)
}

fn holds(v: &Vec<usize>, x: usize) -> (r: bool)
    ensures
        r == v@.contains(x),
{
    let mut i: usize = 0;
    while i < v.len()
        invariant
            i <= v@.len(),
            forall|k: int| 0 <= k < i ==> v@[k] != x,
        decreases v.len() - i,
    {
        if v[i] == x {
            return true;
        }
        i = i + 1;
    }
    false
}

impl TablePlan {
    /// The table that starts at a line.
    pub fn take_if_starts_at(&self, line: usize) -> (r: Option<usize>)
        ensures
            r == starts_at(self.tables@, line, 0),
    {
        let mut k: usize = 0;
        while k < self.tables.len()
            invariant
                k <= self.tables@.len(),
                starts_at(self.tables@, line, 0) == starts_at(self.tables@, line, k as int),
            decreases self.tables.len() - k,
        {
            if self.tables[k].start_line == line {
                return Some(k);
            }
            k = k + 1;
        }
        None
    }

    /// Whether a line belongs to a table that starts at another line.
    pub fn is_consumed(&self, line: usize) -> (r: bool)
        ensures
            r == consumed(self.tables@, line),
    {
        let mut k: usize = 0;
        while k < self.tables.len()
            invariant
                k <= self.tables@.len(),
                forall|j: int|
                    0 <= j < k ==> (#[trigger] self.tables@[j]).start_line == line
                        || !self.tables@[j].covered_lines@.contains(line),
            decreases self.tables.len() - k,
        {
            if self.tables[k].start_line != line && holds(&self.tables[k].covered_lines, line) {
                assert(self.tables@[k as int].start_line != line);
                return true;
            }
            k = k + 1;
        }
        false
    }

    /// Whether a path is a rule of a table.
    pub fn uses_path(&self, path: usize) -> (r: bool)
        ensures
            r == is_rule(self.tables@, path),
    {
        let mut k: usize = 0;
        while k < self.tables.len()
            invariant
                k <= self.tables@.len(),
                forall|j: int|
                    0 <= j < k ==> !(#[trigger] self.tables@[j]).used_paths@.contains(path),
            decreases self.tables.len() - k,
        {
            if holds(&self.tables[k].used_paths, path) {
                assert(self.tables@[k as int].used_paths@.contains(path));
                return true;
            }
            k = k + 1;
        }
        false
    }
}

/// What the first `n` lines in reading order come to: a table where one starts,
/// nothing for the other lines of a table, else the line.
pub open spec fn steps_of(tables: Seq<Placed>, order: Seq<usize>, n: int) -> Seq<Step>
    decreases n,
{
    if n <= 0 {
        Seq::empty()
    } else {
        let s = steps_of(tables, order, n - 1);
        let line = order[n - 1];
        match starts_at(tables, line, 0) {
            Some(t) => s.push(Step::Table(t)),
            None => if consumed(tables, line) {
                s
            } else {
                s.push(Step::Line(line))
            },
        }
    }
}

/// Walk over the lines of a page in reading order.
pub fn walk(plan: &TablePlan, order: &[usize]) -> (r: Vec<Step>)
    ensures
        r@ == steps_of(plan.tables@, order@, order@.len() as int),
{
    let mut r: Vec<Step> = Vec::new();
    let mut n: usize = 0;
    while n < order.len()
        invariant
            n <= order@.len(),
            r@ == steps_of(plan.tables@, order@, n as int),
        decreases order.len() - n,
    {
        let line: usize = order[n];
        match plan.take_if_starts_at(line) {
            Some(t) => {
                r.push(Step::Table(t));
            },
            None => {
                if !plan.is_consumed(line) {
                    r.push(Step::Line(line));
                }
            },
        }
        n = n + 1;
    }
    r
}

/// The walk comes upon a line as text exactly where the line stands in the
/// reading order and belongs to no table.
pub proof fn law_text_lines_survive(tables: Seq<Placed>, order: Seq<usize>, n: int, line: usize)
    requires
        0 <= n <= order.len(),
    ensures
        steps_of(tables, order, n).contains(Step::Line(line)) <==> (order.take(n).contains(line)
            && starts_at(tables, line, 0) is None && !consumed(tables, line)),
    decreases n,
{
    let s = steps_of(tables, order, n);
    let t = order.take(n);
    if n > 0 {
        law_text_lines_survive(tables, order, n - 1, line);
        let s0 = steps_of(tables, order, n - 1);
        let t0 = order.take(n - 1);
        let last = order[n - 1];
        assert(t =~= t0.push(last));
        if t0.contains(line) {
            let i = choose|i: int| 0 <= i < t0.len() && t0[i] == line;
            assert(t[i] == line);
        }
        if t.contains(line) {
            let i = choose|i: int| 0 <= i < t.len() && t[i] == line;
            if i < t0.len() {
                assert(t0[i] == line);
            } else {
                assert(last == line);
            }
        }
        assert(t[n - 1] == last);
        if s0.contains(Step::Line(line)) {
            let i = choose|i: int| 0 <= i < s0.len() && s0[i] == Step::Line(line);
            assert(s[i] == Step::Line(line));
        }
        if s.contains(Step::Line(line)) {
            let i = choose|i: int| 0 <= i < s.len() && s[i] == Step::Line(line);
            if i < s0.len() {
                assert(s0[i] == Step::Line(line));
            }
        }
        if starts_at(tables, last, 0) is None && !consumed(tables, last) {
            assert(s[s.len() - 1] == Step::Line(last));
        }
    }
}

// ── text between blocks ─────────────────────────────────────────────────────

/// A stretch of a page: lines that follow each other, or a finished block.
#[derive(Debug)]
pub enum Stretch {
    Text(Vec<usize>),
    Done(Block),
}

/// A stretch, as a value.
pub ghost enum Part {
    Text(Seq<usize>),
    Done(Block),
}

pub open spec fn part_of(s: Stretch) -> Part {
    match s {
        Stretch::Text(v) => Part::Text(v@),
        Stretch::Done(b) => Part::Done(b),
    }
}

pub open spec fn parts_of(s: Seq<Stretch>) -> Seq<Part> {
    Seq::new(s.len(), |i: int| part_of(s[i]))
}

/// Add a block: a placeholder joins the lines before it; any other block stands
/// on its own.
pub open spec fn add_block(s: Seq<Part>, b: Block) -> Seq<Part> {
    match pending_of(b.id) {
        None => s.push(Part::Done(b)),
        Some(n) => if s.len() > 0 && s.last() is Text {
            s.drop_last().push(Part::Text(s.last()->Text_0.push(n as usize)))
        } else {
            s.push(Part::Text(seq![n as usize]))
        },
    }
}

/// The stretches of the first `n` blocks.
pub open spec fn stretches(blocks: Seq<Block>, n: int) -> Seq<Part>
    decreases n,
{
    if n <= 0 {
        Seq::empty()
    } else {
        add_block(stretches(blocks, n - 1), blocks[n - 1])
    }
}

proof fn lemma_parts_push(s: Seq<Stretch>, x: Stretch)
    ensures
        parts_of(s.push(x)) == parts_of(s).push(part_of(x)),
{
    assert(parts_of(s.push(x)) =~= parts_of(s).push(part_of(x)));
}

/// Gather the placeholders between finished blocks into stretches of text.
pub fn gather_text(blocks: Vec<Block>) -> (r: Vec<Stretch>)
    requires
        forall|i: int|
            0 <= i < blocks@.len() ==> (pending_of((#[trigger] blocks@[i]).id) matches Some(n)
                ==> n <= usize::MAX),
    ensures
        parts_of(r@) == stretches(blocks@, blocks@.len() as int),
{
    let ghost all = blocks@;
    let mut r: Vec<Stretch> = Vec::new();
    assert(parts_of(r@) =~= Seq::empty());
    for block in it: blocks
        invariant
            it.seq() == all,
            forall|i: int|
                0 <= i < all.len() ==> (pending_of((#[trigger] all[i]).id) matches Some(n) ==> n
                    <= usize::MAX),
            parts_of(r@) == stretches(all, it.index() as int),
    {
        let ghost s = parts_of(r@);
        assert(all[it.index() as int] == block);
        match pending_line(&block) {
            None => {
                proof {
                    lemma_parts_push(r@, Stretch::Done(block));
                }
                r.push(Stretch::Done(block));
            },
            Some(line) => {
                let ghost before = r@;
                let mut lines: Vec<usize> = Vec::new();
                match r.pop() {
                    Some(Stretch::Text(v)) => {
                        lines = v;
                    },
                    Some(other) => {
                        r.push(other);
                    },
                    None => {},
                }
                let ghost old_lines = lines@;
                lines.push(line);
                let next = Stretch::Text(lines);
                proof {
                    if before.len() > 0 && before.last() is Text {
                        assert(before =~= r@.push(before.last()));
                        lemma_parts_push(r@, before.last());
                        assert(s.drop_last() =~= parts_of(r@));
                        assert(s.last() == part_of(before.last()));
                    } else {
                        assert(r@ =~= before);
                        assert(old_lines =~= Seq::empty());
                        assert(lines@ =~= seq![line]);
                        if before.len() > 0 {
                            assert(s.last() == part_of(before.last()));
                        }
                    }
                    lemma_parts_push(r@, next);
                }
                r.push(next);
            },
        }
    }
    r
}

/// No two stretches of text stand side by side.
pub proof fn law_text_is_gathered(blocks: Seq<Block>, n: int, i: int)
    requires
        0 <= n <= blocks.len(),
        0 <= i < stretches(blocks, n).len() - 1,
    ensures
        !(stretches(blocks, n)[i] is Text && stretches(blocks, n)[i + 1] is Text),
    decreases n,
{
    if n > 0 {
        let s = stretches(blocks, n - 1);
        let r = stretches(blocks, n);
        if i < s.len() - 1 {
            law_text_is_gathered(blocks, n - 1, i);
        }
        assert(i < s.len() ==> (r[i] is Text <==> s[i] is Text));
        assert(i + 1 < s.len() ==> (r[i + 1] is Text <==> s[i + 1] is Text));
    }
}

// ── drawings ────────────────────────────────────────────────────────────────

/// The paths that stay drawings among the first `n`: those that have bounds,
/// rule no table and decorate no text.
pub open spec fn drawings(
    tables: Seq<Placed>,
    decor: Seq<usize>,
    paths: Seq<(usize, bool)>,
    n: int,
) -> Seq<usize>
    decreases n,
{
    if n <= 0 {
        Seq::empty()
    } else {
        let s = drawings(tables, decor, paths, n - 1);
        let (path, bounded) = paths[n - 1];
        if is_rule(tables, path) || decor.contains(path) || !bounded {
            s
        } else {
            s.push((n - 1) as usize)
        }
    }
}

/// The paths of a page that stay drawings, by their place in `paths`, which
/// holds the index of each and whether it has bounds.
pub fn surviving_paths(
    plan: &TablePlan,
    decor: &Vec<usize>,
    paths: &[(usize, bool)],
) -> (r: Vec<usize>)
    ensures
        r@ == drawings(plan.tables@, decor@, paths@, paths@.len() as int),
{
    let mut r: Vec<usize> = Vec::new();
    let mut n: usize = 0;
    while n < paths.len()
        invariant
            n <= paths@.len(),
            r@ == drawings(plan.tables@, decor@, paths@, n as int),
        decreases paths.len() - n,
    {
        let path: usize = paths[n].0;
        let bounded: bool = paths[n].1;
        if !(plan.uses_path(path) || holds(decor, path)) && bounded {
            r.push(n);
        }
        n = n + 1;
    }
    r
}

// ── reading order ───────────────────────────────────────────────────────────

/// Blocks put in an order given by their indices.
pub open spec fn arranged(blocks: Seq<Block>, order: Seq<usize>) -> Seq<Block> {
    Seq::new(order.len(), |i: int| blocks[order[i] as int])
}

/// Put blocks into reading order, stably.
pub fn interleave_by_reading_order(blocks: Vec<Block>, keys: &[Rank]) -> (r: Vec<Block>)
    requires
        keys@.len() == blocks@.len(),
    ensures
        r@ == arranged(blocks@, ordered(keys@, keys@.len() as int)),
{
    let ghost all = blocks@;
    let n: usize = blocks.len();
    let order: Vec<usize> = stable_order(keys);
    proof {
        super::order::law_ordering(keys@, n as int);
    }
    let mut slots: Vec<Option<Block>> = Vec::new();
    for block in it: blocks
        invariant
            it.seq() == all,
            slots@.len() == it.index(),
            forall|k: int| 0 <= k < it.index() ==> slots@[k] == Some(all[k]),
    {
        slots.push(Some(block));
    }
    proof {
        assert forall|a: int, b: int| 0 <= a < b < n implies order@[a] != order@[b] by {
            assert(super::order::precedes(keys@, order@[a], order@[b]));
        }
    }
    let mut r: Vec<Block> = Vec::new();
    let mut i: usize = 0;
    while i < n
        invariant
            i <= n,
            n == all.len(),
            n == keys@.len(),
            slots@.len() == n,
            order@ == ordered(keys@, n as int),
            order@.len() == n,
            forall|k: int| 0 <= k < n ==> (#[trigger] order@[k]) < n,
            forall|a: int, b: int| 0 <= a < b < n ==> order@[a] != order@[b],
            r@.len() == i,
            forall|k: int| 0 <= k < i ==> r@[k] == all[order@[k] as int],
            forall|k: int| i <= k < n ==> slots@[#[trigger] order@[k] as int] == Some(
                all[order@[k] as int],
            ),
        decreases n - i,
    {
        let at: usize = order[i];
        let mut taken: Option<Block> = None;
        core::mem::swap(&mut taken, &mut slots[at]);
        if let Some(b) = taken {
            r.push(b);
        }
        i = i + 1;
    }
    assert(r@ =~= arranged(all, order@));
    r
}

// ── laws of the walk ────────────────────────────────────────────────────────

proof fn lemma_starts_at(tables: Seq<Placed>, line: usize, k: int)
    requires
        0 <= k <= tables.len() <= usize::MAX,
    ensures
        match starts_at(tables, line, k) {
            Some(t) => k <= t < tables.len() && tables[t as int].start_line == line
                && forall|j: int| k <= j < t ==> (#[trigger] tables[j]).start_line != line,
            None => forall|j: int| k <= j < tables.len() ==> (#[trigger] tables[j]).start_line != line,
        },
    decreases tables.len() - k,
{
    if k < tables.len() && tables[k].start_line != line {
        lemma_starts_at(tables, line, k + 1);
    }
}

/// The line at which a step stands: that of the line, or the first one of the
/// table.
pub open spec fn line_of_step(tables: Seq<Placed>, s: Step) -> usize {
    match s {
        Step::Table(t) => tables[t as int].start_line,
        Step::Line(l) => l,
    }
}

/// The walk keeps to the reading order: it comes upon the lines in their order,
/// without those inside tables. A line is a table where one starts at it, the
/// first that does, and a line of text where none does.
pub proof fn law_walk_keeps_to_the_order(tables: Seq<Placed>, order: Seq<usize>, n: int)
    requires
        0 <= n <= order.len(),
        tables.len() <= usize::MAX,
    ensures
        ({
            let steps = steps_of(tables, order, n);
            let starts = |l: usize|
                exists|k: int| 0 <= k < tables.len() && (#[trigger] tables[k]).start_line == l;
            &&& steps.map_values(|s: Step| line_of_step(tables, s)) == order.take(n).filter(
                |l: usize| starts(l) || !consumed(tables, l),
            )
            &&& forall|i: int|
                0 <= i < steps.len() ==> match #[trigger] steps[i] {
                    Step::Table(t) => t < tables.len() && forall|j: int|
                        0 <= j < t ==> (#[trigger] tables[j]).start_line
                            != tables[t as int].start_line,
                    Step::Line(l) => !starts(l) && !consumed(tables, l),
                }
        }),
    decreases n,
{
    reveal(Seq::filter);
    let starts = |l: usize|
        exists|k: int| 0 <= k < tables.len() && (#[trigger] tables[k]).start_line == l;
    let kept = |l: usize| starts(l) || !consumed(tables, l);
    let at = |s: Step| line_of_step(tables, s);
    let steps = steps_of(tables, order, n);
    if n == 0 {
        assert(steps.map_values(at) =~= order.take(0).filter(kept));
    } else {
        law_walk_keeps_to_the_order(tables, order, n - 1);
        let old = steps_of(tables, order, n - 1);
        let line = order[n - 1];
        lemma_starts_at(tables, line, 0);
        assert(order.take(n).drop_last() =~= order.take(n - 1));
        assert(order.take(n).last() == line);
        assert(old.map_values(at) == order.take(n - 1).filter(kept));
        match starts_at(tables, line, 0) {
            Some(t) => {
                assert(tables[t as int].start_line == line);
                assert(starts(line));
                assert(steps.map_values(at) =~= old.map_values(at).push(line));
            },
            None => {
                assert(!starts(line));
                if !consumed(tables, line) {
                    assert(steps.map_values(at) =~= old.map_values(at).push(line));
                }
            },
        }
    }
}

/// What a block stands for: a line of text that is still to come, or itself.
pub open spec fn unit_of(b: Block) -> (bool, nat) {
    match pending_of(b.id) {
        Some(n) => (true, n as nat),
        None => (false, b.id.0 as nat),
    }
}

/// What the first `n` parts stand for, one after the other.
pub open spec fn units_in(s: Seq<Part>, n: int) -> Seq<(bool, nat)>
    decreases n,
{
    if n <= 0 {
        Seq::empty()
    } else {
        units_in(s, n - 1) + (match s[n - 1] {
            Part::Text(v) => v.map_values(|l: usize| (true, l as nat)),
            Part::Done(b) => seq![(false, b.id.0 as nat)],
        })
    }
}

proof fn lemma_units_prefix(a: Seq<Part>, b: Seq<Part>, n: int)
    requires
        0 <= n <= a.len(),
        n <= b.len(),
        forall|i: int| 0 <= i < n ==> a[i] == b[i],
    ensures
        units_in(a, n) == units_in(b, n),
    decreases n,
{
    if n > 0 {
        lemma_units_prefix(a, b, n - 1);
    }
}

/// Gathering keeps everything in its order: the lines of the stretches and the
/// finished blocks between them are those that were there.
pub proof fn law_gathering_keeps_the_order(blocks: Seq<Block>, n: int)
    requires
        0 <= n <= blocks.len(),
        forall|i: int|
            0 <= i < blocks.len() ==> (pending_of((#[trigger] blocks[i]).id) matches Some(k) ==> k
                <= usize::MAX),
    ensures
        ({
            let parts = stretches(blocks, n);
            units_in(parts, parts.len() as int) == blocks.take(n).map_values(
                |b: Block| unit_of(b),
            )
        }),
    decreases n,
{
    let f = |b: Block| unit_of(b);
    let parts = stretches(blocks, n);
    if n == 0 {
        assert(units_in(parts, 0) =~= blocks.take(0).map_values(f));
    } else {
        law_gathering_keeps_the_order(blocks, n - 1);
        let old = stretches(blocks, n - 1);
        let b = blocks[n - 1];
        assert(blocks.take(n).map_values(f) =~= blocks.take(n - 1).map_values(f).push(unit_of(b)));
        match pending_of(b.id) {
            None => {
                lemma_units_prefix(old, parts, old.len() as int);
                assert(units_in(parts, parts.len() as int) =~= units_in(old, old.len() as int).push(
                    unit_of(b),
                ));
            },
            Some(k) => {
                assert(pending_of(blocks[n - 1].id) == Some(k));
                let l = k as usize;
                if old.len() > 0 && old.last() is Text {
                    lemma_units_prefix(old, parts, old.len() - 1);
                    let v = old.last()->Text_0;
                    assert(v.push(l).map_values(|l: usize| (true, l as nat)) =~= v.map_values(
                        |l: usize| (true, l as nat),
                    ).push((true, l as nat)));
                    assert(units_in(parts, parts.len() as int) =~= units_in(
                        old,
                        old.len() as int,
                    ).push(unit_of(b)));
                } else {
                    lemma_units_prefix(old, parts, old.len() as int);
                    assert(seq![l].map_values(|l: usize| (true, l as nat)) =~= seq![
                        (true, l as nat),
                    ]);
                    assert(units_in(parts, parts.len() as int) =~= units_in(
                        old,
                        old.len() as int,
                    ).push(unit_of(b)));
                }
            },
        }
    }
}

/// A path stays a drawing exactly where it has bounds and neither rules a table
/// nor decorates text; those that stay keep their order.
pub proof fn law_what_stays_a_drawing(
    tables: Seq<Placed>,
    decor: Seq<usize>,
    paths: Seq<(usize, bool)>,
    n: int,
    k: usize,
)
    requires
        0 <= n <= paths.len() <= usize::MAX,
    ensures
        drawings(tables, decor, paths, n).contains(k) <==> {
            &&& k < n
            &&& paths[k as int].1
            &&& !decor.contains(paths[k as int].0)
            &&& forall|t: int|
                0 <= t < tables.len() ==> !(#[trigger] tables[t]).used_paths@.contains(
                    paths[k as int].0,
                )
        },
        forall|i: int| 0 <= i < drawings(tables, decor, paths, n).len() ==> #[trigger] drawings(
            tables,
            decor,
            paths,
            n,
        )[i] < n,
        forall|i: int, j: int|
            0 <= i < j < drawings(tables, decor, paths, n).len() ==> drawings(
                tables,
                decor,
                paths,
                n,
            )[i] < drawings(tables, decor, paths, n)[j],
    decreases n,
{
    if n > 0 {
        law_what_stays_a_drawing(tables, decor, paths, n - 1, k);
        let s = drawings(tables, decor, paths, n - 1);
        let t = drawings(tables, decor, paths, n);
        if s.contains(k) {
            let i = choose|i: int| 0 <= i < s.len() && s[i] == k;
            assert(t[i] == k);
        }
        if t.contains(k) {
            let i = choose|i: int| 0 <= i < t.len() && t[i] == k;
            if i < s.len() {
                assert(s[i] == k);
            }
        }
        if t.len() > s.len() {
            assert(t[s.len() as int] == (n - 1) as usize);
        }
    }
}

} // verus!
