//! Heading promotion: short prominent paragraphs become headings.
use super::model::{Block, BlockKind, Heading, Inline, InlineRun, Paragraph};
use super::select::{find_best, first_best, law_first_best};
use vstd::prelude::*;

verus! {

/// The deepest heading level.
pub const MAX_LEVEL: u8 = 6;

/// A rank counted from one, as a heading level.
pub open spec fn level_of_rank(rank: nat) -> u8 {
    if rank < 1 {
        1
    } else if rank > MAX_LEVEL {
        MAX_LEVEL
    } else {
        rank as u8
    }
}

/// Clamp a rank to the heading levels.
pub fn clamp_level(rank: usize) -> (l: u8)
    ensures
        l == level_of_rank(rank as nat),
        1 <= l <= MAX_LEVEL,
{
    if rank < 1 {
        1
    } else if rank > 6 {
        6
    } else {
        rank as u8
    }
}

/// All of the keys are there.
pub open spec fn all_keys(d: Seq<i64>) -> Seq<Option<i64>> {
    Seq::new(d.len(), |i: int| Some(d[i]))
}

/// The nearest size: the first of those at the smallest distance.
pub open spec fn nearest(d: Seq<i64>) -> int {
    first_best(all_keys(d), false, d.len() as int)->0
}

/// The heading level of a size at some distances from the sizes in use.
pub open spec fn level_at(d: Seq<i64>) -> u8 {
    if d.len() == 0 {
        1
    } else {
        level_of_rank((nearest(d) + 1) as nat)
    }
}

/// The heading level of a size, from its distance to each size in use, largest
/// size first; distances are given by keys that order as they do. The nearest
/// size decides, the larger of two equally near; with no size in use the level
/// is the first.
pub fn level_for(distances: &[i64]) -> (l: u8)
    requires
        distances@.len() < usize::MAX,
    ensures
        l == level_at(distances@),
        1 <= l <= MAX_LEVEL,
{
    let len: usize = distances.len();
    let mut keys: Vec<Option<i64>> = Vec::new();
    let mut i: usize = 0;
    while i < len
        invariant
            i <= len,
            len == distances@.len(),
            keys@ =~= all_keys(distances@).take(i as int),
        decreases len - i,
    {
        keys.push(Some(distances[i]));
        i = i + 1;
    }
    assert(keys@ =~= all_keys(distances@));
    proof {
        law_first_best(keys@, false, len as int);
    }
    match find_best(keys.as_slice(), false) {
        None => {
            assert(len > 0 ==> keys@[0] is Some);
            1
        },
        Some(best) => clamp_level(best + 1),
    }
}

/// The nearest size is the first of those at the smallest distance.
pub proof fn law_nearest_is_first_minimum(d: Seq<i64>)
    requires
        d.len() > 0,
    ensures
        0 <= nearest(d) < d.len(),
        forall|k: int| 0 <= k < d.len() ==> d[nearest(d)] <= #[trigger] d[k],
        forall|k: int| 0 <= k < nearest(d) ==> d[nearest(d)] < #[trigger] d[k],
{
    let keys = all_keys(d);
    law_first_best(keys, false, d.len() as int);
    assert(keys[0] is Some);
    let b = nearest(d);
    assert forall|k: int| 0 <= k < d.len() implies d[b] <= #[trigger] d[k] by {
        assert(keys[k] == Some(d[k]));
    }
    assert forall|k: int| 0 <= k < b implies d[b] < #[trigger] d[k] by {
        assert(keys[k] == Some(d[k]));
    }
}

/// How far two sizes are apart.
pub open spec fn distance(a: int, b: int) -> int {
    if a < b {
        b - a
    } else {
        a - b
    }
}

/// Keys order as the distances of a size to the sizes in use do.
pub open spec fn are_distances(d: Seq<i64>, sizes: Seq<int>, size: int) -> bool {
    &&& d.len() == sizes.len()
    &&& forall|i: int, j: int|
        #![trigger d[i], d[j]]
        0 <= i < sizes.len() && 0 <= j < sizes.len() ==> (d[i] < d[j] <==> distance(sizes[i], size)
            < distance(sizes[j], size))
}

/// A larger size never has a higher level number: with the sizes in use from
/// the largest down, the level of a size is at most that of a smaller one.
pub proof fn law_larger_is_higher(sizes: Seq<int>, a: int, b: int, da: Seq<i64>, db: Seq<i64>)
    requires
        a >= b,
        forall|i: int, j: int|
            #![trigger sizes[i], sizes[j]]
            0 <= i < j < sizes.len() ==> sizes[i] > sizes[j],
        are_distances(da, sizes, a),
        are_distances(db, sizes, b),
    ensures
        1 <= level_at(da) <= level_at(db) <= MAX_LEVEL,
{
    if sizes.len() > 0 {
        law_nearest_is_first_minimum(da);
        law_nearest_is_first_minimum(db);
        let p = nearest(da);
        let q = nearest(db);
        if p > q {
            assert(sizes[q] > sizes[p]);
            assert(da[p] < da[q]);
            assert(!(db[p] < db[q]));
            assert(distance(sizes[p], a) < distance(sizes[q], a));
            assert(!(distance(sizes[p], b) < distance(sizes[q], b)));
            assert(false);
        }
    }
}

// ── paragraphs ──────────────────────────────────────────────────────────────

/// How many of the first `n` pieces are line breaks.
pub open spec fn breaks(s: Seq<Inline>, n: int) -> nat
    decreases n,
{
    if n <= 0 {
        0
    } else {
        breaks(s, n - 1) + (if s[n - 1] is LineBreak {
            1nat
        } else {
            0nat
        })
    }
}

/// A run, an image or a link.
pub open spec fn is_content(i: Inline) -> bool {
    i is Run || i is Image || i is Link
}

/// The number of lines of a paragraph; none when it has no content.
pub open spec fn lines_of(p: Paragraph) -> nat {
    if exists|k: int| 0 <= k < p.runs@.len() && is_content(#[trigger] p.runs@[k]) {
        breaks(p.runs@, p.runs@.len() as int) + 1
    } else {
        0
    }
}

/// The number of lines of a paragraph: one more than its line breaks, or none
/// when it has no content.
pub fn line_count(para: &Paragraph) -> (n: usize)
    requires
        para.runs@.len() < usize::MAX,
    ensures
        n == lines_of(*para),
{
    let s: &Vec<Inline> = &para.runs;
    let mut count: usize = 0;
    let mut content: bool = false;
    let mut i: usize = 0;
    while i < s.len()
        invariant
            i <= s@.len() < usize::MAX,
            count == breaks(s@, i as int),
            count <= i,
            content == (exists|k: int| 0 <= k < i && is_content(#[trigger] s@[k])),
        decreases s.len() - i,
    {
        match &s[i] {
            Inline::LineBreak => {
                count = count + 1;
            },
            Inline::Run(_) => {
                assert(is_content(s@[i as int]));
                content = true;
            },
            Inline::Image(_) => {
                assert(is_content(s@[i as int]));
                content = true;
            },
            Inline::Link { .. } => {
                assert(is_content(s@[i as int]));
                content = true;
            },
            Inline::CommentRef(_) => {},
        }
        i = i + 1;
    }
    if content {
        count + 1
    } else {
        0
    }
}

/// The text runs of a piece; those of a link are the ones inside it.
pub open spec fn text_runs_in(i: Inline) -> Seq<InlineRun>
    decreases i, 0int,
{
    match i {
        Inline::Run(r) => seq![r],
        Inline::Link { children, .. } => text_runs(children@, children@.len() as int),
        _ => Seq::empty(),
    }
}

/// The text runs of the first `n` pieces.
pub open spec fn text_runs(s: Seq<Inline>, n: int) -> Seq<InlineRun>
    decreases s, n,
{
    if n <= 0 || n > s.len() {
        Seq::empty()
    } else {
        text_runs(s, n - 1) + text_runs_in(s[n - 1])
    }
}

/// Every run is bold.
pub open spec fn are_bold(runs: Seq<InlineRun>) -> bool {
    forall|k: int| 0 <= k < runs.len() ==> (#[trigger] runs[k]).style.bold
}

/// There is a text run, and every text run is bold.
pub open spec fn all_bold(p: Paragraph) -> bool {
    let runs = text_runs(p.runs@, p.runs@.len() as int);
    runs.len() > 0 && are_bold(runs)
}

proof fn lemma_bold_join(a: Seq<InlineRun>, b: Seq<InlineRun>)
    ensures
        are_bold(a + b) == (are_bold(a) && are_bold(b)),
{
    let s = a + b;
    if are_bold(s) {
        assert forall|k: int| 0 <= k < a.len() implies (#[trigger] a[k]).style.bold by {
            assert(s[k] == a[k]);
        }
        assert forall|k: int| 0 <= k < b.len() implies (#[trigger] b[k]).style.bold by {
            assert(s[a.len() + k] == b[k]);
        }
    }
}

/// Whether there are text runs, and whether all are bold.
fn bold_runs(s: &Vec<Inline>) -> (r: (bool, bool))
    ensures
        r.0 == (text_runs(s@, s@.len() as int).len() > 0),
        r.1 == are_bold(text_runs(s@, s@.len() as int)),
    decreases s@,
{
    let mut any: bool = false;
    let mut bold: bool = true;
    let mut i: usize = 0;
    while i < s.len()
        invariant
            i <= s@.len(),
            any == (text_runs(s@, i as int).len() > 0),
            bold == are_bold(text_runs(s@, i as int)),
        decreases s.len() - i,
    {
        let ghost before = text_runs(s@, i as int);
        let ghost own = text_runs_in(s@[i as int]);
        let (found, alike): (bool, bool) = match &s[i] {
            Inline::Run(run) => {
                assert(own[0] == *run);
                (true, run.style.bold)
            },
            Inline::Link { children, .. } => {
                assert(decreases_to!(s@ => s@[i as int]));
                bold_runs(children)
            },
            _ => (false, true),
        };
        proof {
            lemma_bold_join(before, own);
            assert(text_runs(s@, i + 1) == before + own);
        }
        any = any || found;
        bold = bold && alike;
        i = i + 1;
    }
    (any, bold)
}

/// Whether a paragraph has text runs and all are bold, those in links too.
pub fn paragraph_bold(para: &Paragraph) -> (r: bool)
    ensures
        r == all_bold(*para),
{
    let (any, bold): (bool, bool) = bold_runs(&para.runs);
    any && bold
}

/// What the size of a paragraph's largest run decides.
#[derive(Clone, Copy, Debug)]
pub struct Prominence {
    /// Clearly larger than body text.
    pub large: bool,
    /// At least about as large as body text.
    pub body_sized: bool,
    /// The heading level of the size.
    pub level: u8,
}

/// A paragraph of one or two lines that is large, or bold and not small.
pub open spec fn is_heading(p: Paragraph, s: Prominence) -> bool {
    1 <= lines_of(p) <= 2 && (s.large || (all_bold(p) && s.body_sized))
}

/// The kind of a block after promotion.
pub open spec fn promoted(k: BlockKind, s: Prominence) -> BlockKind {
    match k {
        BlockKind::Paragraph(p) => if is_heading(p, s) {
            BlockKind::Heading(Heading { level: s.level, para: p })
        } else {
            k
        },
        _ => k,
    }
}

/// Make a paragraph that qualifies a heading; leave any other block as it is.
pub fn promote(block: Block, size: Prominence) -> (r: Block)
    requires
        block.kind matches BlockKind::Paragraph(p) ==> p.runs@.len() < usize::MAX,
    ensures
        r == (Block { kind: promoted(block.kind, size), ..block }),
{
    let Block { id, frame, rotation, kind } = block;
    match kind {
        BlockKind::Paragraph(para) => {
            let lines: usize = line_count(&para);
            if lines == 0 || lines > 2 {
                return Block { id, frame, rotation, kind: BlockKind::Paragraph(para) };
            }
            let bold: bool = paragraph_bold(&para);
            if size.large || (bold && size.body_sized) {
                Block {
                    id,
                    frame,
                    rotation,
                    kind: BlockKind::Heading(Heading { level: size.level, para }),
                }
            } else {
                Block { id, frame, rotation, kind: BlockKind::Paragraph(para) }
            }
        },
        other => Block { id, frame, rotation, kind: other },
    }
}

/// Promotion changes nothing but the kind, and of a heading keeps the
/// paragraph.
pub proof fn law_promotion_keeps_text(p: Paragraph, s: Prominence)
    ensures
        match promoted(BlockKind::Paragraph(p), s) {
            BlockKind::Heading(h) => h.para == p && h.level == s.level,
            BlockKind::Paragraph(q) => q == p,
            _ => false,
        },
{
}

/// Short paragraphs that stand out become headings, and no others: with one line
/// or two, one that is large, or bold throughout and not small. One that is
/// long or empty stays, and so does one that neither size nor weight sets off.
pub proof fn law_what_stands_out_is_a_heading(p: Paragraph, s: Prominence)
    ensures
        ({
            let k = promoted(BlockKind::Paragraph(p), s);
            let short = lines_of(p) == 1 || lines_of(p) == 2;
            &&& short && s.large ==> k is Heading
            &&& short && all_bold(p) && s.body_sized ==> k is Heading
            &&& !short ==> k == BlockKind::Paragraph(p)
            &&& !s.large && !all_bold(p) ==> k == BlockKind::Paragraph(p)
            &&& !s.large && !s.body_sized ==> k == BlockKind::Paragraph(p)
        }),
{
}

proof fn lemma_breaks(s: Seq<Inline>, n: int)
    requires
        0 <= n <= s.len(),
    ensures
        breaks(s, n) == s.take(n).filter(|i: Inline| i is LineBreak).len(),
    decreases n,
{
    reveal(Seq::filter);
    if n > 0 {
        lemma_breaks(s, n - 1);
        assert(s.take(n).drop_last() =~= s.take(n - 1));
        assert(s.take(n).last() == s[n - 1]);
    }
}

/// A paragraph with content has one line more than it has line breaks; one of
/// line breaks alone has no line.
pub proof fn law_breaks_part_lines(p: Paragraph)
    ensures
        ({
            let breaks = p.runs@.filter(|i: Inline| i is LineBreak).len();
            &&& lines_of(p) == 0 || lines_of(p) == breaks + 1
            &&& lines_of(p) == 0 <==> forall|k: int|
                0 <= k < p.runs@.len() ==> (#[trigger] p.runs@[k]) is LineBreak || p.runs@[k] is CommentRef
        }),
{
    let s = p.runs@;
    lemma_breaks(s, s.len() as int);
    assert(s.take(s.len() as int) =~= s);
    assert forall|k: int| 0 <= k < s.len() implies is_content(#[trigger] s[k]) == !(s[k] is LineBreak
        || s[k] is CommentRef) by {}
}

} // verus!
