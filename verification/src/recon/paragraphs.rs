//! Paragraphs, assembled from lines.
use super::ids::IdGen;
use super::items::lemma_pieces_push;
use super::lines::{
    closes_blank, ends_blank, last_word, opens_blank, runs_wf, starts_blank, Line, LineRun,
};
use super::model::{
    piece_of, pieces_of, text_of_pieces, Align, Block, BlockKind, CharStyle, Frame, Inline,
    InlineRun, Paragraph, ParagraphStyle, Piece, Rotation,
};
use super::text::{chars_of, copy_str, is_space, string_of, trim_chars, trim_start, trimmed};
use vstd::prelude::*;

verus! {

// ── splitting ───────────────────────────────────────────────────────────────

/// How a line stands between the margins of its block.
#[derive(Clone, Copy, Debug, PartialEq, Eq, Structural)]
pub enum LineAlign {
    Left,
    Center,
    Right,
}

/// What the step from a line to the next one looks like.
#[derive(Clone, Copy, Debug)]
pub struct Step {
    /// The gap is clearly larger than the leading.
    pub big_gap: bool,
    /// The next line is indented like a first line.
    pub indent: bool,
    pub from: LineAlign,
    pub to: LineAlign,
}

/// A step that starts a new paragraph: a gap, an indent, or a change of
/// alignment to or from a centred line.
pub open spec fn is_break(s: Step) -> bool {
    s.big_gap || s.indent || (s.from != s.to && (s.from is Center || s.to is Center))
}

pub fn breaks_after(s: Step) -> (r: bool)
    ensures
        r == is_break(s),
{
    s.big_gap || s.indent || (s.from != s.to && (s.to == LineAlign::Center || s.from
        == LineAlign::Center))
}

/// The first lines of the paragraphs of `n + 1` lines with `n` steps between.
pub open spec fn starts_of(steps: Seq<Step>, n: int) -> Seq<usize>
    decreases n,
{
    if n <= 0 {
        seq![0usize]
    } else if is_break(steps[n - 1]) {
        starts_of(steps, n - 1).push(n as usize)
    } else {
        starts_of(steps, n - 1)
    }
}

/// Split lines into paragraphs: the number of each paragraph's first line. One
/// line more than there are steps.
pub fn split_paragraphs(steps: &[Step]) -> (r: Vec<usize>)
    requires
        steps@.len() < usize::MAX,
    ensures
        r@ == starts_of(steps@, steps@.len() as int),
{
    let mut r: Vec<usize> = Vec::new();
    r.push(0);
    let mut n: usize = 0;
    assert(r@ =~= starts_of(steps@, 0));
    while n < steps.len()
        invariant
            n <= steps@.len() < usize::MAX,
            r@ == starts_of(steps@, n as int),
        decreases steps.len() - n,
    {
        let s: Step = steps[n];
        n = n + 1;
        if breaks_after(s) {
            r.push(n);
        }
    }
    r
}

/// Every line belongs to one paragraph: the first starts at the first line, and
/// a line opens a paragraph exactly where the step before it is a break.
pub proof fn law_paragraphs_start_at_breaks(steps: Seq<Step>, n: int)
    requires
        0 <= n <= steps.len() < usize::MAX,
    ensures
        starts_of(steps, n).len() > 0,
        starts_of(steps, n)[0] == 0,
        forall|k: int|
            1 <= k <= n ==> (#[trigger] starts_of(steps, n).contains(k as usize) <==> is_break(
                steps[k - 1],
            )),
        forall|i: int, j: int|
            0 <= i < j < starts_of(steps, n).len() ==> starts_of(steps, n)[i] < starts_of(
                steps,
                n,
            )[j],
        starts_of(steps, n).last() <= n,
    decreases n,
{
    let r = starts_of(steps, n);
    if n == 0 {
        assert(r =~= seq![0usize]);
    } else {
        law_paragraphs_start_at_breaks(steps, n - 1);
        let q = starts_of(steps, n - 1);
        assert forall|k: int| 1 <= k <= n implies (#[trigger] r.contains(k as usize)
            <==> is_break(steps[k - 1])) by {
            if k < n {
                assert(q.contains(k as usize) <==> is_break(steps[k - 1]));
                if q.contains(k as usize) {
                    let i = choose|i: int| 0 <= i < q.len() && q[i] == k as usize;
                    assert(r[i] == k as usize);
                }
                if r.contains(k as usize) {
                    let i = choose|i: int| 0 <= i < r.len() && r[i] == k as usize;
                    assert(i < q.len());
                    assert(q[i] == k as usize);
                }
            } else {
                if is_break(steps[n - 1]) {
                    assert(r[q.len() as int] == n as usize);
                } else if r.contains(n as usize) {
                    let i = choose|i: int| 0 <= i < q.len() && q[i] == n as usize;
                    assert(q[i] <= q.last());
                }
            }
        }
        assert forall|i: int, j: int| 0 <= i < j < r.len() implies r[i] < r[j] by {
            if j == q.len() {
                assert(q[i] <= q.last());
            }
        }
    }
}

// ── alignment ───────────────────────────────────────────────────────────────

/// How a line of a paragraph stands.
#[derive(Clone, Copy, Debug)]
pub struct LineShape {
    /// Set in from at least one margin.
    pub inset: bool,
    /// Reaches both margins.
    pub flush: bool,
    pub align: LineAlign,
}

/// How many of the first `n` lines are set in.
pub open spec fn insets(s: Seq<LineShape>, n: int) -> nat
    decreases n,
{
    if n <= 0 {
        0
    } else {
        insets(s, n - 1) + (if s[n - 1].inset {
            1nat
        } else {
            0nat
        })
    }
}

/// How many of the first `n` lines are set in and stand so.
pub open spec fn insets_at(s: Seq<LineShape>, align: LineAlign, n: int) -> nat
    decreases n,
{
    if n <= 0 {
        0
    } else {
        insets_at(s, align, n - 1) + (if s[n - 1].inset && s[n - 1].align == align {
            1nat
        } else {
            0nat
        })
    }
}

/// The alignment of a paragraph, read from the lines that are set in: centred
/// where at least half of them are, right where all of them are. Else justified
/// where there are three lines or more and all but the last reach both margins.
pub open spec fn align_of(s: Seq<LineShape>) -> Align {
    let n = s.len() as int;
    let inset = insets(s, n);
    let centered = insets_at(s, LineAlign::Center, n);
    if inset > 0 && centered * 2 >= inset && centered > 0 {
        Align::Center
    } else if inset > 0 && insets_at(s, LineAlign::Right, n) == inset {
        Align::Right
    } else if n >= 3 && forall|k: int| 0 <= k < n - 1 ==> (#[trigger] s[k]).flush {
        Align::Justify
    } else {
        Align::Left
    }
}

/// The alignment of a paragraph.
pub fn paragraph_align(lines: &[LineShape]) -> (r: Align)
    requires
        lines@.len() * 2 <= usize::MAX,
    ensures
        r == align_of(lines@),
{
    let len: usize = lines.len();
    let mut inset: usize = 0;
    let mut centered: usize = 0;
    let mut right: usize = 0;
    let mut n: usize = 0;
    while n < len
        invariant
            n <= len,
            len == lines@.len(),
            inset <= n,
            centered <= n,
            right <= n,
            inset == insets(lines@, n as int),
            centered == insets_at(lines@, LineAlign::Center, n as int),
            right == insets_at(lines@, LineAlign::Right, n as int),
        decreases len - n,
    {
        let l: LineShape = lines[n];
        if l.inset {
            inset = inset + 1;
            if l.align == LineAlign::Center {
                centered = centered + 1;
            }
            if l.align == LineAlign::Right {
                right = right + 1;
            }
        }
        n = n + 1;
    }
    if inset > 0 {
        if centered * 2 >= inset && centered > 0 {
            return Align::Center;
        }
        if right == inset {
            return Align::Right;
        }
    }
    if len >= 3 {
        let mut full: bool = true;
        let mut k: usize = 0;
        while k < len - 1
            invariant
                3 <= len,
                k <= len - 1,
                len == lines@.len(),
                full == (forall|j: int| 0 <= j < k ==> (#[trigger] lines@[j]).flush),
            decreases len - k,
        {
            if !lines[k].flush {
                assert(!lines@[k as int].flush);
                full = false;
            }
            k = k + 1;
        }
        if full {
            return Align::Justify;
        }
    }
    Align::Left
}

// ── the runs of a paragraph ─────────────────────────────────────────────────

/// A space is put between run `k` and run `j`: neither carries white space at
/// that end, and there is a gap between words.
pub open spec fn needs_space(runs: Seq<LineRun>, k: int, j: int) -> bool {
    !ends_blank(runs[k].text@) && !starts_blank(runs[j].text@) && !runs[j].follows@[k]
}

/// The piece of a run, inside its link where it has one.
pub open spec fn run_piece(r: LineRun) -> Piece {
    let p = Piece::Run {
        text: r.text@,
        style: CharStyle { vertical_align: r.vertical_align, ..r.style },
        source: r.source_index,
    };
    match r.link {
        Some(target) => Piece::Link { target, children: seq![p] },
        None => p,
    }
}

/// The space before run `j`, where one is put there.
pub open spec fn put_space(runs: Seq<LineRun>, j: int) -> Seq<Piece> {
    match last_word(runs, j) {
        Some(k) => if needs_space(runs, k, j) {
            seq![Piece::Run { text: seq![' '], style: runs[j].style, source: None }]
        } else {
            Seq::empty()
        },
        None => Seq::empty(),
    }
}

/// The pieces of the first `n` runs of a line; blank runs are dropped.
pub open spec fn run_pieces(runs: Seq<LineRun>, n: int) -> Seq<Piece>
    decreases n,
{
    if n <= 0 {
        Seq::empty()
    } else if trimmed(runs[n - 1].text@).len() == 0 {
        run_pieces(runs, n - 1)
    } else {
        run_pieces(runs, n - 1) + put_space(runs, n - 1) + seq![run_piece(runs[n - 1])]
    }
}

/// The pieces of the first `n` lines, with line breaks between.
pub open spec fn para_pieces(lines: Seq<Line>, n: int) -> Seq<Piece>
    decreases n,
{
    if n <= 0 {
        Seq::empty()
    } else {
        let runs = lines[n - 1].runs@;
        let break_before = if n > 1 {
            seq![Piece::Break]
        } else {
            Seq::empty()
        };
        para_pieces(lines, n - 1) + break_before + run_pieces(runs, runs.len() as int)
    }
}

fn run_to_inline(r: &LineRun) -> (i: Inline)
    ensures
        piece_of(i) == run_piece(*r),
{
    let mut style: CharStyle = r.style;
    style.vertical_align = r.vertical_align;
    let run: Inline = Inline::Run(
        InlineRun { text: copy_str(r.text.as_str()), style, source_index: r.source_index },
    );
    match r.link {
        Some(target) => {
            let mut children: Vec<Inline> = Vec::new();
            let ghost p = piece_of(run);
            children.push(run);
            assert(pieces_of(children@) =~= seq![p]);
            Inline::Link { target, children }
        },
        None => run,
    }
}

fn push_line(out: &mut Vec<Inline>, line: &Line)
    requires
        line.wf(),
    ensures
        pieces_of(final(out)@) == pieces_of(old(out)@) + run_pieces(
            line.runs@,
            line.runs@.len() as int,
        ),
{
    let runs: &Vec<LineRun> = &line.runs;
    let ghost out0 = pieces_of(out@);
    let mut prev: Option<usize> = None;
    let mut j: usize = 0;
    assert(pieces_of(out@) =~= out0 + run_pieces(runs@, 0));
    while j < runs.len()
        invariant
            j <= runs@.len(),
            runs_wf(runs@),
            pieces_of(out@) == out0 + run_pieces(runs@, j as int),
            match prev {
                Some(k) => k < j && last_word(runs@, j as int) == Some(k as int),
                None => last_word(runs@, j as int) is None,
            },
        decreases runs.len() - j,
    {
        let run: &LineRun = &runs[j];
        let v: Vec<char> = chars_of(run.text.as_str());
        let t: Vec<char> = trim_chars(&v);
        if t.len() > 0 {
            let ghost before = pieces_of(out@);
            if let Some(k) = prev {
                if !closes_blank(&runs[k]) && !opens_blank(run) && !run.follows[k] {
                    let mut blank = String::new();
                    blank.push(' ');
                    assert(blank@ =~= seq![' ']);
                    let space: Inline = Inline::Run(
                        InlineRun { text: blank, style: run.style, source_index: None },
                    );
                    proof {
                        lemma_pieces_push(out@, space);
                    }
                    out.push(space);
                }
            }
            assert(pieces_of(out@) =~= before + put_space(runs@, j as int));
            let piece: Inline = run_to_inline(run);
            proof {
                lemma_pieces_push(out@, piece);
            }
            out.push(piece);
            prev = Some(j);
        }
        j = j + 1;
        assert(pieces_of(out@) =~= out0 + run_pieces(runs@, j as int));
    }
}

/// The pieces of some lines: their runs, with spaces where there is a gap
/// between words and line breaks between lines.
pub fn paragraph_runs(lines: &[Line]) -> (out: Vec<Inline>)
    requires
        forall|i: int| 0 <= i < lines@.len() ==> (#[trigger] lines@[i]).wf(),
    ensures
        pieces_of(out@) == para_pieces(lines@, lines@.len() as int),
{
    let mut out: Vec<Inline> = Vec::new();
    let mut n: usize = 0;
    assert(pieces_of(out@) =~= para_pieces(lines@, 0));
    while n < lines.len()
        invariant
            n <= lines@.len(),
            forall|i: int| 0 <= i < lines@.len() ==> (#[trigger] lines@[i]).wf(),
            pieces_of(out@) == para_pieces(lines@, n as int),
        decreases lines.len() - n,
    {
        if n > 0 {
            proof {
                lemma_pieces_push(out@, Inline::LineBreak);
            }
            out.push(Inline::LineBreak);
        }
        push_line(&mut out, &lines[n]);
        n = n + 1;
        assert(pieces_of(out@) =~= para_pieces(lines@, n as int));
    }
    out
}

// ── coalescing ──────────────────────────────────────────────────────────────

/// Which fonts are close enough to be one: the same family, colours and all
/// but the same size. Given for every pair of font handles.
pub struct Fonts {
    pub close: Vec<Vec<bool>>,
}

impl Fonts {
    /// Two fonts are close; a font without an entry is close to none.
    pub open spec fn are_close(&self, a: usize, b: usize) -> bool {
        a < self.close@.len() && b < self.close@[a as int]@.len() && self.close@[a as int]@[b as int]
    }

    pub fn close(&self, a: usize, b: usize) -> (r: bool)
        ensures
            r == self.are_close(a, b),
    {
        a < self.close.len() && b < self.close[a].len() && self.close[a][b]
    }
}

/// Two styles that can share one run.
pub open spec fn alike(f: Fonts, a: CharStyle, b: CharStyle) -> bool {
    &&& f.are_close(a.font, b.font)
    &&& a.bold == b.bold
    &&& a.italic == b.italic
    &&& a.underline == b.underline
    &&& a.strike == b.strike
    &&& a.vertical_align == b.vertical_align
}

/// The first source there is.
pub open spec fn first_source(a: Option<usize>, b: Option<usize>) -> Option<usize> {
    if a is Some {
        a
    } else {
        b
    }
}

/// Add a piece: a run joins a run before it that is styled alike. The joined
/// run keeps the first style, and the first source there is.
pub open spec fn joined_piece(f: Fonts, s: Seq<Piece>, p: Piece) -> Seq<Piece> {
    match p {
        Piece::Run { text, style, source } => if s.len() > 0 {
            match s.last() {
                Piece::Run { text: text0, style: style0, source: source0 } => if alike(
                    f,
                    style0,
                    style,
                ) {
                    s.drop_last().push(
                        Piece::Run {
                            text: text0 + text,
                            style: style0,
                            source: first_source(source0, source),
                        },
                    )
                } else {
                    s.push(p)
                },
                _ => s.push(p),
            }
        } else {
            s.push(p)
        },
        _ => s.push(p),
    }
}

/// The first `n` pieces with neighbouring runs of one style joined.
pub open spec fn coalesced(f: Fonts, s: Seq<Piece>, n: int) -> Seq<Piece>
    decreases n,
{
    if n <= 0 {
        Seq::empty()
    } else {
        joined_piece(f, coalesced(f, s, n - 1), s[n - 1])
    }
}

/// Whether two styles can share one run.
pub fn styles_alike(fonts: &Fonts, a: &CharStyle, b: &CharStyle) -> (r: bool)
    ensures
        r == alike(*fonts, *a, *b),
{
    fonts.close(a.font, b.font) && a.bold == b.bold && a.italic == b.italic && a.underline
        == b.underline && a.strike == b.strike && a.vertical_align == b.vertical_align
}

fn append_text(a: String, b: &String) -> (r: String)
    ensures
        r@ == a@ + b@,
{
    let mut v: Vec<char> = chars_of(a.as_str());
    let mut w: Vec<char> = chars_of(b.as_str());
    v.append(&mut w);
    string_of(&v)
}

fn push_joined(fonts: &Fonts, out: &mut Vec<Inline>, piece: Inline)
    ensures
        pieces_of(final(out)@) == joined_piece(*fonts, pieces_of(old(out)@), piece_of(piece)),
{
    let ghost s = out@;
    let run: InlineRun = match piece {
        Inline::Run(r) => r,
        other => {
            proof {
                lemma_pieces_push(out@, other);
            }
            out.push(other);
            return;
        },
    };
    match out.pop() {
        None => {
            proof {
                lemma_pieces_push(out@, Inline::Run(run));
                assert(s =~= out@);
            }
            out.push(Inline::Run(run));
        },
        Some(last) => {
            let ghost rest = out@;
            proof {
                assert(s =~= rest.push(last));
                lemma_pieces_push(rest, last);
                assert(pieces_of(s).drop_last() =~= pieces_of(rest));
                assert(pieces_of(s).last() == piece_of(last));
            }
            match last {
                Inline::Run(prev) => {
                    if styles_alike(fonts, &prev.style, &run.style) {
                        let InlineRun { text, style, source_index: first } = prev;
                        let source_index: Option<usize> = match first {
                            Some(i) => Some(i),
                            None => run.source_index,
                        };
                        let joint: Inline = Inline::Run(
                            InlineRun { text: append_text(text, &run.text), style, source_index },
                        );
                        proof {
                            lemma_pieces_push(rest, joint);
                        }
                        out.push(joint);
                    } else {
                        out.push(Inline::Run(prev));
                        proof {
                            assert(out@ =~= s);
                            lemma_pieces_push(out@, Inline::Run(run));
                        }
                        out.push(Inline::Run(run));
                    }
                },
                other => {
                    out.push(other);
                    proof {
                        assert(out@ =~= s);
                        lemma_pieces_push(out@, Inline::Run(run));
                    }
                    out.push(Inline::Run(run));
                },
            }
        },
    }
}

/// Join neighbouring runs of one style. Line breaks, images and links stay
/// between the runs they part.
pub fn coalesce_runs(fonts: &Fonts, runs: Vec<Inline>) -> (out: Vec<Inline>)
    ensures
        pieces_of(out@) == coalesced(*fonts, pieces_of(runs@), runs@.len() as int),
{
    let ghost all = runs@;
    let ghost pieces = pieces_of(runs@);
    let mut out: Vec<Inline> = Vec::new();
    assert(pieces_of(out@) =~= Seq::empty());
    for piece in it: runs
        invariant
            it.seq() == all,
            pieces == pieces_of(all),
            pieces_of(out@) == coalesced(*fonts, pieces, it.index() as int),
    {
        assert(pieces[it.index() as int] == piece_of(piece));
        push_joined(fonts, &mut out, piece);
    }
    out
}

// ── the block ───────────────────────────────────────────────────────────────

/// The paragraph block of some lines: their runs, joined where the style is
/// the same; aligned as the lines stand. Spacing, frame and rotation are the
/// caller's.
pub fn build_paragraph_styled(
    lines: &[Line],
    shapes: &[LineShape],
    spacing: usize,
    frame: Frame,
    rotation: Rotation,
    fonts: &Fonts,
    ids: &mut IdGen,
) -> (b: Block)
    requires
        forall|i: int| 0 <= i < lines@.len() ==> (#[trigger] lines@[i]).wf(),
        shapes@.len() * 2 <= usize::MAX,
        old(ids).next() < u64::MAX,
    ensures
        final(ids).next() == old(ids).next() + 1,
        b.id.0 == old(ids).next(),
        b.frame == Some(frame),
        b.rotation == rotation,
        b.kind matches BlockKind::Paragraph(p) && p.style == (ParagraphStyle {
            align: align_of(shapes@),
            spacing,
        }) && ({
            let s = para_pieces(lines@, lines@.len() as int);
            pieces_of(p.runs@) == coalesced(*fonts, s, s.len() as int)
        }),
{
    let runs: Vec<Inline> = paragraph_runs(lines);
    let align: Align = paragraph_align(shapes);
    let runs: Vec<Inline> = coalesce_runs(fonts, runs);
    Block {
        id: ids.mint(),
        frame: Some(frame),
        rotation,
        kind: BlockKind::Paragraph(Paragraph { style: ParagraphStyle { align, spacing }, runs }),
    }
}

// ── laws ────────────────────────────────────────────────────────────────────

proof fn lemma_text_last(s: Seq<Piece>)
    requires
        s.len() > 0,
    ensures
        text_of_pieces(s, s.len() as int) == text_of_pieces(
            s.drop_last(),
            s.len() - 1,
        ) + text_of_pieces(seq![s.last()], 1),
{
    let n = s.len() as int;
    lemma_text_prefix(s, s.drop_last(), n - 1);
    let one = seq![s.last()];
    assert(one[0] == s[n - 1]);
    assert(text_of_pieces(one, 0) =~= Seq::empty());
    assert(text_of_pieces(s, n) =~= text_of_pieces(s.drop_last(), n - 1) + text_of_pieces(one, 1));
}

proof fn lemma_text_prefix(s: Seq<Piece>, t: Seq<Piece>, n: int)
    requires
        0 <= n <= s.len(),
        n <= t.len(),
        forall|i: int| 0 <= i < n ==> s[i] == t[i],
    ensures
        text_of_pieces(s, n) == text_of_pieces(t, n),
    decreases n,
{
    if n > 0 {
        lemma_text_prefix(s, t, n - 1);
    }
}

proof fn lemma_joined_text(f: Fonts, s: Seq<Piece>, p: Piece)
    ensures
        ({
            let r = joined_piece(f, s, p);
            text_of_pieces(r, r.len() as int) == text_of_pieces(s, s.len() as int)
                + text_of_pieces(seq![p], 1)
        }),
{
    let r = joined_piece(f, s, p);
    lemma_text_last(r);
    if r == s.push(p) {
        assert(r.drop_last() =~= s);
        assert(r.last() == p);
    } else {
        lemma_text_last(s);
        assert(r.drop_last() =~= s.drop_last());
        let q = s.last();
        let one = seq![q];
        let two = seq![p];
        let both = seq![r.last()];
        assert(one[0] == q && two[0] == p && both[0] == r.last());
        assert(text_of_pieces(one, 0) =~= Seq::empty());
        assert(text_of_pieces(two, 0) =~= Seq::empty());
        assert(text_of_pieces(both, 0) =~= Seq::empty());
        assert(text_of_pieces(both, 1) =~= text_of_pieces(one, 1) + text_of_pieces(two, 1));
        assert(text_of_pieces(r, r.len() as int) =~= text_of_pieces(s, s.len() as int)
            + text_of_pieces(two, 1));
    }
}

/// Joining runs keeps the text.
pub proof fn law_coalescing_keeps_text(f: Fonts, s: Seq<Piece>, n: int)
    requires
        0 <= n <= s.len(),
    ensures
        ({
            let r = coalesced(f, s, n);
            text_of_pieces(r, r.len() as int) == text_of_pieces(s, n)
        }),
    decreases n,
{
    if n > 0 {
        law_coalescing_keeps_text(f, s, n - 1);
        let q = coalesced(f, s, n - 1);
        lemma_joined_text(f, q, s[n - 1]);
        let one = seq![s[n - 1]];
        assert(one[0] == s[n - 1]);
        assert(text_of_pieces(one, 0) =~= Seq::empty());
        assert(text_of_pieces(s, n) =~= text_of_pieces(s, n - 1) + text_of_pieces(one, 1));
    }
}

/// After joining, no two neighbouring runs are styled alike.
pub proof fn law_coalescing_is_complete(f: Fonts, s: Seq<Piece>, n: int, i: int)
    requires
        0 <= n <= s.len(),
        0 <= i < coalesced(f, s, n).len() - 1,
    ensures
        ({
            let r = coalesced(f, s, n);
            !(r[i] matches Piece::Run { style: a, .. } && r[i + 1] matches Piece::Run {
                style: b,
                ..
            } && alike(f, a, b))
        }),
    decreases n,
{
    let r = coalesced(f, s, n);
    let q = coalesced(f, s, n - 1);
    if n > 0 {
        let p = s[n - 1];
        if r == q.push(p) {
            if i < q.len() - 1 {
                law_coalescing_is_complete(f, s, n - 1, i);
                assert(r[i] == q[i] && r[i + 1] == q[i + 1]);
            } else {
                assert(r[i] == q.last());
                assert(r[i + 1] == p);
            }
        } else {
            assert(r.len() == q.len());
            law_coalescing_is_complete(f, s, n - 1, i);
            assert(r[i] == q[i]);
            if i + 1 < q.len() - 1 {
                assert(r[i + 1] == q[i + 1]);
            } else {
                assert(r[i + 1] == r.last());
                assert(q[i + 1] == q.last());
            }
        }
    }
}

proof fn lemma_insets(s: Seq<LineShape>, n: int)
    requires
        0 <= n <= s.len(),
    ensures
        insets(s, n) == s.take(n).filter(|l: LineShape| l.inset).len(),
        insets_at(s, LineAlign::Center, n) == s.take(n).filter(
            |l: LineShape| l.inset && l.align == LineAlign::Center,
        ).len(),
        insets_at(s, LineAlign::Right, n) <= insets(s, n),
        insets(s, n) > 0 <==> exists|k: int| 0 <= k < n && (#[trigger] s[k]).inset,
        insets_at(s, LineAlign::Center, n) > 0 <==> exists|k: int|
            0 <= k < n && (#[trigger] s[k]).inset && s[k].align == LineAlign::Center,
        insets_at(s, LineAlign::Right, n) == insets(s, n) <==> forall|k: int|
            0 <= k < n && (#[trigger] s[k]).inset ==> s[k].align == LineAlign::Right,
        insets_at(s, LineAlign::Center, n) + insets_at(s, LineAlign::Right, n) <= insets(s, n),
        (forall|k: int| 0 <= k < n && (#[trigger] s[k]).inset ==> s[k].align == LineAlign::Center)
            ==> insets_at(s, LineAlign::Center, n) == insets(s, n),
    decreases n,
{
    reveal(Seq::filter);
    if n > 0 {
        lemma_insets(s, n - 1);
        assert(s.take(n).drop_last() =~= s.take(n - 1));
        assert(s.take(n).last() == s[n - 1]);
    }
}

/// Lines that are set in tell how a paragraph is set. Where every one of them
/// hugs the right margin, and there is one, the paragraph is right-aligned, and
/// it is so nowhere else. Where one of them is centred, and those that are
/// centred are at least as many as all others together, it is centred, and it
/// is so nowhere else.
pub proof fn law_inset_lines_tell_the_alignment(s: Seq<LineShape>)
    ensures
        align_of(s) == Align::Right <==> {
            &&& exists|k: int| 0 <= k < s.len() && (#[trigger] s[k]).inset
            &&& forall|k: int|
                0 <= k < s.len() && (#[trigger] s[k]).inset ==> s[k].align == LineAlign::Right
        },
        align_of(s) == Align::Center <==> {
            let mid = s.filter(|l: LineShape| l.inset && l.align == LineAlign::Center).len();
            &&& mid > 0
            &&& mid >= s.filter(|l: LineShape| l.inset).len() - mid
        },
        ({
            &&& exists|k: int| 0 <= k < s.len() && (#[trigger] s[k]).inset
            &&& forall|k: int|
                0 <= k < s.len() && (#[trigger] s[k]).inset ==> s[k].align == LineAlign::Center
        }) ==> align_of(s) == Align::Center,
{
    let n = s.len() as int;
    assert(s.take(n) =~= s);
    lemma_insets(s, n);
}

/// A paragraph that its inset lines tell nothing of is justified where it has
/// three lines or more and all but the last reach both margins, and set left
/// where not.
pub proof fn law_full_lines_are_justified(s: Seq<LineShape>)
    requires
        align_of(s) != Align::Right,
        align_of(s) != Align::Center,
    ensures
        align_of(s) == Align::Justify || align_of(s) == Align::Left,
        align_of(s) == Align::Justify ==> s.len() >= 3,
        s.len() >= 3 ==> (align_of(s) == Align::Justify <==> forall|k: int|
            0 <= k < s.len() - 1 ==> (#[trigger] s[k]).flush),
{
}

/// A large gap or an indent always starts a paragraph. Without them lines of
/// one alignment stay together, lines at the two margins too, and a centred
/// line parts from one that is not, whichever of them comes first.
pub proof fn law_what_parts_paragraphs(steps: Seq<Step>, k: int)
    requires
        1 <= k <= steps.len() < usize::MAX,
    ensures
        ({
            let starts = starts_of(steps, steps.len() as int);
            let s = steps[k - 1];
            &&& s.big_gap ==> starts.contains(k as usize)
            &&& s.indent ==> starts.contains(k as usize)
            &&& !s.big_gap && !s.indent && s.from == s.to ==> !starts.contains(k as usize)
            &&& !s.big_gap && !s.indent && s.from is Center && !(s.to is Center)
                ==> starts.contains(k as usize)
            &&& !s.big_gap && !s.indent && !(s.from is Center) && s.to is Center
                ==> starts.contains(k as usize)
            &&& !s.big_gap && !s.indent && !(s.from is Center) && !(s.to is Center)
                ==> !starts.contains(k as usize)
        }),
{
    law_paragraphs_start_at_breaks(steps, steps.len() as int);
    assert(starts_of(steps, steps.len() as int).contains(k as usize) <==> is_break(steps[k - 1]));
}

proof fn lemma_para_prefix(a: Seq<Line>, b: Seq<Line>, n: int)
    requires
        0 <= n <= a.len(),
        n <= b.len(),
        forall|i: int| 0 <= i < n ==> a[i] == b[i],
    ensures
        para_pieces(a, n) == para_pieces(b, n),
    decreases n,
{
    if n > 0 {
        lemma_para_prefix(a, b, n - 1);
    }
}

/// Lines follow each other with one line break between: the pieces of some
/// lines followed by others are the pieces of the first, a break, and the pieces
/// of the others.
pub proof fn law_lines_part_with_a_break(a: Seq<Line>, b: Seq<Line>, n: int)
    requires
        a.len() > 0,
        0 < n <= b.len(),
    ensures
        para_pieces(a + b, a.len() + n) == para_pieces(a, a.len() as int) + seq![Piece::Break]
            + para_pieces(b, n),
    decreases n,
{
    let all = a + b;
    assert(all[a.len() + n - 1] == b[n - 1]);
    let runs = b[n - 1].runs@;
    let own = run_pieces(runs, runs.len() as int);
    let part = seq![Piece::Break];
    assert(para_pieces(all, a.len() + n) == para_pieces(all, a.len() + n - 1) + part + own);
    if n == 1 {
        lemma_para_prefix(a, all, a.len() as int);
        assert(para_pieces(b, 0) =~= Seq::empty());
        assert(para_pieces(b, 1) =~= own);
        assert(para_pieces(all, a.len() + n) =~= para_pieces(a, a.len() as int) + part
            + para_pieces(b, n));
    } else {
        law_lines_part_with_a_break(a, b, n - 1);
        assert(para_pieces(b, n) == para_pieces(b, n - 1) + part + own);
        assert(para_pieces(all, a.len() + n) =~= para_pieces(a, a.len() as int) + part
            + para_pieces(b, n));
    }
}

/// A run of white space alone.
pub open spec fn is_gap(p: Piece) -> bool {
    p matches Piece::Run { text, .. } && trimmed(text).len() == 0
}

/// What a piece says of run `r`: its text and source, in its style and raised
/// or lowered as it is, inside a link exactly where it has one.
pub open spec fn says(p: Piece, r: LineRun) -> bool {
    let q = match p {
        Piece::Link { target, children } => children[0],
        _ => p,
    };
    &&& r.link is None ==> p is Run
    &&& r.link matches Some(t) ==> (p matches Piece::Link { target, children } && target == t
        && children.len() == 1)
    &&& q matches Piece::Run { text, style, source } && text == r.text@ && source == r.source_index
        && style.vertical_align == r.vertical_align && style.font == r.style.font && style.bold
        == r.style.bold && style.italic == r.style.italic && style.underline == r.style.underline
        && style.strike == r.style.strike
}

proof fn lemma_space_alone()
    ensures
        trimmed(seq![' ']).len() == 0,
{
    let s = seq![' '];
    assert(s.drop_first() =~= Seq::empty());
    assert(is_space(' '));
    assert(trim_start(s.drop_first()) =~= Seq::empty());
    assert(trim_start(s) =~= Seq::empty());
}

/// A line keeps its runs in their order: without the spaces put between, its
/// pieces are those of its runs that are not blank.
pub proof fn law_pieces_are_the_runs(runs: Seq<LineRun>, n: int)
    requires
        0 <= n <= runs.len(),
    ensures
        ({
            let kept = runs.take(n).filter(|r: LineRun| trimmed(r.text@).len() > 0);
            let own = run_pieces(runs, n).filter(|p: Piece| !is_gap(p));
            &&& own.len() == kept.len()
            &&& forall|i: int| 0 <= i < own.len() ==> says(#[trigger] own[i], kept[i])
        }),
    decreases n,
{
    reveal(Seq::filter);
    if n > 0 {
        law_pieces_are_the_runs(runs, n - 1);
        let r = runs[n - 1];
        let solid = |p: Piece| !is_gap(p);
        assert(runs.take(n).drop_last() =~= runs.take(n - 1));
        assert(runs.take(n).last() == r);
        if trimmed(r.text@).len() > 0 {
            let q = run_pieces(runs, n - 1);
            let space = put_space(runs, n - 1);
            let own = seq![run_piece(r)];
            Seq::filter_distributes_over_add(q + space, own, solid);
            Seq::filter_distributes_over_add(q, space, solid);
            lemma_space_alone();
            if space.len() > 0 {
                assert(space.drop_last() =~= Seq::empty());
                assert(space.last() == space[0]);
                assert(space[0] matches Piece::Run { text, .. } && text == seq![' ']);
                assert(is_gap(space.last()));
                assert(space.drop_last().filter(solid) =~= Seq::empty());
            }
            assert(space.filter(solid) =~= Seq::empty());
            assert(own.drop_last() =~= Seq::empty());
            assert(own.filter(solid) =~= own);
        }
    }
}

/// A put space stands between two runs and nowhere else, and never beside white
/// space: what comes before it does not end in white space and what comes after
/// it does not start with any.
pub proof fn law_spaces_stand_between_words(runs: Seq<LineRun>, n: int, i: int)
    requires
        0 <= n <= runs.len(),
        0 <= i < run_pieces(runs, n).len(),
        is_gap(run_pieces(runs, n)[i]),
    ensures
        ({
            let s = run_pieces(runs, n);
            &&& 0 < i < s.len() - 1
            &&& s[i] matches Piece::Run { text, .. } && text == seq![' ']
            &&& !is_gap(s[i - 1]) && !ends_blank(shown_text(s[i - 1]))
            &&& !is_gap(s[i + 1]) && !starts_blank(shown_text(s[i + 1]))
        }),
    decreases n,
{
    let s = run_pieces(runs, n);
    if n > 0 {
        let q = run_pieces(runs, n - 1);
        let r = runs[n - 1];
        if i < q.len() {
            law_spaces_stand_between_words(runs, n - 1, i);
            assert(s[i - 1] == q[i - 1] && s[i] == q[i] && s[i + 1] == q[i + 1]);
        } else {
            lemma_last_piece(runs, n - 1);
            let space = put_space(runs, n - 1);
            if i < q.len() + space.len() {
                let k = last_word(runs, n - 1)->0;
                assert(s[i] == space[0]);
                assert(s[i - 1] == q.last());
                assert(s[i + 1] == run_piece(r));
            } else {
                assert(s[i] == run_piece(r));
            }
        }
    }
}

/// The text that a run shows, inside a link or not.
pub open spec fn shown_text(p: Piece) -> Seq<char> {
    match p {
        Piece::Run { text, .. } => text,
        Piece::Link { children, .. } => match children[0] {
            Piece::Run { text, .. } => text,
            _ => Seq::empty(),
        },
        _ => Seq::empty(),
    }
}

proof fn lemma_last_piece(runs: Seq<LineRun>, n: int)
    requires
        0 <= n <= runs.len(),
    ensures
        last_word(runs, n) is None ==> run_pieces(runs, n).len() == 0,
        last_word(runs, n) matches Some(k) ==> 0 <= k < n && trimmed(runs[k].text@).len() > 0
            && run_pieces(runs, n).len() > 0 && run_pieces(runs, n).last() == run_piece(runs[k]),
    decreases n,
{
    if n > 0 {
        lemma_last_piece(runs, n - 1);
    }
}

/// Between two runs that carry no white space where they meet a space is put
/// exactly where there is a gap between words. Where one of them carries some
/// none is put.
pub proof fn law_gaps_become_spaces(runs: Seq<LineRun>, k: int, j: int)
    requires
        0 <= k < j < runs.len(),
        trimmed(runs[k].text@).len() > 0,
        trimmed(runs[j].text@).len() > 0,
        forall|i: int| k < i < j ==> trimmed((#[trigger] runs[i]).text@).len() == 0,
    ensures
        ({
            let before = run_pieces(runs, j);
            let after = run_pieces(runs, j + 1);
            let blank = ends_blank(runs[k].text@) || starts_blank(runs[j].text@);
            let gap = !runs[j].follows@[k];
            &&& after.take(before.len() as int) == before
            &&& after.len() == before.len() + (if !blank && gap {
                2int
            } else {
                1int
            })
            &&& says(after.last(), runs[j])
            &&& !blank && gap ==> (after[before.len() as int] matches Piece::Run { text, .. } && text
                == seq![' '])
        }),
{
    lemma_last_word_is(runs, k, j);
    let before = run_pieces(runs, j);
    let after = run_pieces(runs, j + 1);
    assert(after == before + put_space(runs, j) + seq![run_piece(runs[j])]);
    assert(after.take(before.len() as int) =~= before);
}

proof fn lemma_last_word_is(runs: Seq<LineRun>, k: int, j: int)
    requires
        0 <= k < j <= runs.len(),
        trimmed(runs[k].text@).len() > 0,
        forall|i: int| k < i < j ==> trimmed((#[trigger] runs[i]).text@).len() == 0,
    ensures
        last_word(runs, j) == Some(k),
    decreases j,
{
    if j > k + 1 {
        assert(trimmed(runs[j - 1].text@).len() == 0);
        lemma_last_word_is(runs, k, j - 1);
    }
}

/// Styles that share a run look the same in every way but for the font, and
/// there they are close. A run that joins another takes on its style, and has
/// the source of the first, or its own where the first has none.
pub proof fn law_joined_runs_look_the_same(
    f: Fonts,
    s: Seq<Piece>,
    a: CharStyle,
    b: CharStyle,
    t: Seq<char>,
    u: Seq<char>,
    x: Option<usize>,
    y: Option<usize>,
)
    ensures
        alike(f, a, b) <==> {
            &&& f.are_close(a.font, b.font)
            &&& (a.bold, a.italic, a.underline, a.strike) == (b.bold, b.italic, b.underline, b.strike)
            &&& a.vertical_align == b.vertical_align
        },
        ({
            let one = s.push(Piece::Run { text: t, style: a, source: x });
            let two = joined_piece(f, one, Piece::Run { text: u, style: b, source: y });
            &&& two.take(s.len() as int) == s
            &&& alike(f, a, b) ==> two.len() == one.len() && (two.last() matches Piece::Run {
                text,
                style,
                source,
            } && text == t + u && style == a && (x is Some ==> source == x) && (x is None ==> source
                == y))
            &&& !alike(f, a, b) ==> two == one.push(Piece::Run { text: u, style: b, source: y })
        }),
{
    let one = s.push(Piece::Run { text: t, style: a, source: x });
    let two = joined_piece(f, one, Piece::Run { text: u, style: b, source: y });
    assert(one.drop_last() =~= s);
    assert(two.take(s.len() as int) =~= s);
}

} // verus!
