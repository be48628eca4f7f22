//! List blocks, built from the lines of a list.
use super::ids::IdGen;
use super::lines::{is_spaced, joined, last_word, line_text, runs_wf, spaced, Line, LineRun};
use super::markers::{
    info_in, info_of, list_marker_of, marker_in, marker_of, read_at, read_marker, strip_chars,
    stripped, Marker, MarkerInfo,
};
use super::model::{
    piece_of, pieces_of, plain, plain_style, text_of_pieces, Align, Block, BlockKind, CharStyle,
    Frame, Inline, InlineRun, List, ListItem, Paragraph, ParagraphStyle, Piece, Rotation,
};
use super::text::{
    chars_of, is_space, lemma_trim_start, slice_chars, start_of, string_of, trim_chars, trim_start,
    trimmed,
};
use vstd::prelude::*;

verus! {

// ── the runs of an item ─────────────────────────────────────────────────────

/// What has been taken of a line: the pieces, the text still to come, and the
/// last run taken.
pub ghost struct Taken {
    pub out: Seq<Piece>,
    pub rest: Seq<char>,
    pub prev: Option<int>,
}

/// `s` starts with `t`.
pub open spec fn starts_with(s: Seq<char>, t: Seq<char>) -> bool {
    s.len() >= t.len() && s.take(t.len() as int) == t
}

/// The space before run `j`, where one belongs there.
pub open spec fn space_piece(runs: Seq<LineRun>, prev: Option<int>, j: int) -> Seq<Piece> {
    match prev {
        Some(k) => if spaced(runs, k, j) {
            seq![Piece::Run { text: seq![' '], style: runs[j].style, source: None }]
        } else {
            Seq::empty()
        },
        None => Seq::empty(),
    }
}

/// What the first `n` runs of a line contribute to `text`: each run that the
/// text goes on with, trimmed. A run that the text does not go on with, such as
/// a marker that was stripped off, is skipped.
pub open spec fn taken(runs: Seq<LineRun>, text: Seq<char>, n: int) -> Taken
    decreases n,
{
    if n <= 0 {
        Taken { out: Seq::empty(), rest: text, prev: None }
    } else {
        let s = taken(runs, text, n - 1);
        let j = n - 1;
        let t = trimmed(runs[j].text@);
        let rest = trim_start(s.rest);
        if s.rest.len() == 0 || t.len() == 0 || !starts_with(rest, t) {
            s
        } else {
            Taken {
                out: s.out + space_piece(runs, s.prev, j) + seq![
                    Piece::Run { text: t, style: runs[j].style, source: runs[j].source_index },
                ],
                rest: rest.skip(t.len() as int),
                prev: Some(j),
            }
        }
    }
}

/// The pieces of a line for `text`.
pub open spec fn line_pieces(line: Line, text: Seq<char>) -> Seq<Piece> {
    taken(line.runs@, text, line.runs@.len() as int).out
}

/// Where `rest`, from `from` on, goes on with `t`, white space in front aside:
/// the place after it.
fn item_run_text(rest: &Vec<char>, from: usize, t: &Vec<char>) -> (r: Option<usize>)
    requires
        from <= rest@.len(),
        t@.len() > 0,
    ensures
        ({
            let s = trim_start(rest@.skip(from as int));
            match r {
                Some(to) => starts_with(s, t@) && from <= to <= rest@.len() && rest@.skip(
                    to as int,
                ) == s.skip(t@.len() as int),
                None => !starts_with(s, t@),
            }
        }),
{
    let len: usize = rest.len();
    let tail: Vec<char> = slice_chars(rest, from, len);
    assert(tail@ =~= rest@.skip(from as int));
    let at: usize = start_of(&tail);
    let ghost s = trim_start(rest@.skip(from as int));
    let n: usize = t.len();
    if tail.len() - at < n {
        return None;
    }
    let mut k: usize = 0;
    while k < n
        invariant
            k <= n,
            n == t@.len(),
            at + n <= tail@.len(),
            at + n <= usize::MAX,
            s == tail@.skip(at as int),
            s == trim_start(rest@.skip(from as int)),
            forall|i: int| 0 <= i < k ==> s[i] == t@[i],
        decreases n - k,
    {
        assert(s[k as int] == tail@[at + k]);
        if tail[at + k] != t[k] {
            assert(s.take(n as int)[k as int] != t@[k as int]);
            return None;
        }
        k = k + 1;
    }
    assert(s.take(n as int) =~= t@);
    assert(rest@.skip(from + at + n) =~= s.skip(n as int));
    Some(from + at + n)
}

fn run_inline(text: String, style: CharStyle, source_index: Option<usize>) -> (r: Inline)
    ensures
        piece_of(r) == (Piece::Run { text: text@, style, source: source_index }),
{
    Inline::Run(InlineRun { text, style, source_index })
}

pub proof fn lemma_pieces_push(s: Seq<Inline>, i: Inline)
    ensures
        pieces_of(s.push(i)) == pieces_of(s).push(piece_of(i)),
{
    assert(pieces_of(s.push(i)) =~= pieces_of(s).push(piece_of(i)));
}

pub proof fn lemma_pieces_add(s: Seq<Inline>, t: Seq<Inline>)
    ensures
        pieces_of(s + t) == pieces_of(s) + pieces_of(t),
{
    assert(pieces_of(s + t) =~= pieces_of(s) + pieces_of(t));
}

/// The runs of a line that `text` is made of.
pub fn line_runs(line: &Line, text: &Vec<char>) -> (out: Vec<Inline>)
    requires
        line.wf(),
    ensures
        pieces_of(out@) == line_pieces(*line, text@),
{
    let runs: &Vec<LineRun> = &line.runs;
    let mut out: Vec<Inline> = Vec::new();
    let mut from: usize = 0;
    let mut prev: Option<usize> = None;
    let mut j: usize = 0;
    proof {
        assert(pieces_of(out@) =~= Seq::empty());
        assert(text@.skip(0) =~= text@);
    }
    while j < runs.len()
        invariant
            j <= runs@.len(),
            runs_wf(runs@),
            from <= text@.len(),
            ({
                let s = taken(runs@, text@, j as int);
                &&& pieces_of(out@) == s.out
                &&& text@.skip(from as int) == s.rest
                &&& match prev {
                    Some(k) => k < j && s.prev == Some(k as int),
                    None => s.prev is None,
                }
            }),
        decreases runs.len() - j,
    {
        let ghost s = taken(runs@, text@, j as int);
        let run: &LineRun = &runs[j];
        let v: Vec<char> = chars_of(run.text.as_str());
        let t: Vec<char> = trim_chars(&v);
        if from < text.len() && t.len() > 0 {
            if let Some(to) = item_run_text(text, from, &t) {
                let ghost before = out@;
                if let Some(k) = prev {
                    if is_spaced(runs, k, j) {
                        let mut blank = String::new();
                        blank.push(' ');
                        assert(blank@ =~= seq![' ']);
                        let space: Inline = run_inline(blank, run.style, None);
                        proof {
                            lemma_pieces_push(out@, space);
                        }
                        out.push(space);
                    }
                }
                assert(pieces_of(out@) =~= pieces_of(before) + space_piece(
                    runs@,
                    s.prev,
                    j as int,
                ));
                let piece: Inline = run_inline(string_of(&t), run.style, run.source_index);
                proof {
                    lemma_pieces_push(out@, piece);
                }
                out.push(piece);
                assert(pieces_of(out@) =~= taken(runs@, text@, j + 1).out);
                from = to;
                prev = Some(j);
            }
        }
        j = j + 1;
    }
    out
}

// ── items ───────────────────────────────────────────────────────────────────

/// An item of a list, as a value.
pub ghost struct Item {
    pub level: u8,
    pub pieces: Seq<Piece>,
    pub rotation: Rotation,
}

/// The pieces of a marked line: its text without the marker.
pub open spec fn marked_pieces(line: Line) -> Seq<Piece> {
    let rest = stripped(line_text(line));
    let pieces = line_pieces(line, rest);
    if pieces.len() == 0 && rest.len() > 0 {
        let style = if line.runs@.len() > 0 {
            line.runs@[0].style
        } else {
            plain()
        };
        seq![Piece::Run { text: rest, style, source: None }]
    } else {
        pieces
    }
}

/// The items of the first `n` lines. A marked line opens an item; a line
/// without a marker goes on with the item before it, after a line break.
pub open spec fn items_of(lines: Seq<Line>, levels: Seq<u8>, n: int) -> Seq<Item>
    decreases n,
{
    if n <= 0 {
        Seq::empty()
    } else {
        let s = items_of(lines, levels, n - 1);
        let line = lines[n - 1];
        let text = line_text(line);
        if marker_of(text) is Some {
            s.push(
                Item {
                    level: levels[n - 1],
                    pieces: marked_pieces(line),
                    rotation: line.rotation,
                },
            )
        } else if s.len() > 0 {
            let last = s.last();
            s.drop_last().push(
                Item { pieces: last.pieces + seq![Piece::Break] + line_pieces(line, text), ..last },
            )
        } else {
            s.push(Item { level: 0, pieces: line_pieces(line, text), rotation: line.rotation })
        }
    }
}

/// The markers of lines.
pub open spec fn infos_of(lines: Seq<Line>) -> Seq<Option<MarkerInfo>> {
    Seq::new(lines.len(), |i: int| info_of(line_text(lines[i])))
}

/// The first marked line from `k` on.
pub open spec fn first_marked(infos: Seq<Option<MarkerInfo>>, k: int) -> Option<int>
    decreases infos.len() - k,
{
    if k < 0 || k >= infos.len() {
        None
    } else if infos[k] is Some {
        Some(k)
    } else {
        first_marked(infos, k + 1)
    }
}

/// The marker of a list: the first of its lines' markers, as it is read among
/// them.
pub open spec fn list_marker(lines: Seq<Line>, levels: Seq<u8>) -> Option<Marker> {
    let infos = infos_of(lines);
    match first_marked(infos, 0) {
        None => None,
        Some(k) => Some(read_at(infos, levels, 0, infos.len() as int, k)->0.marker),
    }
}

/// A list item is a paragraph that holds the pieces of `v`, under an identity.
pub open spec fn is_item(item: ListItem, v: Item, id: nat) -> bool {
    &&& item.level == v.level
    &&& item.blocks@.len() == 1
    &&& item.blocks@[0].id.0 == id
    &&& item.blocks@[0].frame is None
    &&& item.blocks@[0].rotation == v.rotation
    &&& item.blocks@[0].kind matches BlockKind::Paragraph(p) && p.style == (ParagraphStyle {
        align: Align::Left,
        spacing: 0,
    }) && pieces_of(p.runs@) == v.pieces
}

/// The items of a list are those of `v`, under identities from `id` on.
pub open spec fn are_items(items: Seq<ListItem>, v: Seq<Item>, id: nat) -> bool {
    &&& items.len() == v.len()
    &&& forall|i: int|
        0 <= i < v.len() ==> is_item(#[trigger] items[i], v[i], (id + i) as nat)
}

/// A paragraph block without a frame, in the plain style.
pub fn paragraph_block(runs: Vec<Inline>, rotation: Rotation, ids: &mut IdGen) -> (b: Block)
    requires
        old(ids).next() < u64::MAX,
    ensures
        final(ids).next() == old(ids).next() + 1,
        b.id.0 == old(ids).next(),
        b.frame is None,
        b.rotation == rotation,
        b.kind == BlockKind::Paragraph(
            Paragraph { style: ParagraphStyle { align: Align::Left, spacing: 0 }, runs },
        ),
{
    Block {
        id: ids.mint(),
        frame: None,
        rotation,
        kind: BlockKind::Paragraph(
            Paragraph { style: ParagraphStyle { align: Align::Left, spacing: 0 }, runs },
        ),
    }
}

fn item_of(runs: Vec<Inline>, level: u8, rotation: Rotation, ids: &mut IdGen) -> (r: ListItem)
    requires
        old(ids).next() < u64::MAX,
    ensures
        final(ids).next() == old(ids).next() + 1,
        is_item(r, (Item { level, pieces: pieces_of(runs@), rotation }), old(ids).next()),
{
    let block: Block = paragraph_block(runs, rotation, ids);
    let mut blocks: Vec<Block> = Vec::new();
    blocks.push(block);
    ListItem { blocks, level }
}

/// The runs of a marked line, the marker taken off.
fn marked_runs(line: &Line, text: &Vec<char>) -> (runs: Vec<Inline>)
    requires
        line.wf(),
        text@ == line_text(*line),
    ensures
        pieces_of(runs@) == marked_pieces(*line),
{
    let rest: Vec<char> = strip_chars(text);
    let mut runs: Vec<Inline> = line_runs(line, &rest);
    if runs.len() == 0 && rest.len() > 0 {
        let style: CharStyle = if line.runs.len() > 0 {
            line.runs[0].style
        } else {
            plain_style()
        };
        let piece: Inline = run_inline(string_of(&rest), style, None);
        proof {
            lemma_pieces_push(runs@, piece);
        }
        runs.push(piece);
        assert(pieces_of(runs@) =~= marked_pieces(*line));
    }
    runs
}

/// Append a line without a marker to an item, after a line break.
fn continue_item(
    item: ListItem,
    line: &Line,
    text: &Vec<char>,
    Ghost(v): Ghost<Item>,
    Ghost(id): Ghost<nat>,
) -> (r: ListItem)
    requires
        line.wf(),
        is_item(item, v, id),
    ensures
        is_item(
            r,
            (Item {
                pieces: v.pieces + seq![Piece::Break] + line_pieces(*line, text@),
                ..v
            }),
            id,
        ),
{
    let mut more: Vec<Inline> = line_runs(line, text);
    let ghost added = more@;
    let level: u8 = item.level;
    let mut blocks: Vec<Block> = item.blocks;
    let block: Block = match blocks.pop() {
        Some(b) => b,
        None => {
            return ListItem { blocks, level };
        },
    };
    let Block { id: block_id, frame, rotation, kind } = block;
    let mut para: Paragraph = match kind {
        BlockKind::Paragraph(p) => p,
        other => {
            blocks.push(Block { id: block_id, frame, rotation, kind: other });
            return ListItem { blocks, level };
        },
    };
    proof {
        lemma_pieces_push(para.runs@, Inline::LineBreak);
    }
    para.runs.push(Inline::LineBreak);
    proof {
        lemma_pieces_add(para.runs@, added);
    }
    para.runs.append(&mut more);
    assert(pieces_of(para.runs@) =~= v.pieces + seq![Piece::Break] + line_pieces(*line, text@));
    blocks.push(Block { id: block_id, frame, rotation, kind: BlockKind::Paragraph(para) });
    ListItem { blocks, level }
}

/// The items of some lines, under identities from the next on.
fn build_items(lines: &[Line], levels: &[u8], ids: &mut IdGen) -> (items: Vec<ListItem>)
    requires
        levels@.len() == lines@.len(),
        forall|i: int| 0 <= i < lines@.len() ==> (#[trigger] lines@[i]).wf(),
        old(ids).next() + lines@.len() < u64::MAX,
    ensures
        are_items(items@, items_of(lines@, levels@, lines@.len() as int), old(ids).next()),
        final(ids).next() == old(ids).next() + items@.len(),
        items@.len() <= lines@.len(),
{
    let ghost first = ids.next();
    let mut items: Vec<ListItem> = Vec::new();
    let mut n: usize = 0;
    while n < lines.len()
        invariant
            n <= lines@.len(),
            levels@.len() == lines@.len(),
            forall|i: int| 0 <= i < lines@.len() ==> (#[trigger] lines@[i]).wf(),
            first + lines@.len() < u64::MAX,
            ids.next() == first + items@.len(),
            items@.len() <= n,
            are_items(items@, items_of(lines@, levels@, n as int), first),
        decreases lines.len() - n,
    {
        let ghost s = items_of(lines@, levels@, n as int);
        let ghost before = items@;
        let line: &Line = &lines[n];
        let text: Vec<char> = line.text();
        if marker_in(&text).is_some() {
            let runs: Vec<Inline> = marked_runs(line, &text);
            let item: ListItem = item_of(runs, levels[n], line.rotation, ids);
            items.push(item);
        } else {
            match items.pop() {
                Some(item) => {
                    assert(is_item(before[before.len() - 1], s.last(), (first + s.len() - 1) as nat));
                    let longer: ListItem = continue_item(
                        item,
                        line,
                        &text,
                        Ghost(s.last()),
                        Ghost((first + s.len() - 1) as nat),
                    );
                    items.push(longer);
                },
                None => {
                    let runs: Vec<Inline> = line_runs(line, &text);
                    let item: ListItem = item_of(runs, 0, line.rotation, ids);
                    items.push(item);
                },
            }
        }
        n = n + 1;
        proof {
            let t = items_of(lines@, levels@, n as int);
            assert forall|i: int| 0 <= i < t.len() implies is_item(
                #[trigger] items@[i],
                t[i],
                (first + i) as nat,
            ) by {
                if i < before.len() - 1 {
                    assert(items@[i] == before[i]);
                    assert(is_item(before[i], s[i], (first + i) as nat));
                } else if i == before.len() - 1 && items@.len() > before.len() {
                    assert(items@[i] == before[i]);
                    assert(is_item(before[i], s[i], (first + i) as nat));
                }
            }
        }
    }
    items
}

fn find_marker(lines: &[Line], levels: &[u8]) -> (r: Option<Marker>)
    requires
        levels@.len() == lines@.len(),
        forall|i: int| 0 <= i < lines@.len() ==> (#[trigger] lines@[i]).wf(),
    ensures
        r == list_marker(lines@, levels@),
{
    let len: usize = lines.len();
    let mut infos: Vec<Option<MarkerInfo>> = Vec::new();
    let mut n: usize = 0;
    while n < len
        invariant
            n <= len,
            len == lines@.len(),
            forall|i: int| 0 <= i < lines@.len() ==> (#[trigger] lines@[i]).wf(),
            infos@ =~= infos_of(lines@).take(n as int),
        decreases len - n,
    {
        let text: Vec<char> = lines[n].text();
        infos.push(info_in(&text));
        n = n + 1;
    }
    assert(infos@ =~= infos_of(lines@));
    let mut k: usize = 0;
    while k < len && infos[k].is_none()
        invariant
            k <= len,
            len == infos@.len(),
            first_marked(infos@, 0) == first_marked(infos@, k as int),
        decreases len - k,
    {
        k = k + 1;
    }
    if k >= len {
        return None;
    }
    match read_marker(infos.as_slice(), levels, 0, len, k) {
        Some(info) => Some(info.marker),
        None => None,
    }
}

/// The list block of some lines: ordered and marked as its first marked line.
/// Each marked line opens an item at its level; a line without a marker goes on
/// with the item before it. Lines without any marker make no list.
pub fn build_list(
    lines: &[Line],
    levels: &[u8],
    frame: Frame,
    rotation: Rotation,
    ids: &mut IdGen,
) -> (r: Option<Block>)
    requires
        levels@.len() == lines@.len(),
        forall|i: int| 0 <= i < lines@.len() ==> (#[trigger] lines@[i]).wf(),
        old(ids).next() + lines@.len() < u64::MAX,
    ensures
        match list_marker(lines@, levels@) {
            None => r is None && final(ids).next() == old(ids).next(),
            Some(m) => {
                let items = items_of(lines@, levels@, lines@.len() as int);
                let id = old(ids).next() + items.len();
                &&& final(ids).next() == id + 1
                &&& r matches Some(b) && b.id.0 == id && b.frame == Some(frame) && b.rotation
                    == rotation && (b.kind matches BlockKind::List(list) && list.ordered == !(m
                    is Bullet) && list.marker == list_marker_of(m) && are_items(
                    list.items@,
                    items,
                    old(ids).next(),
                ))
            },
        },
{
    let marker: Marker = match find_marker(lines, levels) {
        None => {
            return None;
        },
        Some(m) => m,
    };
    let items: Vec<ListItem> = build_items(lines, levels, ids);
    Some(
        Block {
            id: ids.mint(),
            frame: Some(frame),
            rotation,
            kind: BlockKind::List(
                List { ordered: marker.ordered(), marker: marker.to_list_marker(), items },
            ),
        },
    )
}

// ── laws ────────────────────────────────────────────────────────────────────

proof fn lemma_text_add(s: Seq<Piece>, t: Seq<Piece>, n: int)
    requires
        0 <= n <= t.len(),
    ensures
        text_of_pieces(s + t, s.len() + n) == text_of_pieces(s, s.len() as int) + text_of_pieces(
            t,
            n,
        ),
    decreases n,
{
    if n == 0 {
        lemma_text_prefix(s, t, s.len() as int);
        assert(text_of_pieces(t, 0) =~= Seq::empty());
        assert(text_of_pieces(s + t, s.len() as int) =~= text_of_pieces(s, s.len() as int)
            + text_of_pieces(t, 0));
    } else {
        lemma_text_add(s, t, n - 1);
        assert((s + t)[s.len() + n - 1] == t[n - 1]);
        assert(text_of_pieces(s + t, s.len() + n) =~= text_of_pieces(s, s.len() as int)
            + text_of_pieces(t, n));
    }
}

proof fn lemma_text_prefix(s: Seq<Piece>, t: Seq<Piece>, n: int)
    requires
        0 <= n <= s.len(),
    ensures
        text_of_pieces(s + t, n) == text_of_pieces(s, n),
    decreases n,
{
    if n > 0 {
        lemma_text_prefix(s, t, n - 1);
        assert((s + t)[n - 1] == s[n - 1]);
    }
}

/// The text of a piece that is a run.
proof fn lemma_text_of_run(p: Piece)
    requires
        p is Run,
    ensures
        text_of_pieces(seq![p], 1) == p->Run_text,
{
    let s = seq![p];
    assert(s[0] == p);
    assert(text_of_pieces(s, 0) =~= Seq::empty());
    assert(text_of_pieces(s, 1) =~= p->Run_text);
}

/// `joined(runs, n)` is a beginning of `joined(runs, m)`.
proof fn lemma_joined_grows(runs: Seq<LineRun>, n: int, m: int)
    requires
        0 <= n <= m <= runs.len(),
    ensures
        starts_with(joined(runs, m), joined(runs, n)),
    decreases m - n,
{
    if n < m {
        lemma_joined_grows(runs, n, m - 1);
        let a = joined(runs, n);
        assert(joined(runs, m).take(a.len() as int) =~= joined(runs, m - 1).take(a.len() as int));
    } else {
        let a = joined(runs, n);
        assert(a.take(a.len() as int) =~= a);
    }
}

proof fn lemma_whole_line(runs: Seq<LineRun>, n: int)
    requires
        0 <= n <= runs.len(),
    ensures
        ({
            let text = joined(runs, runs.len() as int);
            let done = joined(runs, n);
            let s = taken(runs, text, n);
            &&& starts_with(text, done)
            &&& s.rest == text.skip(done.len() as int)
            &&& s.prev == last_word(runs, n)
            &&& text_of_pieces(s.out, s.out.len() as int) == done
        }),
    decreases n,
{
    let text = joined(runs, runs.len() as int);
    let done = joined(runs, n);
    lemma_joined_grows(runs, n, runs.len() as int);
    if n == 0 {
        assert(text.skip(0) =~= text);
    } else {
        lemma_whole_line(runs, n - 1);
        let s = taken(runs, text, n - 1);
        let before = joined(runs, n - 1);
        let j = n - 1;
        let t = trimmed(runs[j].text@);
        if t.len() > 0 {
            let gap = super::lines::gap_before(runs, last_word(runs, j), j);
            assert(done == before + gap + t);
            assert(text.take(done.len() as int) == done);
            // What is left opens with the gap and the run.
            assert(s.rest =~= gap + t + text.skip(done.len() as int)) by {
                assert(text =~= done + text.skip(done.len() as int));
            }
            lemma_trimmed_start(runs[j].text@);
            let rest = trim_start(s.rest);
            assert(rest =~= t + text.skip(done.len() as int)) by {
                let u = t + text.skip(done.len() as int);
                assert(u[0] == t[0]);
                if gap.len() > 0 {
                    assert(s.rest[0] == ' ');
                    assert(s.rest.drop_first() =~= u);
                } else {
                    assert(s.rest =~= u);
                }
                assert(trim_start(u) == u);
            }
            assert(rest.take(t.len() as int) =~= t);
            assert(starts_with(rest, t));
            assert(rest.skip(t.len() as int) =~= text.skip(done.len() as int));
            let space = space_piece(runs, s.prev, j);
            let run = seq![
                Piece::Run { text: t, style: runs[j].style, source: runs[j].source_index },
            ];
            lemma_text_add(s.out, space, space.len() as int);
            lemma_text_add(s.out + space, run, 1);
            lemma_text_of_run(run[0]);
            if space.len() > 0 {
                assert(space =~= seq![space[0]]);
                lemma_text_of_run(space[0]);
            } else {
                assert(text_of_pieces(space, 0) =~= Seq::empty());
            }
            assert(text_of_pieces(space, space.len() as int) =~= gap);
            let r = taken(runs, text, n);
            assert(r.out == s.out + space + run);
            assert(text_of_pieces(r.out, r.out.len() as int) =~= done);
        }
    }
}

proof fn lemma_trimmed_start(s: Seq<char>)
    ensures
        trimmed(s).len() > 0 ==> !is_space(trimmed(s)[0]),
{
    lemma_trim_start(s);
    super::text::law_trim_twice(s);
    lemma_trim_start(trimmed(s));
    let t = trimmed(s);
    if t.len() > 0 && is_space(t[0]) {
        super::text::lemma_trim_end(trim_start(t));
        assert(trim_start(t).len() < t.len());
    }
}

/// A line without a marker loses nothing when it goes on with an item: the text
/// of its pieces is the text of the line.
pub proof fn law_continuation_keeps_text(line: Line)
    requires
        line.wf(),
    ensures
        ({
            let p = line_pieces(line, line_text(line));
            text_of_pieces(p, p.len() as int) == line_text(line)
        }),
{
    lemma_whole_line(line.runs@, line.runs@.len() as int);
}

/// Lines make no more items than there are lines, and a list whose first line
/// is marked has an item for every marked line.
pub proof fn law_items_are_marked_lines(lines: Seq<Line>, levels: Seq<u8>, n: int)
    requires
        0 < n <= lines.len(),
        marker_of(line_text(lines[0])) is Some,
    ensures
        items_of(lines, levels, n).len() == marked_lines(lines, n),
    decreases n,
{
    if n > 1 {
        law_items_are_marked_lines(lines, levels, n - 1);
        lemma_marked_lines(lines, n - 1);
    } else {
        assert(items_of(lines, levels, 0).len() == 0);
        assert(marked_lines(lines, 0) == 0);
    }
}

/// How many of the first `n` lines are marked.
pub open spec fn marked_lines(lines: Seq<Line>, n: int) -> nat
    decreases n,
{
    if n <= 0 {
        0
    } else {
        marked_lines(lines, n - 1) + (if marker_of(line_text(lines[n - 1])) is Some {
            1nat
        } else {
            0nat
        })
    }
}

proof fn lemma_marked_lines(lines: Seq<Line>, n: int)
    requires
        0 < n <= lines.len(),
        marker_of(line_text(lines[0])) is Some,
    ensures
        marked_lines(lines, n) > 0,
    decreases n,
{
    if n > 1 {
        lemma_marked_lines(lines, n - 1);
    }
}

/// A marked line opens an item at its own level and leaves those before as they
/// are. A line without a marker goes on with the last item: that keeps all that
/// it held, and behind a line break holds the text of the line.
pub proof fn law_items_go_on_line_by_line(lines: Seq<Line>, levels: Seq<u8>, n: int)
    requires
        0 < n <= lines.len(),
        lines[n - 1].wf(),
    ensures
        ({
            let old = items_of(lines, levels, n - 1);
            let new = items_of(lines, levels, n);
            let line = lines[n - 1];
            let marked = marker_of(line_text(line)) is Some;
            &&& marked ==> new.len() == old.len() + 1 && new.last().level == levels[n - 1]
                && new.last().rotation == line.rotation && forall|i: int|
                0 <= i < old.len() ==> #[trigger] new[i] == old[i]
            &&& !marked && old.len() > 0 ==> {
                let a = old.last().pieces;
                let b = new.last().pieces;
                let c = b.skip((a.len() + 1) as int);
                &&& new.len() == old.len()
                &&& forall|i: int| 0 <= i < old.len() - 1 ==> #[trigger] new[i] == old[i]
                &&& new.last().level == old.last().level
                &&& new.last().rotation == old.last().rotation
                &&& b.len() > a.len()
                &&& forall|i: int| 0 <= i < a.len() ==> #[trigger] b[i] == a[i]
                &&& b[a.len() as int] is Break
                &&& text_of_pieces(c, c.len() as int) == line_text(line)
            }
        }),
{
    let old = items_of(lines, levels, n - 1);
    let new = items_of(lines, levels, n);
    let line = lines[n - 1];
    let text = line_text(line);
    if marker_of(text) is None && old.len() > 0 {
        let a = old.last().pieces;
        let b = new.last().pieces;
        let own = line_pieces(line, text);
        assert(b == a + seq![Piece::Break] + own);
        assert(b.skip((a.len() + 1) as int) =~= own);
        law_continuation_keeps_text(line);
    }
}

} // verus!
