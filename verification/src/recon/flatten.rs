//! The text and the images of paragraphs and blocks.
use super::model::{
    piece_of, pieces_of, text_of_pieces, Block, BlockKind, Cell, Heading, Inline, ListItem,
    Paragraph, Piece, Row,
};
use super::text::{chars_of, string_of, trim_chars, trimmed};
use vstd::prelude::*;

verus! {

/// Append the characters of a string.
pub fn push_text(out: &mut Vec<char>, s: &String)
    ensures
        final(out)@ == old(out)@ + s@,
{
    let mut v: Vec<char> = chars_of(s.as_str());
    out.append(&mut v);
}

/// The text of a paragraph, trimmed.
pub open spec fn text_of(p: Paragraph) -> Seq<char> {
    trimmed(inlines_content(p.runs@, p.runs@.len() as int).text)
}

/// The text of a paragraph: runs and what links hold, line breaks as spaces,
/// trimmed at both ends.
pub fn paragraph_text(para: &Paragraph) -> (r: String)
    ensures
        r@ == text_of(*para),
{
    let mut out = Gathered { text: Vec::new(), images: Vec::new() };
    append_runs(&para.runs, &mut out);
    assert(out.text@ =~= inlines_content(para.runs@, para.runs@.len() as int).text);
    string_of(&trim_chars(&out.text))
}

/// The title of a heading: the text of its paragraph.
pub fn heading_title(heading: &Heading) -> (r: String)
    ensures
        r@ == text_of(heading.para),
{
    paragraph_text(&heading.para)
}

// ── whole blocks ────────────────────────────────────────────────────────────

/// The text and the image resources that something carries, in reading order.
pub ghost struct Content {
    pub text: Seq<char>,
    pub images: Seq<u64>,
}

impl Content {
    pub open spec fn none() -> Content {
        Content { text: Seq::empty(), images: Seq::empty() }
    }

    pub open spec fn of_text(text: Seq<char>) -> Content {
        Content { text, images: Seq::empty() }
    }

    /// This content and then another.
    pub open spec fn plus(self, next: Content) -> Content {
        Content { text: self.text + next.text, images: self.images + next.images }
    }
}

/// What a piece carries; a link carries what is inside it.
pub open spec fn inline_content(i: Inline) -> Content
    decreases i, 0int,
{
    match i {
        Inline::Run(r) => Content::of_text(r.text@),
        Inline::LineBreak => Content::of_text(seq![' ']),
        Inline::Link { children, .. } => inlines_content(children@, children@.len() as int),
        Inline::Image(img) => Content { text: Seq::empty(), images: seq![img.resource] },
        Inline::CommentRef(_) => Content::none(),
    }
}

/// What the first `n` pieces carry.
pub open spec fn inlines_content(s: Seq<Inline>, n: int) -> Content
    decreases s, n,
{
    if n <= 0 || n > s.len() {
        Content::none()
    } else {
        inlines_content(s, n - 1).plus(inline_content(s[n - 1]))
    }
}

/// What a block carries, nested blocks included.
pub open spec fn block_content(b: Block) -> Content
    decreases b, 0int,
{
    match b.kind {
        BlockKind::Paragraph(p) => inlines_content(p.runs@, p.runs@.len() as int),
        BlockKind::Heading(h) => inlines_content(h.para.runs@, h.para.runs@.len() as int),
        BlockKind::List(l) => items_content(l.items@, l.items@.len() as int),
        BlockKind::Table(t) => rows_content(t.rows@, t.rows@.len() as int),
        BlockKind::Image(img) => Content { text: Seq::empty(), images: seq![img.resource] },
        BlockKind::TextBox(bs) => blocks_content(bs@, bs@.len() as int),
        BlockKind::Blockquote(bs) => blocks_content(bs@, bs@.len() as int),
        BlockKind::CodeBlock(code) => Content::of_text(code@),
        BlockKind::Shape(_) => Content::none(),
        BlockKind::Other(_) => Content::none(),
    }
}

/// What the first `n` blocks carry.
pub open spec fn blocks_content(s: Seq<Block>, n: int) -> Content
    decreases s, n,
{
    if n <= 0 || n > s.len() {
        Content::none()
    } else {
        blocks_content(s, n - 1).plus(block_content(s[n - 1]))
    }
}

/// What the first `n` items of a list carry.
pub open spec fn items_content(s: Seq<ListItem>, n: int) -> Content
    decreases s, n,
{
    if n <= 0 || n > s.len() {
        Content::none()
    } else {
        let bs = s[n - 1].blocks@;
        items_content(s, n - 1).plus(blocks_content(bs, bs.len() as int))
    }
}

/// What the first `n` rows of a table carry.
pub open spec fn rows_content(s: Seq<Row>, n: int) -> Content
    decreases s, n,
{
    if n <= 0 || n > s.len() {
        Content::none()
    } else {
        let cs = s[n - 1].cells@;
        rows_content(s, n - 1).plus(cells_content(cs, cs.len() as int))
    }
}

/// What the first `n` cells of a row carry.
pub open spec fn cells_content(s: Seq<Cell>, n: int) -> Content
    decreases s, n,
{
    if n <= 0 || n > s.len() {
        Content::none()
    } else {
        let bs = s[n - 1].blocks@;
        cells_content(s, n - 1).plus(blocks_content(bs, bs.len() as int))
    }
}

/// Text and images that are being gathered.
pub struct Gathered {
    pub text: Vec<char>,
    pub images: Vec<u64>,
}

impl Gathered {
    pub open spec fn view(&self) -> Content {
        Content { text: self.text@, images: self.images@ }
    }
}

/// Append what some pieces carry.
pub fn append_runs(runs: &Vec<Inline>, out: &mut Gathered)
    ensures
        final(out)@ == old(out)@.plus(inlines_content(runs@, runs@.len() as int)),
    decreases runs@, 0int,
{
    let ghost out0 = out@;
    let mut i: usize = 0;
    assert(out@ == out0.plus(inlines_content(runs@, 0)));
    while i < runs.len()
        invariant
            i <= runs@.len(),
            out@ == out0.plus(inlines_content(runs@, i as int)),
        decreases runs.len() - i,
    {
        let ghost before = out@;
        match &runs[i] {
            Inline::Run(r) => push_text(&mut out.text, &r.text),
            Inline::LineBreak => out.text.push(' '),
            Inline::Link { children, .. } => {
                assert(decreases_to!(runs@ => runs@[i as int]));
                append_runs(children, out)
            },
            Inline::Image(img) => out.images.push(img.resource),
            Inline::CommentRef(_) => {},
        }
        proof {
            let k = i as int;
            assert(out@.text =~= before.plus(inline_content(runs@[k])).text);
            assert(out@.images =~= before.plus(inline_content(runs@[k])).images);
            assert(inlines_content(runs@, k + 1) == inlines_content(runs@, k).plus(
                inline_content(runs@[k]),
            ));
            let goal = out0.plus(inlines_content(runs@, k + 1));
            assert(out@.text =~= goal.text);
            assert(out@.images =~= goal.images);
        }
        i = i + 1;
    }
}

/// Append what a block carries.
pub fn collect_block(block: &Block, out: &mut Gathered)
    ensures
        final(out)@ == old(out)@.plus(block_content(*block)),
    decreases block, 0int,
{
    let ghost out0 = out@;
    match &block.kind {
        BlockKind::Paragraph(p) => append_runs(&p.runs, out),
        BlockKind::Heading(h) => append_runs(&h.para.runs, out),
        BlockKind::List(list) => collect_items(&list.items, out),
        BlockKind::Table(table) => collect_rows(&table.rows, out),
        BlockKind::Image(img) => out.images.push(img.resource),
        BlockKind::TextBox(bs) => collect_blocks(bs, out),
        BlockKind::Blockquote(bs) => collect_blocks(bs, out),
        BlockKind::CodeBlock(code) => push_text(&mut out.text, code),
        BlockKind::Shape(_) => {},
        BlockKind::Other(_) => {},
    }
    proof {
        let goal = out0.plus(block_content(*block));
        assert(out@.text =~= goal.text);
        assert(out@.images =~= goal.images);
    }
}

fn collect_blocks(bs: &Vec<Block>, out: &mut Gathered)
    ensures
        final(out)@ == old(out)@.plus(blocks_content(bs@, bs@.len() as int)),
    decreases bs@, 1int,
{
    let ghost out0 = out@;
    let mut i: usize = 0;
    assert(out@ == out0.plus(blocks_content(bs@, 0)));
    while i < bs.len()
        invariant
            i <= bs@.len(),
            out@ == out0.plus(blocks_content(bs@, i as int)),
        decreases bs.len() - i,
    {
        collect_block(&bs[i], out);
        proof {
            let goal = out0.plus(blocks_content(bs@, i + 1));
            assert(out@.text =~= goal.text);
            assert(out@.images =~= goal.images);
        }
        i = i + 1;
    }
}

fn collect_items(s: &Vec<ListItem>, out: &mut Gathered)
    ensures
        final(out)@ == old(out)@.plus(items_content(s@, s@.len() as int)),
    decreases s@, 2int,
{
    let ghost out0 = out@;
    let mut i: usize = 0;
    assert(out@ == out0.plus(items_content(s@, 0)));
    while i < s.len()
        invariant
            i <= s@.len(),
            out@ == out0.plus(items_content(s@, i as int)),
        decreases s.len() - i,
    {
        assert(decreases_to!(s@ => s@[i as int]));
        collect_blocks(&s[i].blocks, out);
        proof {
            let goal = out0.plus(items_content(s@, i + 1));
            assert(out@.text =~= goal.text);
            assert(out@.images =~= goal.images);
        }
        i = i + 1;
    }
}

fn collect_rows(s: &Vec<Row>, out: &mut Gathered)
    ensures
        final(out)@ == old(out)@.plus(rows_content(s@, s@.len() as int)),
    decreases s@, 3int,
{
    let ghost out0 = out@;
    let mut i: usize = 0;
    assert(out@ == out0.plus(rows_content(s@, 0)));
    while i < s.len()
        invariant
            i <= s@.len(),
            out@ == out0.plus(rows_content(s@, i as int)),
        decreases s.len() - i,
    {
        assert(decreases_to!(s@ => s@[i as int]));
        collect_cells(&s[i].cells, out);
        proof {
            let goal = out0.plus(rows_content(s@, i + 1));
            assert(out@.text =~= goal.text);
            assert(out@.images =~= goal.images);
        }
        i = i + 1;
    }
}

fn collect_cells(s: &Vec<Cell>, out: &mut Gathered)
    ensures
        final(out)@ == old(out)@.plus(cells_content(s@, s@.len() as int)),
    decreases s@, 2int,
{
    let ghost out0 = out@;
    let mut i: usize = 0;
    assert(out@ == out0.plus(cells_content(s@, 0)));
    while i < s.len()
        invariant
            i <= s@.len(),
            out@ == out0.plus(cells_content(s@, i as int)),
        decreases s.len() - i,
    {
        assert(decreases_to!(s@ => s@[i as int]));
        collect_blocks(&s[i].blocks, out);
        proof {
            let goal = out0.plus(cells_content(s@, i + 1));
            assert(out@.text =~= goal.text);
            assert(out@.images =~= goal.images);
        }
        i = i + 1;
    }
}

/// What a block carries.
pub fn gather(block: &Block) -> (r: Gathered)
    ensures
        r@ == block_content(*block),
{
    let mut out = Gathered { text: Vec::new(), images: Vec::new() };
    collect_block(block, &mut out);
    proof {
        assert(out@.text =~= block_content(*block).text);
        assert(out@.images =~= block_content(*block).images);
    }
    out
}

/// The text of a block, nested blocks included.
pub fn block_text(block: &Block) -> (r: String)
    ensures
        r@ == block_content(*block).text,
{
    let g = gather(block);
    string_of(&g.text)
}

/// The image resources of a block, nested blocks included.
pub fn block_image_resources(block: &Block) -> (r: Vec<u64>)
    ensures
        r@ == block_content(*block).images,
{
    let g = gather(block);
    g.images
}

// ── laws ────────────────────────────────────────────────────────────────────

proof fn lemma_inlines_prefix(a: Seq<Inline>, b: Seq<Inline>, n: int)
    requires
        0 <= n <= a.len(),
        n <= b.len(),
        forall|i: int| 0 <= i < n ==> a[i] == b[i],
    ensures
        inlines_content(a, n) == inlines_content(b, n),
    decreases n,
{
    if n > 0 {
        lemma_inlines_prefix(a, b, n - 1);
    }
}

/// Pieces are read in their order: what some carry, and then what those behind
/// them do.
pub proof fn law_pieces_read_in_order(a: Seq<Inline>, b: Seq<Inline>, n: int)
    requires
        0 <= n <= b.len(),
    ensures
        inlines_content(a + b, a.len() + n) == inlines_content(a, a.len() as int).plus(
            inlines_content(b, n),
        ),
    decreases n,
{
    let all = a + b;
    if n == 0 {
        lemma_inlines_prefix(a, all, a.len() as int);
        assert(inlines_content(all, a.len() + n).text =~= inlines_content(a, a.len() as int).plus(
            inlines_content(b, n),
        ).text);
        assert(inlines_content(all, a.len() + n).images =~= inlines_content(a, a.len() as int).plus(
            inlines_content(b, n),
        ).images);
    } else {
        law_pieces_read_in_order(a, b, n - 1);
        assert(all[a.len() + n - 1] == b[n - 1]);
        assert(inlines_content(all, a.len() + n).text =~= inlines_content(a, a.len() as int).plus(
            inlines_content(b, n),
        ).text);
        assert(inlines_content(all, a.len() + n).images =~= inlines_content(a, a.len() as int).plus(
            inlines_content(b, n),
        ).images);
    }
}

proof fn lemma_blocks_prefix(a: Seq<Block>, b: Seq<Block>, n: int)
    requires
        0 <= n <= a.len(),
        n <= b.len(),
        forall|i: int| 0 <= i < n ==> a[i] == b[i],
    ensures
        blocks_content(a, n) == blocks_content(b, n),
    decreases n,
{
    if n > 0 {
        lemma_blocks_prefix(a, b, n - 1);
    }
}

/// Blocks are read in their order.
pub proof fn law_blocks_read_in_order(a: Seq<Block>, b: Seq<Block>, n: int)
    requires
        0 <= n <= b.len(),
    ensures
        blocks_content(a + b, a.len() + n) == blocks_content(a, a.len() as int).plus(
            blocks_content(b, n),
        ),
    decreases n,
{
    let all = a + b;
    if n == 0 {
        lemma_blocks_prefix(a, all, a.len() as int);
        assert(blocks_content(all, a.len() + n).text =~= blocks_content(a, a.len() as int).plus(
            blocks_content(b, n),
        ).text);
        assert(blocks_content(all, a.len() + n).images =~= blocks_content(a, a.len() as int).plus(
            blocks_content(b, n),
        ).images);
    } else {
        law_blocks_read_in_order(a, b, n - 1);
        assert(all[a.len() + n - 1] == b[n - 1]);
        assert(blocks_content(all, a.len() + n).text =~= blocks_content(a, a.len() as int).plus(
            blocks_content(b, n),
        ).text);
        assert(blocks_content(all, a.len() + n).images =~= blocks_content(a, a.len() as int).plus(
            blocks_content(b, n),
        ).images);
    }
}

proof fn lemma_items_prefix(a: Seq<ListItem>, b: Seq<ListItem>, n: int)
    requires
        0 <= n <= a.len(),
        n <= b.len(),
        forall|i: int| 0 <= i < n ==> a[i] == b[i],
    ensures
        items_content(a, n) == items_content(b, n),
    decreases n,
{
    if n > 0 {
        lemma_items_prefix(a, b, n - 1);
    }
}

/// The items of a list are read in their order.
pub proof fn law_items_read_in_order(a: Seq<ListItem>, b: Seq<ListItem>, n: int)
    requires
        0 <= n <= b.len(),
    ensures
        items_content(a + b, a.len() + n) == items_content(a, a.len() as int).plus(
            items_content(b, n),
        ),
    decreases n,
{
    let all = a + b;
    if n == 0 {
        lemma_items_prefix(a, all, a.len() as int);
        assert(items_content(all, a.len() + n).text =~= items_content(a, a.len() as int).plus(
            items_content(b, n),
        ).text);
        assert(items_content(all, a.len() + n).images =~= items_content(a, a.len() as int).plus(
            items_content(b, n),
        ).images);
    } else {
        law_items_read_in_order(a, b, n - 1);
        assert(all[a.len() + n - 1] == b[n - 1]);
        assert(items_content(all, a.len() + n).text =~= items_content(a, a.len() as int).plus(
            items_content(b, n),
        ).text);
        assert(items_content(all, a.len() + n).images =~= items_content(a, a.len() as int).plus(
            items_content(b, n),
        ).images);
    }
}

proof fn lemma_rows_prefix(a: Seq<Row>, b: Seq<Row>, n: int)
    requires
        0 <= n <= a.len(),
        n <= b.len(),
        forall|i: int| 0 <= i < n ==> a[i] == b[i],
    ensures
        rows_content(a, n) == rows_content(b, n),
    decreases n,
{
    if n > 0 {
        lemma_rows_prefix(a, b, n - 1);
    }
}

/// The rows of a table are read from the top down.
pub proof fn law_rows_read_in_order(a: Seq<Row>, b: Seq<Row>, n: int)
    requires
        0 <= n <= b.len(),
    ensures
        rows_content(a + b, a.len() + n) == rows_content(a, a.len() as int).plus(
            rows_content(b, n),
        ),
    decreases n,
{
    let all = a + b;
    if n == 0 {
        lemma_rows_prefix(a, all, a.len() as int);
        assert(rows_content(all, a.len() + n).text =~= rows_content(a, a.len() as int).plus(
            rows_content(b, n),
        ).text);
        assert(rows_content(all, a.len() + n).images =~= rows_content(a, a.len() as int).plus(
            rows_content(b, n),
        ).images);
    } else {
        law_rows_read_in_order(a, b, n - 1);
        assert(all[a.len() + n - 1] == b[n - 1]);
        assert(rows_content(all, a.len() + n).text =~= rows_content(a, a.len() as int).plus(
            rows_content(b, n),
        ).text);
        assert(rows_content(all, a.len() + n).images =~= rows_content(a, a.len() as int).plus(
            rows_content(b, n),
        ).images);
    }
}

proof fn lemma_cells_prefix(a: Seq<Cell>, b: Seq<Cell>, n: int)
    requires
        0 <= n <= a.len(),
        n <= b.len(),
        forall|i: int| 0 <= i < n ==> a[i] == b[i],
    ensures
        cells_content(a, n) == cells_content(b, n),
    decreases n,
{
    if n > 0 {
        lemma_cells_prefix(a, b, n - 1);
    }
}

/// The cells of a row are read from left to right.
pub proof fn law_cells_read_in_order(a: Seq<Cell>, b: Seq<Cell>, n: int)
    requires
        0 <= n <= b.len(),
    ensures
        cells_content(a + b, a.len() + n) == cells_content(a, a.len() as int).plus(
            cells_content(b, n),
        ),
    decreases n,
{
    let all = a + b;
    if n == 0 {
        lemma_cells_prefix(a, all, a.len() as int);
        assert(cells_content(all, a.len() + n).text =~= cells_content(a, a.len() as int).plus(
            cells_content(b, n),
        ).text);
        assert(cells_content(all, a.len() + n).images =~= cells_content(a, a.len() as int).plus(
            cells_content(b, n),
        ).images);
    } else {
        law_cells_read_in_order(a, b, n - 1);
        assert(all[a.len() + n - 1] == b[n - 1]);
        assert(cells_content(all, a.len() + n).text =~= cells_content(a, a.len() as int).plus(
            cells_content(b, n),
        ).text);
        assert(cells_content(all, a.len() + n).images =~= cells_content(a, a.len() as int).plus(
            cells_content(b, n),
        ).images);
    }
}

/// The text of a paragraph's pieces is read the same way whether they are taken
/// as they stand or by their values: runs as they are, line breaks as spaces,
/// links by what they hold.
pub proof fn law_pieces_read_as_their_values(s: Seq<Inline>, n: int)
    requires
        0 <= n <= s.len(),
    ensures
        inlines_content(s, n).text == text_of_pieces(pieces_of(s), n),
    decreases s, n,
{
    if n > 0 {
        law_pieces_read_as_their_values(s, n - 1);
        let i = s[n - 1];
        assert(pieces_of(s)[n - 1] == piece_of(i));
        if let Inline::Link { target, children } = i {
            law_pieces_read_as_their_values(children@, children@.len() as int);
            assert(pieces_of(children@).len() == children@.len());
            assert(piece_of(i) == Piece::Link { target, children: pieces_of(children@) });
        }
        assert(pieces_of(s).len() == s.len());
        assert(inlines_content(s, n).text == inlines_content(s, n - 1).text + inline_content(i).text);
        assert(inlines_content(s, n).text =~= text_of_pieces(pieces_of(s), n));
    }
}

} // verus!
