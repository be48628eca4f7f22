//! The document model.
//!
//! A handle (`usize`) names an entry of a table that the caller keeps: a font,
//! a rectangle, a drawing. The library hands handles on and never looks behind
//! them.
use vstd::prelude::*;

verus! {

/// The identity of a block.
#[derive(Clone, Copy, Debug, PartialEq, Eq, Structural)]
pub struct BlockId(pub u64);

/// Where text sits on its line.
#[derive(Clone, Copy, Debug, PartialEq, Eq, Structural)]
pub enum VAlign {
    Baseline,
    Super,
    Sub,
}

/// Horizontal alignment.
#[derive(Clone, Copy, Debug, PartialEq, Eq, Structural)]
pub enum Align {
    Left,
    Center,
    Right,
    Justify,
}

/// The orientation of a block; a free angle is a handle.
#[derive(Clone, Copy, Debug, PartialEq, Eq, Structural)]
pub enum Rotation {
    D0,
    D90,
    D180,
    D270,
    Deg(usize),
}

/// The style of a run. The font handle stands for family, size and colours.
#[derive(Clone, Copy, Debug, PartialEq, Eq, Structural)]
pub struct CharStyle {
    pub font: usize,
    pub bold: bool,
    pub italic: bool,
    pub underline: bool,
    pub strike: bool,
    pub vertical_align: VAlign,
}

/// A run of text in one style.
#[derive(Clone, Debug, PartialEq)]
pub struct InlineRun {
    pub text: String,
    pub style: CharStyle,
    /// The text run of the page that this came from.
    pub source_index: Option<usize>,
}

/// An image, by the hash of its resource.
#[derive(Clone, Debug, PartialEq)]
pub struct ImageRef {
    pub resource: u64,
    pub alt: Option<String>,
}

/// A piece of a paragraph.
#[derive(Debug, PartialEq)]
pub enum Inline {
    Run(InlineRun),
    LineBreak,
    /// A link, by its handle, around other pieces.
    Link { target: usize, children: Vec<Inline> },
    Image(ImageRef),
    CommentRef(usize),
}

/// The style of a paragraph; spacing and indents are a handle.
#[derive(Clone, Copy, Debug, PartialEq, Eq, Structural)]
pub struct ParagraphStyle {
    pub align: Align,
    pub spacing: usize,
}

#[derive(Debug, PartialEq)]
pub struct Paragraph {
    pub style: ParagraphStyle,
    pub runs: Vec<Inline>,
}

#[derive(Debug, PartialEq)]
pub struct Heading {
    pub level: u8,
    pub para: Paragraph,
}

/// How the items of a list are marked.
#[derive(Clone, Copy, Debug, PartialEq, Eq, Structural)]
pub enum ListMarker {
    Bullet(char),
    Decimal,
    LowerAlpha,
    UpperAlpha,
    LowerRoman,
    UpperRoman,
}

#[derive(Debug, PartialEq)]
pub struct ListItem {
    pub blocks: Vec<Block>,
    pub level: u8,
}

#[derive(Debug, PartialEq)]
pub struct List {
    pub ordered: bool,
    pub marker: ListMarker,
    pub items: Vec<ListItem>,
}

#[derive(Debug, PartialEq)]
pub struct Cell {
    pub blocks: Vec<Block>,
    pub col_span: u16,
    pub row_span: u16,
}

/// A row, with its height as a handle.
#[derive(Debug, PartialEq)]
pub struct Row {
    pub cells: Vec<Cell>,
    pub height: Option<usize>,
}

/// The handle of the length zero.
pub const NO_LENGTH: usize = 0;

/// The handle of the length of one point.
pub const ONE_POINT: usize = 1;

/// The handle of the colour black.
pub const BLACK: usize = 0;

/// The border around the cells of a table: its width and its colour, as
/// handles.
#[derive(Clone, Copy, Debug, PartialEq, Eq, Structural)]
pub struct BorderStyle {
    pub width: usize,
    pub color: usize,
}

/// A table, with the widths of its columns as handles.
#[derive(Debug, PartialEq)]
pub struct Table {
    pub rows: Vec<Row>,
    pub col_widths: Vec<usize>,
    pub border: BorderStyle,
}

#[derive(Debug, PartialEq)]
pub enum BlockKind {
    Paragraph(Paragraph),
    Heading(Heading),
    List(List),
    Table(Table),
    Image(ImageRef),
    /// A drawing, by its handle.
    Shape(usize),
    TextBox(Vec<Block>),
    Blockquote(Vec<Block>),
    CodeBlock(String),
    /// Any other kind, by its handle; it carries neither text nor images.
    Other(usize),
}

/// The place of a block on its page. The rectangle itself is a handle; beside
/// it stands what its coordinates decide.
#[derive(Clone, Copy, Debug, PartialEq, Eq, Structural)]
pub struct Frame {
    pub rect: usize,
    /// The block lies wholly in the band along the top edge.
    pub in_top_band: bool,
    /// The block lies wholly in the band along the bottom edge.
    pub in_bottom_band: bool,
    /// The vertical centre, in buckets of about two points.
    pub center_bucket: i64,
}

#[derive(Debug, PartialEq)]
pub struct Block {
    pub id: BlockId,
    pub frame: Option<Frame>,
    pub rotation: Rotation,
    pub kind: BlockKind,
}

#[derive(Debug, PartialEq)]
pub struct Page {
    pub blocks: Vec<Block>,
    pub absolute: bool,
}

/// Pages of one geometry.
#[derive(Debug, PartialEq)]
pub struct Section {
    /// Whether the pages have a finite height above zero.
    pub has_height: bool,
    pub header: Option<Vec<Block>>,
    pub footer: Option<Vec<Block>>,
    pub pages: Vec<Page>,
}

/// The plain style: the first font, nothing set.
pub open spec fn plain() -> CharStyle {
    CharStyle {
        font: 0,
        bold: false,
        italic: false,
        underline: false,
        strike: false,
        vertical_align: VAlign::Baseline,
    }
}

pub fn plain_style() -> (s: CharStyle)
    ensures
        s == plain(),
{
    CharStyle {
        font: 0,
        bold: false,
        italic: false,
        underline: false,
        strike: false,
        vertical_align: VAlign::Baseline,
    }
}

// ── pieces as values ────────────────────────────────────────────────────────

/// A piece of a paragraph, as a value.
pub ghost enum Piece {
    Run { text: Seq<char>, style: CharStyle, source: Option<usize> },
    Break,
    Link { target: usize, children: Seq<Piece> },
    Image { resource: u64, alt: Option<Seq<char>> },
    Comment(usize),
}

/// The value of a piece.
pub open spec fn piece_of(i: Inline) -> Piece
    decreases i,
{
    match i {
        Inline::Run(r) => Piece::Run { text: r.text@, style: r.style, source: r.source_index },
        Inline::LineBreak => Piece::Break,
        Inline::Link { target, children } => Piece::Link {
            target,
            children: pieces_of(children@),
        },
        Inline::Image(img) => Piece::Image {
            resource: img.resource,
            alt: match img.alt {
                Some(a) => Some(a@),
                None => None,
            },
        },
        Inline::CommentRef(c) => Piece::Comment(c),
    }
}

/// The values of some pieces.
pub open spec fn pieces_of(s: Seq<Inline>) -> Seq<Piece>
    decreases s,
{
    Seq::new(
        s.len(),
        |k: int|
            if 0 <= k < s.len() {
                piece_of(s[k])
            } else {
                Piece::Break
            },
    )
}

/// The text of the first `n` pieces, a space for a line break, links entered.
pub open spec fn text_of_pieces(s: Seq<Piece>, n: int) -> Seq<char>
    decreases s, n,
{
    if n <= 0 || n > s.len() {
        Seq::empty()
    } else {
        text_of_pieces(s, n - 1) + (match s[n - 1] {
            Piece::Run { text, .. } => text,
            Piece::Break => seq![' '],
            Piece::Link { children, .. } => text_of_pieces(children, children.len() as int),
            _ => Seq::empty(),
        })
    }
}

} // verus!
