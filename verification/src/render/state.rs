//! Operands, states and paths of content streams.
use super::operators::Operator;
use vstd::prelude::*;

verus! {

// ── what a stream is made of ────────────────────────────────────────────────

/// The handle of the name of the pattern colour space.
pub const PATTERN: usize = 0;

/// The handle of the name that tags optional content.
pub const OPTIONAL: usize = 1;

/// An item of a list that is shown as text.
#[derive(Clone, Copy, Debug, PartialEq, Eq, Structural)]
pub enum Item {
    Text(usize),
    Num(usize),
    Other,
}

/// An operand; numbers, names and strings are handles.
#[derive(Debug)]
pub enum Operand {
    Num(usize),
    Name(usize),
    Text(usize),
    List(Vec<Item>),
    Other,
}

/// An operator with its operands.
#[derive(Debug)]
pub struct Op {
    pub name: Vec<u8>,
    pub operands: Vec<Operand>,
}

/// The numbers among the first `n` operands.
pub open spec fn numbers(ops: Seq<Operand>, n: int) -> Seq<usize>
    decreases n,
{
    if n <= 0 {
        Seq::empty()
    } else {
        let s = numbers(ops, n - 1);
        match ops[n - 1] {
            Operand::Num(x) => s.push(x),
            _ => s,
        }
    }
}

/// The name that an operand is.
pub open spec fn as_name(o: Operand) -> Option<usize> {
    match o {
        Operand::Name(x) => Some(x),
        _ => None,
    }
}

pub open spec fn first_name(ops: Seq<Operand>) -> Option<usize> {
    if ops.len() > 0 {
        as_name(ops[0])
    } else {
        None
    }
}

pub open spec fn last_name(ops: Seq<Operand>) -> Option<usize> {
    if ops.len() > 0 {
        as_name(ops.last())
    } else {
        None
    }
}

pub fn nums(ops: &Vec<Operand>) -> (r: Vec<usize>)
    ensures
        r@ == numbers(ops@, ops@.len() as int),
{
    let mut r: Vec<usize> = Vec::new();
    let mut n: usize = 0;
    while n < ops.len()
        invariant
            n <= ops@.len(),
            r@ == numbers(ops@, n as int),
        decreases ops.len() - n,
    {
        if let Operand::Num(x) = &ops[n] {
            r.push(*x);
        }
        n = n + 1;
    }
    r
}

pub fn name_in(o: &Operand) -> (r: Option<usize>)
    ensures
        r == as_name(*o),
{
    match o {
        Operand::Name(x) => Some(*x),
        _ => None,
    }
}

pub fn opening_name(ops: &Vec<Operand>) -> (r: Option<usize>)
    ensures
        r == first_name(ops@),
{
    if ops.len() > 0 {
        name_in(&ops[0])
    } else {
        None
    }
}

pub fn closing_name(ops: &Vec<Operand>) -> (r: Option<usize>)
    ensures
        r == last_name(ops@),
{
    if ops.len() > 0 {
        name_in(&ops[ops.len() - 1])
    } else {
        None
    }
}

// ── state ───────────────────────────────────────────────────────────────────

/// A colour, by the operands that set it or by the handle of a resolved one.
#[derive(Clone, Copy, Debug, PartialEq, Eq, Structural)]
pub enum Color {
    Black,
    Gray(usize),
    Rgb(usize, usize, usize),
    Cmyk(usize, usize, usize, usize),
    Resolved(usize),
}

/// The graphics state. Matrix 0 is the identity, clip 0 the one at the start,
/// blend mode 0 the normal one. A missing line width or alpha is one.
#[derive(Clone, Copy, Debug, PartialEq, Eq, Structural)]
pub struct GState {
    pub ctm: usize,
    pub fill: Color,
    pub stroke: Color,
    pub line_width: Option<usize>,
    pub clip: usize,
    pub blend: usize,
    pub fill_alpha: Option<usize>,
    pub soft_mask: Option<usize>,
    pub fill_pattern: Option<usize>,
    pub fill_space: Option<usize>,
    pub stroke_space: Option<usize>,
}

/// The distance between lines: a number, or what one falls short of zero.
#[derive(Clone, Copy, Debug, PartialEq, Eq, Structural)]
pub enum Lead {
    Zero,
    Plus(usize),
    Minus(usize),
}

/// The text state. A missing size or spacing is zero, a missing scale full.
#[derive(Clone, Copy, Debug, PartialEq, Eq, Structural)]
pub struct TextState {
    pub matrix: usize,
    pub line_matrix: usize,
    pub font: Option<usize>,
    pub size: Option<usize>,
    pub leading: Lead,
    pub char_space: Option<usize>,
    pub word_space: Option<usize>,
    pub scale: Option<usize>,
}

/// A point in user space; a missing coordinate is zero.
#[derive(Clone, Copy, Debug, PartialEq, Eq, Structural)]
pub struct Pt {
    pub x: Option<usize>,
    pub y: Option<usize>,
}

/// A piece of a path, under the matrix that was in force.
#[derive(Clone, Copy, Debug, PartialEq, Eq, Structural)]
pub enum Node {
    At { ctm: usize, p: Pt },
    /// A corner of a rectangle, counted from its origin around.
    Corner { ctm: usize, x: usize, y: usize, w: usize, h: usize, corner: u8 },
    Curve { ctm: usize, from: Pt, c1: Pt, c2: Pt, to: Pt },
}

/// What a parameter dictionary of the graphics state sets.
#[derive(Clone, Copy, Debug, PartialEq, Eq, Structural)]
pub struct Params {
    pub blend: usize,
    pub fill_alpha: Option<usize>,
    pub soft_mask: Option<usize>,
}

/// What the document answers.
#[derive(Clone, Copy, Debug, PartialEq, Eq, Structural)]
pub enum Reply {
    Nothing,
    Color(usize),
    State(Params),
    Shading(usize),
    Image(usize),
    Form(usize),
    Font(usize),
    Layer(bool),
}

/// The parts of a path, as values.
pub open spec fn path_of(p: Seq<Vec<Node>>) -> Seq<Seq<Node>> {
    Seq::new(p.len(), |i: int| p[i]@)
}

// ── colours and parameters ──────────────────────────────────────────────────

/// The colour that operands set: the one resolved in the named space; else the
/// one that the number of operands implies.
pub open spec fn set_color(space: Option<usize>, reply: Reply, n: Seq<usize>) -> Option<Color> {
    if space is Some && reply is Color {
        Some(Color::Resolved(reply->Color_0))
    } else if n.len() == 1 {
        Some(Color::Gray(n[0]))
    } else if n.len() == 3 {
        Some(Color::Rgb(n[0], n[1], n[2]))
    } else if n.len() == 4 {
        Some(Color::Cmyk(n[0], n[1], n[2], n[3]))
    } else {
        None
    }
}

/// The colour that operands set, if they set one.
pub fn resolve_set_color(space: Option<usize>, reply: Reply, n: &Vec<usize>) -> (r: Option<Color>)
    ensures
        r == set_color(space, reply, n@),
{
    if space.is_some() {
        if let Reply::Color(c) = reply {
            return Some(Color::Resolved(c));
        }
    }
    if n.len() == 1 {
        Some(Color::Gray(n[0]))
    } else if n.len() == 3 {
        Some(Color::Rgb(n[0], n[1], n[2]))
    } else if n.len() == 4 {
        Some(Color::Cmyk(n[0], n[1], n[2], n[3]))
    } else {
        None
    }
}

/// One colour, or else another.
pub open spec fn or_color(c: Option<Color>, d: Color) -> Color {
    match c {
        Some(x) => x,
        None => d,
    }
}

/// The state after an operator that sets a colour, a colour space, a line width
/// or parameters.
pub open spec fn set_state(
    g: GState,
    op: Operator,
    n: Seq<usize>,
    ops: Seq<Operand>,
    reply: Reply,
) -> GState {
    match op {
        Operator::LineWidth => if n.len() > 0 {
            GState { line_width: Some(n[0]), ..g }
        } else {
            g
        },
        Operator::FillRgb => if n.len() == 3 {
            GState {
                fill: Color::Rgb(n[0], n[1], n[2]),
                fill_pattern: None,
                fill_space: None,
                ..g
            }
        } else {
            g
        },
        Operator::StrokeRgb => if n.len() == 3 {
            GState { stroke: Color::Rgb(n[0], n[1], n[2]), stroke_space: None, ..g }
        } else {
            g
        },
        Operator::FillGray => if n.len() > 0 {
            GState { fill: Color::Gray(n[0]), fill_pattern: None, fill_space: None, ..g }
        } else {
            g
        },
        Operator::StrokeGray => if n.len() > 0 {
            GState { stroke: Color::Gray(n[0]), stroke_space: None, ..g }
        } else {
            g
        },
        Operator::FillCmyk => if n.len() == 4 {
            GState {
                fill: Color::Cmyk(n[0], n[1], n[2], n[3]),
                fill_pattern: None,
                fill_space: None,
                ..g
            }
        } else {
            g
        },
        Operator::StrokeCmyk => if n.len() == 4 {
            GState { stroke: Color::Cmyk(n[0], n[1], n[2], n[3]), stroke_space: None, ..g }
        } else {
            g
        },
        Operator::FillSpace => if first_name(ops) == Some(PATTERN) {
            GState { fill_pattern: None, fill_space: None, ..g }
        } else {
            GState {
                fill_pattern: None,
                fill_space: first_name(ops),
                fill: Color::Black,
                ..g
            }
        },
        Operator::StrokeSpace => if first_name(ops) == Some(PATTERN) {
            GState { stroke_space: None, ..g }
        } else {
            GState { stroke_space: first_name(ops), stroke: Color::Black, ..g }
        },
        Operator::FillColor => match last_name(ops) {
            Some(p) => GState { fill_pattern: Some(p), ..g },
            None => GState {
                fill_pattern: None,
                fill: or_color(set_color(g.fill_space, reply, n), g.fill),
                ..g
            },
        },
        Operator::StrokeColor => match last_name(ops) {
            Some(_) => g,
            None => GState {
                stroke: or_color(set_color(g.stroke_space, reply, n), g.stroke),
                ..g
            },
        },
        Operator::State => if first_name(ops) is Some && reply is State {
            let p = reply->State_0;
            GState {
                blend: p.blend,
                fill_alpha: if p.fill_alpha is Some {
                    p.fill_alpha
                } else {
                    g.fill_alpha
                },
                soft_mask: p.soft_mask,
                ..g
            }
        } else {
            g
        },
        _ => g,
    }
}

pub fn apply_state(g: GState, op: Operator, n: &Vec<usize>, ops: &Vec<Operand>, reply: Reply) -> (r:
    GState)
    ensures
        r == set_state(g, op, n@, ops@, reply),
{
    let mut r: GState = g;
    match op {
        Operator::LineWidth => {
            if n.len() > 0 {
                r.line_width = Some(n[0]);
            }
        },
        Operator::FillRgb => {
            if n.len() == 3 {
                r.fill = Color::Rgb(n[0], n[1], n[2]);
                r.fill_pattern = None;
                r.fill_space = None;
            }
        },
        Operator::StrokeRgb => {
            if n.len() == 3 {
                r.stroke = Color::Rgb(n[0], n[1], n[2]);
                r.stroke_space = None;
            }
        },
        Operator::FillGray => {
            if n.len() > 0 {
                r.fill = Color::Gray(n[0]);
                r.fill_pattern = None;
                r.fill_space = None;
            }
        },
        Operator::StrokeGray => {
            if n.len() > 0 {
                r.stroke = Color::Gray(n[0]);
                r.stroke_space = None;
            }
        },
        Operator::FillCmyk => {
            if n.len() == 4 {
                r.fill = Color::Cmyk(n[0], n[1], n[2], n[3]);
                r.fill_pattern = None;
                r.fill_space = None;
            }
        },
        Operator::StrokeCmyk => {
            if n.len() == 4 {
                r.stroke = Color::Cmyk(n[0], n[1], n[2], n[3]);
                r.stroke_space = None;
            }
        },
        Operator::FillSpace => {
            r.fill_pattern = None;
            let name: Option<usize> = opening_name(ops);
            if name == Some(PATTERN) {
                r.fill_space = None;
            } else {
                r.fill_space = name;
                r.fill = Color::Black;
            }
        },
        Operator::StrokeSpace => {
            let name: Option<usize> = opening_name(ops);
            if name == Some(PATTERN) {
                r.stroke_space = None;
            } else {
                r.stroke_space = name;
                r.stroke = Color::Black;
            }
        },
        Operator::FillColor => match closing_name(ops) {
            Some(p) => {
                r.fill_pattern = Some(p);
            },
            None => {
                r.fill_pattern = None;
                if let Some(c) = resolve_set_color(g.fill_space, reply, n) {
                    r.fill = c;
                }
            },
        },
        Operator::StrokeColor => match closing_name(ops) {
            Some(_) => {},
            None => {
                if let Some(c) = resolve_set_color(g.stroke_space, reply, n) {
                    r.stroke = c;
                }
            },
        },
        Operator::State => {
            if opening_name(ops).is_some() {
                if let Reply::State(p) = reply {
                    r.blend = p.blend;
                    if p.fill_alpha.is_some() {
                        r.fill_alpha = p.fill_alpha;
                    }
                    r.soft_mask = p.soft_mask;
                }
            }
        },
        _ => {},
    }
    r
}

// ── paths ───────────────────────────────────────────────────────────────────

pub open spec fn pt(x: usize, y: usize) -> Pt {
    Pt { x: Some(x), y: Some(y) }
}

/// The control points and the end of a curve.
pub open spec fn controls(op: Operator, n: Seq<usize>, cur: Pt) -> Option<(Pt, Pt, Pt)> {
    match op {
        Operator::Curve => if n.len() == 6 {
            Some((pt(n[0], n[1]), pt(n[2], n[3]), pt(n[4], n[5])))
        } else {
            None
        },
        Operator::CurveFromHere => if n.len() == 4 {
            Some((cur, pt(n[0], n[1]), pt(n[2], n[3])))
        } else {
            None
        },
        Operator::CurveToEnd => if n.len() == 4 {
            Some((pt(n[0], n[1]), pt(n[2], n[3]), pt(n[2], n[3])))
        } else {
            None
        },
        _ => None,
    }
}

/// The control points and the end of a curve: given in full, or with the first
/// at the current point, or with the second at the end.
pub fn bezier_control_points(op: Operator, n: &Vec<usize>, cur: Pt) -> (r: Option<(Pt, Pt, Pt)>)
    ensures
        r == controls(op, n@, cur),
{
    match op {
        Operator::Curve => if n.len() == 6 {
            Some(
                (
                    Pt { x: Some(n[0]), y: Some(n[1]) },
                    Pt { x: Some(n[2]), y: Some(n[3]) },
                    Pt { x: Some(n[4]), y: Some(n[5]) },
                ),
            )
        } else {
            None
        },
        Operator::CurveFromHere => if n.len() == 4 {
            Some((cur, Pt { x: Some(n[0]), y: Some(n[1]) }, Pt { x: Some(n[2]), y: Some(n[3]) }))
        } else {
            None
        },
        Operator::CurveToEnd => if n.len() == 4 {
            let end = Pt { x: Some(n[2]), y: Some(n[3]) };
            Some((Pt { x: Some(n[0]), y: Some(n[1]) }, end, end))
        } else {
            None
        },
        _ => None,
    }
}

/// A path with one more piece on its last part; one without parts stays empty.
pub open spec fn extended(path: Seq<Seq<Node>>, node: Node) -> Seq<Seq<Node>> {
    if path.len() == 0 {
        path
    } else {
        path.drop_last().push(path.last().push(node))
    }
}

/// The corners of a rectangle.
pub open spec fn corners(ctm: usize, n: Seq<usize>) -> Seq<Node> {
    Seq::new(
        4,
        |k: int|
            Node::Corner { ctm, x: n[0], y: n[1], w: n[2], h: n[3], corner: k as u8 },
    )
}

/// The path and the current point after an operator.
pub open spec fn set_path(
    path: Seq<Seq<Node>>,
    cur: Pt,
    ctm: usize,
    op: Operator,
    n: Seq<usize>,
) -> (Seq<Seq<Node>>, Pt) {
    match op {
        Operator::Move => if n.len() == 2 {
            let p = pt(n[0], n[1]);
            (path.push(seq![Node::At { ctm, p }]), p)
        } else {
            (path, cur)
        },
        Operator::Line => if n.len() == 2 {
            let p = pt(n[0], n[1]);
            (extended(path, Node::At { ctm, p }), p)
        } else {
            (path, cur)
        },
        Operator::Rect => if n.len() == 4 {
            (path.push(corners(ctm, n)), pt(n[0], n[1]))
        } else {
            (path, cur)
        },
        _ => match controls(op, n, cur) {
            Some((c1, c2, to)) => (
                extended(path, Node::Curve { ctm, from: cur, c1, c2, to }),
                to,
            ),
            None => (path, cur),
        },
    }
}

pub fn push_node(path: &mut Vec<Vec<Node>>, node: Node)
    ensures
        path_of(final(path)@) == extended(path_of(old(path)@), node),
{
    let ghost p0 = path@;
    match path.pop() {
        Some(last) => {
            let mut last: Vec<Node> = last;
            last.push(node);
            path.push(last);
            assert(path_of(path@) =~= extended(path_of(p0), node));
        },
        None => {
            assert(path_of(path@) =~= path_of(p0));
        },
    }
}

pub fn build_path(path: &mut Vec<Vec<Node>>, cur: Pt, ctm: usize, op: Operator, n: &Vec<usize>) -> (r:
    Pt)
    ensures
        (path_of(final(path)@), r) == set_path(path_of(old(path)@), cur, ctm, op, n@),
{
    let ghost p0 = path@;
    match op {
        Operator::Move => {
            if n.len() == 2 {
                let p = Pt { x: Some(n[0]), y: Some(n[1]) };
                let mut part: Vec<Node> = Vec::new();
                part.push(Node::At { ctm, p });
                assert(part@ =~= seq![Node::At { ctm, p }]);
                path.push(part);
                assert(path_of(path@) =~= path_of(p0).push(seq![Node::At { ctm, p }]));
                return p;
            }
            cur
        },
        Operator::Line => {
            if n.len() == 2 {
                let p = Pt { x: Some(n[0]), y: Some(n[1]) };
                push_node(path, Node::At { ctm, p });
                return p;
            }
            cur
        },
        Operator::Rect => {
            if n.len() == 4 {
                let mut part: Vec<Node> = Vec::new();
                let mut k: u8 = 0;
                while k < 4
                    invariant
                        k <= 4,
                        n@.len() == 4,
                        part@.len() == k,
                        forall|j: int| 0 <= j < k ==> part@[j] == corners(ctm, n@)[j],
                    decreases 4 - k,
                {
                    part.push(
                        Node::Corner { ctm, x: n[0], y: n[1], w: n[2], h: n[3], corner: k },
                    );
                    k = k + 1;
                }
                assert(part@ =~= corners(ctm, n@));
                path.push(part);
                assert(path_of(path@) =~= path_of(p0).push(corners(ctm, n@)));
                return Pt { x: Some(n[0]), y: Some(n[1]) };
            }
            cur
        },
        _ => match bezier_control_points(op, n, cur) {
            Some((c1, c2, to)) => {
                push_node(path, Node::Curve { ctm, from: cur, c1, c2, to });
                to
            },
            None => cur,
        },
    }
}

/// A path has edges: some part of it has two pieces or more.
pub open spec fn has_edges(path: Seq<Seq<Node>>) -> bool {
    exists|i: int| 0 <= i < path.len() && (#[trigger] path[i]).len() >= 2
}

pub fn path_has_edges(path: &Vec<Vec<Node>>) -> (r: bool)
    ensures
        r == has_edges(path_of(path@)),
{
    let mut i: usize = 0;
    while i < path.len()
        invariant
            i <= path@.len(),
            forall|k: int| 0 <= k < i ==> (#[trigger] path@[k])@.len() < 2,
        decreases path.len() - i,
    {
        if path[i].len() >= 2 {
            assert(path_of(path@)[i as int].len() >= 2);
            return true;
        }
        i = i + 1;
    }
    proof {
        let p = path_of(path@);
        assert forall|k: int| 0 <= k < p.len() implies (#[trigger] p[k]).len() < 2 by {
            assert(path@[k]@.len() < 2);
        }
    }
    false
}

} // verus!
