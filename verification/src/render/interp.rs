//! The interpreter of content streams.
//!
//! The interpreter walks over the operators of a stream. Before each step the
//! caller answers what the interpreter asks of the document; after it the
//! caller carries out the actions of the step. Matrices and clips are numbered
//! as they come up, and an action tells how a new one is made from those
//! before it.
use super::operators::{operator_named, operator_of, Operator};
use super::state::{
    apply_state, build_path, closing_name, first_name, has_edges, last_name, numbers, nums,
    opening_name, path_has_edges, path_of, set_path, set_state, Color, GState, Item, Lead, Node,
    Op, Operand, Pt, Reply, TextState, OPTIONAL,
};
use vstd::prelude::*;

verus! {

/// What the interpreter asks of the document.
#[derive(Clone, Copy, Debug, PartialEq, Eq, Structural)]
pub enum Ask {
    Nothing,
    /// The colour of the operands in a colour space.
    Color(usize),
    State(usize),
    Shading(usize),
    XObject(usize),
    Inline(usize),
    Font(usize),
    /// Whether the layer that the second operand names is shown.
    Layer,
}

/// How a new matrix turns what comes before it.
#[derive(Clone, Copy, Debug, PartialEq, Eq, Structural)]
pub enum Turn {
    Six { a: usize, b: usize, c: usize, d: usize, e: usize, f: usize },
    Shift { x: usize, y: usize },
    /// One line down.
    Down(Lead),
    /// Back by a share of the font size.
    Kern { by: usize, size: Option<usize>, scale: Option<usize> },
}

/// What is to be done.
#[derive(Debug)]
pub enum Action {
    /// Matrix `id` is `turn`, and then matrix `base`.
    Matrix { id: usize, turn: Turn, base: usize },
    /// A path is filled (by the even-odd rule or not) and stroked, where
    /// `shown`; then clip `id` is made of the one in force and the path.
    Paint {
        path: Vec<Vec<Node>>,
        fill: Option<bool>,
        stroke: bool,
        shown: bool,
        clip: Option<(bool, usize)>,
        state: GState,
    },
    Shade { shading: usize, state: GState },
    Image { image: usize, state: GState },
    Form { form: usize, state: GState },
    /// A string is shown, where `shown`; matrix `next` is the text matrix moved
    /// on by its width.
    Show { text: usize, text_state: TextState, next: usize, shown: bool, state: GState },
}

/// An action, as a value.
pub ghost enum Act {
    Matrix { id: usize, turn: Turn, base: usize },
    Paint {
        path: Seq<Seq<Node>>,
        fill: Option<bool>,
        stroke: bool,
        shown: bool,
        clip: Option<(bool, usize)>,
        state: GState,
    },
    Shade { shading: usize, state: GState },
    Image { image: usize, state: GState },
    Form { form: usize, state: GState },
    Show { text: usize, text_state: TextState, next: usize, shown: bool, state: GState },
}

pub open spec fn act_of(a: Action) -> Act {
    match a {
        Action::Matrix { id, turn, base } => Act::Matrix { id, turn, base },
        Action::Paint { path, fill, stroke, shown, clip, state } => Act::Paint {
            path: path_of(path@),
            fill,
            stroke,
            shown,
            clip,
            state,
        },
        Action::Shade { shading, state } => Act::Shade { shading, state },
        Action::Image { image, state } => Act::Image { image, state },
        Action::Form { form, state } => Act::Form { form, state },
        Action::Show { text, text_state, next, shown, state } => Act::Show {
            text,
            text_state,
            next,
            shown,
            state,
        },
    }
}

pub open spec fn acts_of(s: Seq<Action>) -> Seq<Act> {
    Seq::new(s.len(), |i: int| act_of(s[i]))
}

/// The state of the interpreter.
#[verifier::ext_equal]
pub ghost struct Machine {
    pub g: GState,
    pub stack: Seq<GState>,
    pub path: Seq<Seq<Node>>,
    pub cur: Pt,
    pub pending: Option<bool>,
    pub text: TextState,
    pub layers: Seq<bool>,
    /// The numbers of the next matrix and the next clip.
    pub matrices: int,
    pub clips: int,
    pub skip_text: bool,
    pub forms: bool,
}

/// Some open layer is hidden.
pub open spec fn hidden(layers: Seq<bool>) -> bool {
    exists|i: int| 0 <= i < layers.len() && !#[trigger] layers[i]
}

/// How many open layers are hidden.
pub open spec fn hidden_count(layers: Seq<bool>) -> nat
    decreases layers.len(),
{
    if layers.len() == 0 {
        0
    } else {
        hidden_count(layers.drop_last()) + (if layers.last() {
            0nat
        } else {
            1nat
        })
    }
}

proof fn lemma_hidden(layers: Seq<bool>)
    ensures
        hidden(layers) <==> hidden_count(layers) > 0,
        hidden_count(layers) <= layers.len(),
    decreases layers.len(),
{
    if layers.len() > 0 {
        let t = layers.drop_last();
        lemma_hidden(t);
        if hidden(t) {
            let i = choose|i: int| 0 <= i < t.len() && !#[trigger] t[i];
            assert(!layers[i]);
        }
        if hidden(layers) {
            let i = choose|i: int| 0 <= i < layers.len() && !#[trigger] layers[i];
            if i < t.len() {
                assert(!t[i]);
            }
        }
        if !layers.last() {
            assert(!layers[layers.len() - 1]);
        }
    }
}

// ── text ────────────────────────────────────────────────────────────────────

/// The machine after both text matrices became a new one.
pub open spec fn turned(m: Machine) -> Machine {
    let id = m.matrices as usize;
    Machine {
        text: TextState { matrix: id, line_matrix: id, ..m.text },
        matrices: m.matrices + 1,
        ..m
    }
}

/// A new matrix is `turn` and then `base`.
pub open spec fn turn_act(m: Machine, turn: Turn, base: usize) -> Act {
    Act::Matrix { id: m.matrices as usize, turn, base }
}

/// The machine with another text state.
pub open spec fn with_text(m: Machine, text: TextState) -> Machine {
    Machine { text, ..m }
}

/// The machine after a string was shown, and the action; nothing happens
/// without a font.
pub open spec fn show(m: Machine, text: usize, skip: bool) -> (Machine, Seq<Act>) {
    if m.text.font is None {
        (m, Seq::empty())
    } else {
        let id = m.matrices as usize;
        (
            Machine {
                text: TextState { matrix: id, ..m.text },
                matrices: m.matrices + 1,
                ..m
            },
            seq![
                Act::Show {
                    text,
                    text_state: m.text,
                    next: id,
                    shown: !skip && !m.skip_text,
                    state: m.g,
                },
            ],
        )
    }
}

/// The machine after an item of a list, and the actions.
pub open spec fn show_item(m: Machine, item: Item, skip: bool) -> (Machine, Seq<Act>) {
    match item {
        Item::Text(t) => show(m, t, skip),
        Item::Num(by) => {
            let id = m.matrices as usize;
            (
                Machine {
                    text: TextState { matrix: id, ..m.text },
                    matrices: m.matrices + 1,
                    ..m
                },
                seq![
                    turn_act(
                        m,
                        Turn::Kern { by, size: m.text.size, scale: m.text.scale },
                        m.text.matrix,
                    ),
                ],
            )
        },
        Item::Other => (m, Seq::empty()),
    }
}

/// The machine after the first `n` items of a list, and the actions.
pub open spec fn show_items(m: Machine, items: Seq<Item>, n: int, skip: bool) -> (
    Machine,
    Seq<Act>,
)
    decreases n,
{
    if n <= 0 {
        (m, Seq::empty())
    } else {
        let (m1, a1) = show_items(m, items, n - 1, skip);
        let (m2, a2) = show_item(m1, items[n - 1], skip);
        (m2, a1 + a2)
    }
}

/// The machine after the string that is the last operand was shown.
pub open spec fn show_last(m: Machine, ops: Seq<Operand>, skip: bool) -> (Machine, Seq<Act>) {
    if ops.len() > 0 && ops.last() is Text {
        show(m, ops.last()->Text_0, skip)
    } else {
        (m, Seq::empty())
    }
}

/// The machine after a line down and the string that is the last operand.
pub open spec fn show_below(m: Machine, ops: Seq<Operand>, skip: bool) -> (Machine, Seq<Act>) {
    let down = turn_act(m, Turn::Down(m.text.leading), m.text.line_matrix);
    let (m2, acts) = show_last(turned(m), ops, skip);
    (m2, seq![down] + acts)
}

/// A number, or else what was there.
pub open spec fn num_or(o: Operand, old: Option<usize>) -> Option<usize> {
    match o {
        Operand::Num(x) => Some(x),
        _ => old,
    }
}

/// The machine after an operator on text, and the actions.
pub open spec fn set_text(
    m: Machine,
    op: Operator,
    n: Seq<usize>,
    ops: Seq<Operand>,
    reply: Reply,
    skip: bool,
) -> (Machine, Seq<Act>) {
    let t = m.text;
    match op {
        Operator::BeginText => (
            with_text(m, TextState { matrix: 0, line_matrix: 0, ..t }),
            Seq::empty(),
        ),
        Operator::Font => {
            let font = if first_name(ops) is Some {
                if reply is Font {
                    Some(reply->Font_0)
                } else {
                    None
                }
            } else {
                t.font
            };
            let size = if n.len() > 0 {
                Some(n.last())
            } else {
                t.size
            };
            (with_text(m, TextState { font, size, ..t }), Seq::empty())
        },
        Operator::TextMove => if n.len() == 2 {
            (
                turned(m),
                seq![turn_act(m, Turn::Shift { x: n[0], y: n[1] }, t.line_matrix)],
            )
        } else {
            (m, Seq::empty())
        },
        Operator::TextMoveLead => if n.len() == 2 {
            (
                turned(with_text(m, TextState { leading: Lead::Minus(n[1]), ..t })),
                seq![turn_act(m, Turn::Shift { x: n[0], y: n[1] }, t.line_matrix)],
            )
        } else {
            (m, Seq::empty())
        },
        Operator::TextMatrix => if n.len() == 6 {
            (
                turned(m),
                seq![
                    turn_act(
                        m,
                        Turn::Six { a: n[0], b: n[1], c: n[2], d: n[3], e: n[4], f: n[5] },
                        0,
                    ),
                ],
            )
        } else {
            (m, Seq::empty())
        },
        Operator::NextLine => (
            turned(m),
            seq![turn_act(m, Turn::Down(t.leading), t.line_matrix)],
        ),
        Operator::Leading => if n.len() > 0 {
            (with_text(m, TextState { leading: Lead::Plus(n[0]), ..t }), Seq::empty())
        } else {
            (m, Seq::empty())
        },
        Operator::CharSpace => if n.len() > 0 {
            (with_text(m, TextState { char_space: Some(n[0]), ..t }), Seq::empty())
        } else {
            (m, Seq::empty())
        },
        Operator::WordSpace => if n.len() > 0 {
            (with_text(m, TextState { word_space: Some(n[0]), ..t }), Seq::empty())
        } else {
            (m, Seq::empty())
        },
        Operator::Scale => if n.len() > 0 {
            (with_text(m, TextState { scale: Some(n[0]), ..t }), Seq::empty())
        } else {
            (m, Seq::empty())
        },
        Operator::Show => show_last(m, ops, skip),
        Operator::NextShow => show_below(m, ops, skip),
        Operator::NextShowSpaced => if ops.len() >= 3 {
            show_below(
                with_text(
                    m,
                    TextState {
                        word_space: num_or(ops[0], t.word_space),
                        char_space: num_or(ops[1], t.char_space),
                        ..t
                    },
                ),
                ops,
                skip,
            )
        } else {
            show_below(m, ops, skip)
        },
        Operator::ShowList => if t.font is Some && ops.len() > 0 && ops[0] is List {
            let items = ops[0]->List_0@;
            show_items(m, items, items.len() as int, skip)
        } else {
            (m, Seq::empty())
        },
        _ => (m, Seq::empty()),
    }
}

// ── steps ───────────────────────────────────────────────────────────────────

/// The machine after a path was painted, and the action. The path is done with;
/// a clip that was armed takes effect, where the path has edges.
pub open spec fn paint(
    m: Machine,
    fill: bool,
    stroke: bool,
    even_odd: bool,
    skip: bool,
) -> (Machine, Seq<Act>) {
    let clips = m.pending is Some && has_edges(m.path);
    let id = m.clips as usize;
    let clip = if clips {
        Some((m.pending->0, id))
    } else {
        None
    };
    (
        Machine {
            g: if clips {
                GState { clip: id, ..m.g }
            } else {
                m.g
            },
            path: Seq::empty(),
            pending: None,
            clips: if clips {
                m.clips + 1
            } else {
                m.clips
            },
            ..m
        },
        seq![
            Act::Paint {
                path: m.path,
                fill: if fill {
                    Some(even_odd)
                } else {
                    None
                },
                stroke,
                shown: !skip,
                clip,
                state: m.g,
            },
        ],
    )
}

/// What is drawn by an operator that draws something of the document.
pub open spec fn drawn(m: Machine, op: Operator, ops: Seq<Operand>, reply: Reply) -> Seq<Act> {
    match op {
        Operator::Shade => if first_name(ops) is Some && reply is Shading {
            seq![Act::Shade { shading: reply->Shading_0, state: m.g }]
        } else {
            Seq::empty()
        },
        Operator::Draw => if first_name(ops) is Some && reply is Image {
            seq![Act::Image { image: reply->Image_0, state: m.g }]
        } else if first_name(ops) is Some && reply is Form && m.forms {
            seq![Act::Form { form: reply->Form_0, state: m.g }]
        } else {
            Seq::empty()
        },
        Operator::Inline => if ops.len() > 0 && ops[0] is Text && reply is Image {
            seq![Act::Image { image: reply->Image_0, state: m.g }]
        } else {
            Seq::empty()
        },
        _ => Seq::empty(),
    }
}

/// The layer that an operator opens is shown: it is no optional content, or the
/// document does not say that it is hidden.
pub open spec fn layer_shown(op: Operator, ops: Seq<Operand>, reply: Reply) -> bool {
    !(op is BeginTagged && first_name(ops) == Some(OPTIONAL) && ops.len() > 1 && reply
        == Reply::Layer(false))
}

/// The machine after a step, and the actions. What is excluded, or stands in a
/// hidden layer, is not painted.
pub open spec fn after(
    m: Machine,
    op: Operator,
    ops: Seq<Operand>,
    reply: Reply,
    excluded: bool,
) -> (Machine, Seq<Act>) {
    let n = numbers(ops, ops.len() as int);
    let skip = excluded || hidden(m.layers);
    match op {
        Operator::Save => (Machine { stack: m.stack.push(m.g), ..m }, Seq::empty()),
        Operator::Restore => if m.stack.len() > 0 {
            (Machine { g: m.stack.last(), stack: m.stack.drop_last(), ..m }, Seq::empty())
        } else {
            (m, Seq::empty())
        },
        Operator::Concat => if n.len() == 6 {
            let id = m.matrices as usize;
            (
                Machine { g: GState { ctm: id, ..m.g }, matrices: m.matrices + 1, ..m },
                seq![
                    turn_act(
                        m,
                        Turn::Six { a: n[0], b: n[1], c: n[2], d: n[3], e: n[4], f: n[5] },
                        m.g.ctm,
                    ),
                ],
            )
        } else {
            (m, Seq::empty())
        },
        Operator::LineWidth | Operator::FillRgb | Operator::StrokeRgb | Operator::FillGray
        | Operator::StrokeGray | Operator::FillCmyk | Operator::StrokeCmyk | Operator::FillSpace
        | Operator::StrokeSpace | Operator::FillColor | Operator::StrokeColor | Operator::State => (
            Machine { g: set_state(m.g, op, n, ops, reply), ..m },
            Seq::empty(),
        ),
        Operator::Move | Operator::Line | Operator::Curve | Operator::CurveFromHere
        | Operator::CurveToEnd | Operator::Rect => {
            let (path, cur) = set_path(m.path, m.cur, m.g.ctm, op, n);
            (Machine { path, cur, ..m }, Seq::empty())
        },
        Operator::Clip { even_odd } => (Machine { pending: Some(even_odd), ..m }, Seq::empty()),
        Operator::Paint { fill, stroke, even_odd } => paint(m, fill, stroke, even_odd, skip),
        Operator::Shade | Operator::Draw | Operator::Inline => (
            m,
            if skip {
                Seq::empty()
            } else {
                drawn(m, op, ops, reply)
            },
        ),
        Operator::BeginTagged | Operator::BeginMarked => (
            Machine { layers: m.layers.push(layer_shown(op, ops, reply)), ..m },
            Seq::empty(),
        ),
        Operator::EndMarked => if m.layers.len() > 0 {
            (Machine { layers: m.layers.drop_last(), ..m }, Seq::empty())
        } else {
            (m, Seq::empty())
        },
        Operator::Unknown => (m, Seq::empty()),
        _ => set_text(m, op, n, ops, reply, skip),
    }
}

/// What a step asks of the document.
pub open spec fn question(
    m: Machine,
    op: Operator,
    ops: Seq<Operand>,
    excluded: bool,
) -> Ask {
    let skip = excluded || hidden(m.layers);
    match op {
        Operator::FillColor => if last_name(ops) is None && m.g.fill_space is Some {
            Ask::Color(m.g.fill_space->0)
        } else {
            Ask::Nothing
        },
        Operator::StrokeColor => if last_name(ops) is None && m.g.stroke_space is Some {
            Ask::Color(m.g.stroke_space->0)
        } else {
            Ask::Nothing
        },
        Operator::State => match first_name(ops) {
            Some(x) => Ask::State(x),
            None => Ask::Nothing,
        },
        Operator::Shade => match first_name(ops) {
            Some(x) => if skip {
                Ask::Nothing
            } else {
                Ask::Shading(x)
            },
            None => Ask::Nothing,
        },
        Operator::Draw => match first_name(ops) {
            Some(x) => if skip {
                Ask::Nothing
            } else {
                Ask::XObject(x)
            },
            None => Ask::Nothing,
        },
        Operator::Inline => if !skip && ops.len() > 0 && ops[0] is Text {
            Ask::Inline(ops[0]->Text_0)
        } else {
            Ask::Nothing
        },
        Operator::Font => match first_name(ops) {
            Some(x) => Ask::Font(x),
            None => Ask::Nothing,
        },
        Operator::BeginTagged => if first_name(ops) == Some(OPTIONAL) && ops.len() > 1 {
            Ask::Layer
        } else {
            Ask::Nothing
        },
        _ => Ask::Nothing,
    }
}

// ── the interpreter ─────────────────────────────────────────────────────────

/// An interpreter.
#[derive(Debug)]
pub struct Interp {
    g: GState,
    stack: Vec<GState>,
    path: Vec<Vec<Node>>,
    cur: Pt,
    pending: Option<bool>,
    text: TextState,
    layers: Vec<bool>,
    hidden: usize,
    matrices: usize,
    clips: usize,
    skip_text: bool,
    forms: bool,
}

/// The graphics state at the start.
pub open spec fn start_state() -> GState {
    GState {
        ctm: 0,
        fill: Color::Black,
        stroke: Color::Black,
        line_width: None,
        clip: 0,
        blend: 0,
        fill_alpha: None,
        soft_mask: None,
        fill_pattern: None,
        fill_space: None,
        stroke_space: None,
    }
}

/// The text state at the start.
pub open spec fn start_text() -> TextState {
    TextState {
        matrix: 0,
        line_matrix: 0,
        font: None,
        size: None,
        leading: Lead::Zero,
        char_space: None,
        word_space: None,
        scale: None,
    }
}

/// The machine at the start.
pub open spec fn start(skip_text: bool, forms: bool) -> Machine {
    Machine {
        g: start_state(),
        stack: Seq::empty(),
        path: Seq::empty(),
        cur: Pt { x: None, y: None },
        pending: None,
        text: start_text(),
        layers: Seq::empty(),
        matrices: 1,
        clips: 1,
        skip_text,
        forms,
    }
}

/// How many items the first operand lists.
pub open spec fn list_len(ops: Seq<Operand>) -> nat {
    if ops.len() > 0 && ops[0] is List {
        ops[0]->List_0@.len()
    } else {
        0
    }
}

/// There are numbers left for the matrices and the clip that a step may make.
pub open spec fn has_room(m: Machine, ops: Seq<Operand>) -> bool {
    m.matrices + list_len(ops) + 2 <= usize::MAX && m.clips < usize::MAX
}

proof fn lemma_acts_push(s: Seq<Action>, a: Action)
    ensures
        acts_of(s.push(a)) == acts_of(s).push(act_of(a)),
{
    assert(acts_of(s.push(a)) =~= acts_of(s).push(act_of(a)));
}

fn push_action(out: &mut Vec<Action>, a: Action)
    ensures
        acts_of(final(out)@) == acts_of(old(out)@) + seq![act_of(a)],
{
    proof {
        lemma_acts_push(out@, a);
    }
    out.push(a);
    assert(acts_of(out@) =~= acts_of(old(out)@) + seq![act_of(a)]);
}

impl Interp {
    pub closed spec fn view(&self) -> Machine {
        Machine {
            g: self.g,
            stack: self.stack@,
            path: path_of(self.path@),
            cur: self.cur,
            pending: self.pending,
            text: self.text,
            layers: self.layers@,
            matrices: self.matrices as int,
            clips: self.clips as int,
            skip_text: self.skip_text,
            forms: self.forms,
        }
    }

    pub closed spec fn wf(&self) -> bool {
        self.hidden == hidden_count(self.layers@)
    }

    /// An interpreter at the start of a stream. Where `skip_text`, no text is
    /// painted; where not `forms`, no form is drawn.
    pub fn new(skip_text: bool, forms: bool) -> (r: Interp)
        ensures
            r.wf(),
            r@ == start(skip_text, forms),
    {
        let r = Interp {
            g: GState {
                ctm: 0,
                fill: Color::Black,
                stroke: Color::Black,
                line_width: None,
                clip: 0,
                blend: 0,
                fill_alpha: None,
                soft_mask: None,
                fill_pattern: None,
                fill_space: None,
                stroke_space: None,
            },
            stack: Vec::new(),
            path: Vec::new(),
            cur: Pt { x: None, y: None },
            pending: None,
            text: TextState {
                matrix: 0,
                line_matrix: 0,
                font: None,
                size: None,
                leading: Lead::Zero,
                char_space: None,
                word_space: None,
                scale: None,
            },
            layers: Vec::new(),
            hidden: 0,
            matrices: 1,
            clips: 1,
            skip_text,
            forms,
        };
        assert(r@ =~= start(skip_text, forms));
        r
    }

    /// Whether a step paints nothing.
    fn skips(&self, excluded: bool) -> (r: bool)
        requires
            self.wf(),
        ensures
            r == (excluded || hidden(self@.layers)),
    {
        proof {
            lemma_hidden(self.layers@);
        }
        excluded || self.hidden > 0
    }

    /// Make both text matrices a new one.
    fn turn(&mut self, turn: Turn, base: usize, out: &mut Vec<Action>)
        requires
            old(self).wf(),
            old(self)@.matrices < usize::MAX,
        ensures
            final(self).wf(),
            final(self)@ == turned(old(self)@),
            acts_of(final(out)@) == acts_of(old(out)@) + seq![turn_act(old(self)@, turn, base)],
    {
        let id: usize = self.matrices;
        self.matrices = id + 1;
        self.text.matrix = id;
        self.text.line_matrix = id;
        push_action(out, Action::Matrix { id, turn, base });
        assert(self@ =~= turned(old(self)@));
    }

    fn show_text(&mut self, text: usize, skip: bool, out: &mut Vec<Action>)
        requires
            old(self).wf(),
            old(self)@.matrices < usize::MAX,
        ensures
            final(self).wf(),
            final(self)@ == show(old(self)@, text, skip).0,
            acts_of(final(out)@) == acts_of(old(out)@) + show(old(self)@, text, skip).1,
    {
        if self.text.font.is_none() {
            assert(acts_of(out@) + Seq::<Act>::empty() =~= acts_of(out@));
            return;
        }
        let id: usize = self.matrices;
        push_action(
            out,
            Action::Show {
                text,
                text_state: self.text,
                next: id,
                shown: !skip && !self.skip_text,
                state: self.g,
            },
        );
        self.matrices = id + 1;
        self.text.matrix = id;
        assert(self@ =~= show(old(self)@, text, skip).0);
    }

    fn show_one(&mut self, item: Item, skip: bool, out: &mut Vec<Action>)
        requires
            old(self).wf(),
            old(self)@.matrices < usize::MAX,
        ensures
            final(self).wf(),
            final(self)@ == show_item(old(self)@, item, skip).0,
            acts_of(final(out)@) == acts_of(old(out)@) + show_item(old(self)@, item, skip).1,
            final(self)@.matrices <= old(self)@.matrices + 1,
    {
        match item {
            Item::Text(t) => self.show_text(t, skip, out),
            Item::Num(by) => {
                let id: usize = self.matrices;
                let base: usize = self.text.matrix;
                let turn = Turn::Kern { by, size: self.text.size, scale: self.text.scale };
                push_action(out, Action::Matrix { id, turn, base });
                self.matrices = id + 1;
                self.text.matrix = id;
                assert(self@ =~= show_item(old(self)@, item, skip).0);
            },
            Item::Other => {
                assert(acts_of(out@) + Seq::<Act>::empty() =~= acts_of(out@));
            },
        }
    }

    fn show_all(&mut self, items: &Vec<Item>, skip: bool, out: &mut Vec<Action>)
        requires
            old(self).wf(),
            old(self)@.matrices + items@.len() <= usize::MAX,
        ensures
            final(self).wf(),
            final(self)@ == show_items(old(self)@, items@, items@.len() as int, skip).0,
            acts_of(final(out)@) == acts_of(old(out)@) + show_items(
                old(self)@,
                items@,
                items@.len() as int,
                skip,
            ).1,
    {
        let ghost m = self@;
        let ghost out0 = acts_of(out@);
        let mut n: usize = 0;
        assert(acts_of(out@) =~= out0 + show_items(m, items@, 0, skip).1);
        while n < items.len()
            invariant
                n <= items@.len(),
                self.wf(),
                m.matrices + items@.len() <= usize::MAX,
                self@.matrices <= m.matrices + n,
                self@ == show_items(m, items@, n as int, skip).0,
                acts_of(out@) == out0 + show_items(m, items@, n as int, skip).1,
            decreases items.len() - n,
        {
            self.show_one(items[n], skip, out);
            n = n + 1;
            assert(acts_of(out@) =~= out0 + show_items(m, items@, n as int, skip).1);
        }
    }

    fn show_closing(&mut self, ops: &Vec<Operand>, skip: bool, out: &mut Vec<Action>)
        requires
            old(self).wf(),
            old(self)@.matrices < usize::MAX,
        ensures
            final(self).wf(),
            final(self)@ == show_last(old(self)@, ops@, skip).0,
            acts_of(final(out)@) == acts_of(old(out)@) + show_last(old(self)@, ops@, skip).1,
    {
        if ops.len() > 0 {
            if let Operand::Text(t) = &ops[ops.len() - 1] {
                self.show_text(*t, skip, out);
                return;
            }
        }
        assert(acts_of(out@) + Seq::<Act>::empty() =~= acts_of(out@));
    }

    fn show_next_line(&mut self, ops: &Vec<Operand>, skip: bool, out: &mut Vec<Action>)
        requires
            old(self).wf(),
            old(self)@.matrices + 1 < usize::MAX,
        ensures
            final(self).wf(),
            final(self)@ == show_below(old(self)@, ops@, skip).0,
            acts_of(final(out)@) == acts_of(old(out)@) + show_below(old(self)@, ops@, skip).1,
    {
        let ghost out0 = acts_of(out@);
        let ghost m = self@;
        let leading: Lead = self.text.leading;
        let base: usize = self.text.line_matrix;
        self.turn(Turn::Down(leading), base, out);
        self.show_closing(ops, skip, out);
        assert(acts_of(out@) =~= out0 + show_below(m, ops@, skip).1);
    }

    fn set_font(&mut self, n: &Vec<usize>, ops: &Vec<Operand>, reply: Reply)
        requires
            old(self).wf(),
        ensures
            final(self).wf(),
            final(self)@ == set_text(old(self)@, Operator::Font, n@, ops@, reply, false).0,
    {
        if opening_name(ops).is_some() {
            self.text.font = match reply {
                Reply::Font(f) => Some(f),
                _ => None,
            };
        }
        if n.len() > 0 {
            self.text.size = Some(n[n.len() - 1]);
        }
        assert(self@ =~= set_text(old(self)@, Operator::Font, n@, ops@, reply, false).0);
    }

    #[verifier::rlimit(30)]
    fn text_step(
        &mut self,
        op: Operator,
        n: &Vec<usize>,
        ops: &Vec<Operand>,
        reply: Reply,
        skip: bool,
        out: &mut Vec<Action>,
    )
        requires
            old(self).wf(),
            has_room(old(self)@, ops@),
        ensures
            final(self).wf(),
            final(self)@ == set_text(old(self)@, op, n@, ops@, reply, skip).0,
            acts_of(final(out)@) == acts_of(old(out)@) + set_text(
                old(self)@,
                op,
                n@,
                ops@,
                reply,
                skip,
            ).1,
    {
        let ghost m = self@;
        let ghost goal = set_text(m, op, n@, ops@, reply, skip);
        assert(acts_of(out@) + Seq::<Act>::empty() =~= acts_of(out@));
        match op {
            Operator::BeginText => {
                self.text.matrix = 0;
                self.text.line_matrix = 0;
                assert(self@ =~= goal.0);
            },
            Operator::Font => {
                self.set_font(n, ops, reply);
            },
            Operator::TextMove => {
                if n.len() == 2 {
                    let base: usize = self.text.line_matrix;
                    self.turn(Turn::Shift { x: n[0], y: n[1] }, base, out);
                }
            },
            Operator::TextMoveLead => {
                if n.len() == 2 {
                    self.text.leading = Lead::Minus(n[1]);
                    let base: usize = self.text.line_matrix;
                    assert(self@ =~= with_text(
                        m,
                        TextState { leading: Lead::Minus(n@[1]), ..m.text },
                    ));
                    self.turn(Turn::Shift { x: n[0], y: n[1] }, base, out);
                }
            },
            Operator::TextMatrix => {
                if n.len() == 6 {
                    self.turn(
                        Turn::Six { a: n[0], b: n[1], c: n[2], d: n[3], e: n[4], f: n[5] },
                        0,
                        out,
                    );
                }
            },
            Operator::NextLine => {
                let base: usize = self.text.line_matrix;
                let leading: Lead = self.text.leading;
                self.turn(Turn::Down(leading), base, out);
            },
            Operator::Leading => {
                if n.len() > 0 {
                    self.text.leading = Lead::Plus(n[0]);
                    assert(self@ =~= goal.0);
                }
            },
            Operator::CharSpace => {
                if n.len() > 0 {
                    self.text.char_space = Some(n[0]);
                    assert(self@ =~= goal.0);
                }
            },
            Operator::WordSpace => {
                if n.len() > 0 {
                    self.text.word_space = Some(n[0]);
                    assert(self@ =~= goal.0);
                }
            },
            Operator::Scale => {
                if n.len() > 0 {
                    self.text.scale = Some(n[0]);
                    assert(self@ =~= goal.0);
                }
            },
            Operator::Show => {
                self.show_closing(ops, skip, out);
            },
            Operator::NextShow => {
                self.show_next_line(ops, skip, out);
            },
            Operator::NextShowSpaced => {
                if ops.len() >= 3 {
                    if let Operand::Num(x) = &ops[0] {
                        self.text.word_space = Some(*x);
                    }
                    if let Operand::Num(x) = &ops[1] {
                        self.text.char_space = Some(*x);
                    }
                    assert(self@ =~= with_text(
                        m,
                        TextState {
                            word_space: num_or(ops@[0], m.text.word_space),
                            char_space: num_or(ops@[1], m.text.char_space),
                            ..m.text
                        },
                    ));
                }
                self.show_next_line(ops, skip, out);
            },
            Operator::ShowList => {
                if self.text.font.is_some() && ops.len() > 0 {
                    if let Operand::List(items) = &ops[0] {
                        self.show_all(items, skip, out);
                    }
                }
            },
            _ => {},
        }
    }

    fn paint_step(
        &mut self,
        fill: bool,
        stroke: bool,
        even_odd: bool,
        skip: bool,
        out: &mut Vec<Action>,
    )
        requires
            old(self).wf(),
            old(self)@.clips < usize::MAX,
        ensures
            final(self).wf(),
            final(self)@ == paint(old(self)@, fill, stroke, even_odd, skip).0,
            acts_of(final(out)@) == acts_of(old(out)@) + paint(
                old(self)@,
                fill,
                stroke,
                even_odd,
                skip,
            ).1,
    {
        let ghost m = self@;
        let state: GState = self.g;
        let mut clip: Option<(bool, usize)> = None;
        if let Some(rule) = self.pending {
            if path_has_edges(&self.path) {
                clip = Some((rule, self.clips));
                self.g.clip = self.clips;
                self.clips = self.clips + 1;
            }
        }
        self.pending = None;
        let mut path: Vec<Vec<Node>> = Vec::new();
        core::mem::swap(&mut path, &mut self.path);
        let fill_rule: Option<bool> = if fill {
            Some(even_odd)
        } else {
            None
        };
        push_action(
            out,
            Action::Paint { path, fill: fill_rule, stroke, shown: !skip, clip, state },
        );
        assert(path_of(self.path@) =~= Seq::empty());
        assert(self@ =~= paint(m, fill, stroke, even_odd, skip).0);
    }

    fn draw_step(&self, op: Operator, ops: &Vec<Operand>, reply: Reply, out: &mut Vec<Action>)
        ensures
            acts_of(final(out)@) == acts_of(old(out)@) + drawn(self@, op, ops@, reply),
    {
        assert(acts_of(out@) + Seq::<Act>::empty() =~= acts_of(out@));
        match op {
            Operator::Shade => {
                if opening_name(ops).is_some() {
                    if let Reply::Shading(shading) = reply {
                        push_action(out, Action::Shade { shading, state: self.g });
                    }
                }
            },
            Operator::Draw => {
                if opening_name(ops).is_some() {
                    match reply {
                        Reply::Image(image) => {
                            push_action(out, Action::Image { image, state: self.g });
                        },
                        Reply::Form(form) => {
                            if self.forms {
                                push_action(out, Action::Form { form, state: self.g });
                            }
                        },
                        _ => {},
                    }
                }
            },
            Operator::Inline => {
                if ops.len() > 0 {
                    if let Operand::Text(_) = &ops[0] {
                        if let Reply::Image(image) = reply {
                            push_action(out, Action::Image { image, state: self.g });
                        }
                    }
                }
            },
            _ => {},
        }
    }

    fn open_layer(&mut self, op: Operator, ops: &Vec<Operand>, reply: Reply)
        requires
            old(self).wf(),
        ensures
            final(self).wf(),
            final(self)@ == (Machine {
                layers: old(self)@.layers.push(layer_shown(op, ops@, reply)),
                ..old(self)@
            }),
    {
        let mut shown: bool = true;
        if op == Operator::BeginTagged && ops.len() > 1 && opening_name(ops) == Some(OPTIONAL) {
            if let Reply::Layer(v) = reply {
                shown = v;
            }
        }
        let ghost layers0 = self.layers@;
        proof {
            lemma_hidden(layers0);
        }
        self.layers.push(shown);
        let count: usize = self.layers.len();
        assert(self.layers@.drop_last() =~= layers0);
        if !shown {
            self.hidden = self.hidden + 1;
        }
        assert(self@ =~= (Machine {
            layers: old(self)@.layers.push(layer_shown(op, ops@, reply)),
            ..old(self)@
        }));
    }

    fn close_layer(&mut self)
        requires
            old(self).wf(),
        ensures
            final(self).wf(),
            final(self)@ == (if old(self)@.layers.len() > 0 {
                Machine { layers: old(self)@.layers.drop_last(), ..old(self)@ }
            } else {
                old(self)@
            }),
    {
        if let Some(shown) = self.layers.pop() {
            if !shown {
                self.hidden = self.hidden - 1;
            }
            assert(self@ =~= (Machine { layers: old(self)@.layers.drop_last(), ..old(self)@ }));
        }
    }

    /// What the next step asks of the document.
    pub fn ask(&self, op: &Op, excluded: bool) -> (r: Ask)
        requires
            self.wf(),
        ensures
            r == question(self@, operator_named(op.name@), op.operands@, excluded),
    {
        let ops: &Vec<Operand> = &op.operands;
        let skip: bool = self.skips(excluded);
        match operator_of(op.name.as_slice()) {
            Operator::FillColor => match (closing_name(ops), self.g.fill_space) {
                (None, Some(space)) => Ask::Color(space),
                _ => Ask::Nothing,
            },
            Operator::StrokeColor => match (closing_name(ops), self.g.stroke_space) {
                (None, Some(space)) => Ask::Color(space),
                _ => Ask::Nothing,
            },
            Operator::State => match opening_name(ops) {
                Some(x) => Ask::State(x),
                None => Ask::Nothing,
            },
            Operator::Shade => match opening_name(ops) {
                Some(x) => if skip {
                    Ask::Nothing
                } else {
                    Ask::Shading(x)
                },
                None => Ask::Nothing,
            },
            Operator::Draw => match opening_name(ops) {
                Some(x) => if skip {
                    Ask::Nothing
                } else {
                    Ask::XObject(x)
                },
                None => Ask::Nothing,
            },
            Operator::Inline => {
                if !skip && ops.len() > 0 {
                    if let Operand::Text(t) = &ops[0] {
                        return Ask::Inline(*t);
                    }
                }
                Ask::Nothing
            },
            Operator::Font => match opening_name(ops) {
                Some(x) => Ask::Font(x),
                None => Ask::Nothing,
            },
            Operator::BeginTagged => if ops.len() > 1 && opening_name(ops) == Some(OPTIONAL) {
                Ask::Layer
            } else {
                Ask::Nothing
            },
            _ => Ask::Nothing,
        }
    }

    /// Whether there are numbers left for what a step may make.
    pub fn has_room(&self, op: &Op) -> (r: bool)
        ensures
            r == has_room(self@, op.operands@),
    {
        let n: usize = if op.operands.len() > 0 {
            match &op.operands[0] {
                Operand::List(items) => items.len(),
                _ => 0,
            }
        } else {
            0
        };
        let left: usize = usize::MAX - self.matrices;
        left >= 2 && left - 2 >= n && self.clips < usize::MAX
    }

    /// Take a step: the operator acts on the state, and what it paints is added
    /// to the actions. What is excluded, or stands in a hidden layer, is not
    /// painted, but acts on the state all the same.
    #[verifier::rlimit(40)]
    pub fn step(&mut self, op: &Op, reply: Reply, excluded: bool, out: &mut Vec<Action>)
        requires
            old(self).wf(),
            has_room(old(self)@, op.operands@),
        ensures
            final(self).wf(),
            final(self)@ == after(
                old(self)@,
                operator_named(op.name@),
                op.operands@,
                reply,
                excluded,
            ).0,
            acts_of(final(out)@) == acts_of(old(out)@) + after(
                old(self)@,
                operator_named(op.name@),
                op.operands@,
                reply,
                excluded,
            ).1,
    {
        let ghost m = self@;
        let ghost name = operator_named(op.name@);
        let ghost goal = after(m, name, op.operands@, reply, excluded);
        let ops: &Vec<Operand> = &op.operands;
        let operator: Operator = operator_of(op.name.as_slice());
        let n: Vec<usize> = nums(ops);
        let skip: bool = self.skips(excluded);
        assert(acts_of(out@) + Seq::<Act>::empty() =~= acts_of(out@));
        match operator {
            Operator::Save => {
                self.stack.push(self.g);
                assert(self@ =~= goal.0);
            },
            Operator::Restore => {
                if let Some(g) = self.stack.pop() {
                    self.g = g;
                    assert(self@ =~= goal.0);
                }
            },
            Operator::Concat => {
                if n.len() == 6 {
                    let id: usize = self.matrices;
                    let turn = Turn::Six { a: n[0], b: n[1], c: n[2], d: n[3], e: n[4], f: n[5] };
                    push_action(out, Action::Matrix { id, turn, base: self.g.ctm });
                    self.matrices = id + 1;
                    self.g.ctm = id;
                    assert(self@ =~= goal.0);
                }
            },
            Operator::LineWidth
            | Operator::FillRgb
            | Operator::StrokeRgb
            | Operator::FillGray
            | Operator::StrokeGray
            | Operator::FillCmyk
            | Operator::StrokeCmyk
            | Operator::FillSpace
            | Operator::StrokeSpace
            | Operator::FillColor
            | Operator::StrokeColor
            | Operator::State => {
                self.g = apply_state(self.g, operator, &n, ops, reply);
                assert(self@ =~= goal.0);
            },
            Operator::Move
            | Operator::Line
            | Operator::Curve
            | Operator::CurveFromHere
            | Operator::CurveToEnd
            | Operator::Rect => {
                let cur: Pt = self.cur;
                let ctm: usize = self.g.ctm;
                self.cur = build_path(&mut self.path, cur, ctm, operator, &n);
                assert(self@ =~= goal.0);
            },
            Operator::Clip { even_odd } => {
                self.pending = Some(even_odd);
                assert(self@ =~= goal.0);
            },
            Operator::Paint { fill, stroke, even_odd } => {
                self.paint_step(fill, stroke, even_odd, skip, out);
            },
            Operator::Shade | Operator::Draw | Operator::Inline => {
                if !skip {
                    self.draw_step(operator, ops, reply, out);
                }
            },
            Operator::BeginTagged | Operator::BeginMarked => {
                self.open_layer(operator, ops, reply);
            },
            Operator::EndMarked => {
                self.close_layer();
            },
            Operator::Unknown => {},
            _ => {
                self.text_step(operator, &n, ops, reply, skip, out);
            },
        }
    }
}

/// What is answered to the drawing of an object.
pub open spec fn object_answer(
    visible: bool,
    image: Option<usize>,
    form: Option<usize>,
    forms: bool,
) -> Reply {
    if !visible {
        Reply::Nothing
    } else if image is Some {
        Reply::Image(image->0)
    } else if forms && form is Some {
        Reply::Form(form->0)
    } else {
        Reply::Nothing
    }
}

/// The answer to the drawing of an object: nothing where it is hidden; else its
/// image; else its form, where forms are drawn. `image` and `form` are what its
/// name stands for.
pub fn object_reply(
    visible: bool,
    image: Option<usize>,
    form: Option<usize>,
    forms: bool,
) -> (r: Reply)
    ensures
        r == object_answer(visible, image, form, forms),
{
    if !visible {
        return Reply::Nothing;
    }
    match (image, form) {
        (Some(i), _) => Reply::Image(i),
        (None, Some(f)) if forms => Reply::Form(f),
        _ => Reply::Nothing,
    }
}

/// Resources that hold nothing: no name resolves to anything, and every layer is
/// shown.
#[derive(Clone, Copy, Debug, PartialEq, Eq, Structural)]
pub struct NoResources;

impl NoResources {
    /// The answer to a question.
    pub fn answer(&self, ask: Ask) -> (r: Reply)
        ensures
            r == (if ask is Layer {
                Reply::Layer(true)
            } else {
                Reply::Nothing
            }),
    {
        match ask {
            Ask::Layer => Reply::Layer(true),
            _ => Reply::Nothing,
        }
    }
}

// ── laws ────────────────────────────────────────────────────────────────────

/// An action leaves marks on the page.
pub open spec fn leaves_marks(a: Act) -> bool {
    match a {
        Act::Matrix { .. } => false,
        Act::Paint { fill, stroke, shown, .. } => shown && (fill is Some || stroke),
        Act::Shade { .. } => true,
        Act::Image { .. } => true,
        Act::Form { .. } => true,
        Act::Show { shown, .. } => shown,
    }
}

proof fn lemma_items_state(m: Machine, items: Seq<Item>, n: int)
    ensures
        show_items(m, items, n, true).0 == show_items(m, items, n, false).0,
    decreases n,
{
    if n > 0 {
        lemma_items_state(m, items, n - 1);
    }
}

/// Whether something is excluded makes no difference to the state: what
/// follows stands where it would have stood.
pub proof fn law_exclusion_keeps_state(
    m: Machine,
    op: Operator,
    ops: Seq<Operand>,
    reply: Reply,
)
    ensures
        after(m, op, ops, reply, true).0 == after(m, op, ops, reply, false).0,
{
    if op is ShowList && ops.len() > 0 && ops[0] is List {
        let items = ops[0]->List_0@;
        lemma_items_state(m, items, items.len() as int);
    }
}

proof fn lemma_items_unmarked(m: Machine, items: Seq<Item>, n: int, i: int)
    requires
        0 <= i < show_items(m, items, n, true).1.len(),
    ensures
        !leaves_marks(show_items(m, items, n, true).1[i]),
    decreases n,
{
    if n > 0 {
        let (m1, a1) = show_items(m, items, n - 1, true);
        if i < a1.len() {
            lemma_items_unmarked(m, items, n - 1, i);
        }
    }
}

/// What is excluded, or stands in a hidden layer, leaves no marks.
pub proof fn law_excluded_leaves_no_marks(
    m: Machine,
    op: Operator,
    ops: Seq<Operand>,
    reply: Reply,
    excluded: bool,
    i: int,
)
    requires
        excluded || hidden(m.layers),
        0 <= i < after(m, op, ops, reply, excluded).1.len(),
    ensures
        !leaves_marks(after(m, op, ops, reply, excluded).1[i]),
{
    if op is ShowList && ops.len() > 0 && ops[0] is List && m.text.font is Some {
        let items = ops[0]->List_0@;
        lemma_items_unmarked(m, items, items.len() as int, i);
    }
}

/// Inside a hidden layer everything is hidden, whatever layers are opened
/// further in.
pub proof fn law_hidden_layer_hides_inner(
    m: Machine,
    op: Operator,
    ops: Seq<Operand>,
    reply: Reply,
    excluded: bool,
)
    requires
        hidden(m.layers),
        op is BeginTagged || op is BeginMarked,
    ensures
        hidden(after(m, op, ops, reply, excluded).0.layers),
{
    let i = choose|i: int| 0 <= i < m.layers.len() && !#[trigger] m.layers[i];
    assert(!after(m, op, ops, reply, excluded).0.layers[i]);
}

/// Closing a layer that was just opened brings back the layers before it.
pub proof fn law_layers_balance(
    m: Machine,
    op: Operator,
    ops: Seq<Operand>,
    reply: Reply,
    ops2: Seq<Operand>,
    reply2: Reply,
    excluded: bool,
)
    requires
        op is BeginTagged || op is BeginMarked,
    ensures
        after(
            after(m, op, ops, reply, excluded).0,
            Operator::EndMarked,
            ops2,
            reply2,
            excluded,
        ).0 == m,
{
    let inner = after(m, op, ops, reply, excluded).0;
    assert(inner.layers.drop_last() =~= m.layers);
    assert(after(inner, Operator::EndMarked, ops2, reply2, excluded).0 =~= m);
}

/// Restoring brings back the graphics state that was saved, whatever became of
/// it in between, as long as what was saved in between was restored.
pub proof fn law_restore_undoes_save(
    m: Machine,
    inner: Machine,
    ops: Seq<Operand>,
    reply: Reply,
    excluded: bool,
)
    requires
        inner.stack == after(m, Operator::Save, ops, reply, excluded).0.stack,
    ensures
        after(inner, Operator::Restore, ops, reply, excluded).0.g == m.g,
        after(inner, Operator::Restore, ops, reply, excluded).0.stack == m.stack,
{
    assert(inner.stack.drop_last() =~= m.stack);
}

proof fn lemma_items_no_text(m: Machine, items: Seq<Item>, n: int, skip: bool, i: int)
    requires
        m.skip_text,
        0 <= i < show_items(m, items, n, skip).1.len(),
    ensures
        !leaves_marks(show_items(m, items, n, skip).1[i]),
    decreases n,
{
    if n > 0 {
        lemma_skip_text_stays(m, items, n - 1, skip);
        let (m1, a1) = show_items(m, items, n - 1, skip);
        if i < a1.len() {
            lemma_items_no_text(m, items, n - 1, skip, i);
        }
    }
}

proof fn lemma_skip_text_stays(m: Machine, items: Seq<Item>, n: int, skip: bool)
    ensures
        show_items(m, items, n, skip).0.skip_text == m.skip_text,
    decreases n,
{
    if n > 0 {
        lemma_skip_text_stays(m, items, n - 1, skip);
    }
}

/// Where text is skipped, no text leaves marks.
pub proof fn law_skipped_text_leaves_no_marks(
    m: Machine,
    op: Operator,
    ops: Seq<Operand>,
    reply: Reply,
    excluded: bool,
    i: int,
)
    requires
        m.skip_text,
        0 <= i < after(m, op, ops, reply, excluded).1.len(),
    ensures
        after(m, op, ops, reply, excluded).1[i] is Show ==> !leaves_marks(
            after(m, op, ops, reply, excluded).1[i],
        ),
{
    if op is ShowList && ops.len() > 0 && ops[0] is List && m.text.font is Some {
        let items = ops[0]->List_0@;
        let skip = excluded || hidden(m.layers);
        lemma_items_no_text(m, items, items.len() as int, skip, i);
    }
}

} // verus!
