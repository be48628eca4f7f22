//! What the operators of content streams do to each other's effects.
use super::interp::{
    after, hidden, object_answer, question, show, show_item, show_items, Act, Ask, Machine, Turn,
};
use super::operators::{operator_named, Operator};
use super::state::{
    extended, first_name, has_edges, last_name, numbers, pt, Color, Item, Lead, Node, Operand,
    Params, Pt, Reply, OPTIONAL, PATTERN,
};
use vstd::prelude::*;

verus! {

/// The operator with a name of two letters.
pub open spec fn op2(a: char, b: char) -> Operator {
    operator_named(seq![a as u8, b as u8])
}

/// The operator with a name of one letter.
pub open spec fn op1(a: char) -> Operator {
    operator_named(seq![a as u8])
}

/// The operator with a name of three letters.
pub open spec fn op3(a: char, b: char, c: char) -> Operator {
    operator_named(seq![a as u8, b as u8, c as u8])
}

/// The numbers among operands.
pub open spec fn nums_of(ops: Seq<Operand>) -> Seq<usize> {
    numbers(ops, ops.len() as int)
}

// ── lines of text ───────────────────────────────────────────────────────────

/// Two machines that differ at most in where the next glyph goes.
pub open spec fn same_but_pen(a: Machine, b: Machine) -> bool {
    &&& a.g == b.g
    &&& a.stack == b.stack
    &&& a.path == b.path
    &&& a.cur == b.cur
    &&& a.pending == b.pending
    &&& a.layers == b.layers
    &&& a.clips == b.clips
    &&& a.skip_text == b.skip_text
    &&& a.forms == b.forms
    &&& a.text.line_matrix == b.text.line_matrix
    &&& a.text.font == b.text.font
    &&& a.text.size == b.text.size
    &&& a.text.leading == b.text.leading
    &&& a.text.char_space == b.text.char_space
    &&& a.text.word_space == b.text.word_space
    &&& a.text.scale == b.text.scale
}

proof fn lemma_items_keep(m: Machine, items: Seq<Item>, n: int, skip: bool)
    ensures
        same_but_pen(m, show_items(m, items, n, skip).0),
    decreases n,
{
    if n > 0 {
        lemma_items_keep(m, items, n - 1, skip);
    }
}

/// Showing a string, or a list of strings, moves the pen and changes nothing
/// else: neither where the line began nor any other part of the state.
pub proof fn law_showing_moves_only_the_pen(
    m: Machine,
    ops: Seq<Operand>,
    reply: Reply,
    excluded: bool,
)
    ensures
        same_but_pen(m, after(m, op2('T', 'j'), ops, reply, excluded).0),
        same_but_pen(m, after(m, op2('T', 'J'), ops, reply, excluded).0),
{
    if ops.len() > 0 && ops[0] is List {
        let items = ops[0]->List_0@;
        lemma_items_keep(m, items, items.len() as int, excluded || hidden(m.layers));
    }
}

/// The machine after the first `n` of some showings, each of a string or, where
/// `listed`, of a list.
pub open spec fn after_shown(
    m: Machine,
    shows: Seq<Seq<Operand>>,
    listed: Seq<bool>,
    reply: Reply,
    excluded: bool,
    n: int,
) -> Machine
    decreases n,
{
    if n <= 0 {
        m
    } else {
        after(
            after_shown(m, shows, listed, reply, excluded, n - 1),
            if listed[n - 1] {
                op2('T', 'J')
            } else {
                op2('T', 'j')
            },
            shows[n - 1],
            reply,
            excluded,
        ).0
    }
}

proof fn lemma_after_shown(
    m: Machine,
    shows: Seq<Seq<Operand>>,
    listed: Seq<bool>,
    reply: Reply,
    excluded: bool,
    n: int,
)
    ensures
        same_but_pen(m, after_shown(m, shows, listed, reply, excluded, n)),
    decreases n,
{
    if n > 0 {
        lemma_after_shown(m, shows, listed, reply, excluded, n - 1);
        law_showing_moves_only_the_pen(
            after_shown(m, shows, listed, reply, excluded, n - 1),
            shows[n - 1],
            reply,
            excluded,
        );
    }
}

/// The operators that begin a line where they find what they need: a move by
/// two numbers, with or without the leading, and a line down.
pub open spec fn begins_line(op: Operator, ops: Seq<Operand>) -> bool {
    ||| op == op2('T', 'd') && nums_of(ops).len() == 2
    ||| op == op2('T', 'D') && nums_of(ops).len() == 2
    ||| op == op2('T', '*')
}

/// Showing text does not move where the next line starts: after any strings are
/// shown, the matrix that the next line begins with has the same shift and the
/// same base as it would have without them, and the base is the matrix that the
/// line began with.
pub proof fn law_text_does_not_move_the_next_line(
    m: Machine,
    shows: Seq<Seq<Operand>>,
    listed: Seq<bool>,
    n: int,
    op: Operator,
    ops: Seq<Operand>,
    reply: Reply,
    excluded: bool,
)
    requires
        begins_line(op, ops),
    ensures
        ({
            let plain = after(m, op, ops, reply, excluded).1;
            let shown = after(
                after_shown(m, shows, listed, reply, excluded, n),
                op,
                ops,
                reply,
                excluded,
            ).1;
            &&& plain.len() == 1 && shown.len() == 1
            &&& plain[0] matches Act::Matrix { turn: s, base: b, .. } && b == m.text.line_matrix && (
            shown[0] matches Act::Matrix { turn: t, base: c, .. } && s == t && b == c)
        }),
{
    lemma_after_shown(m, shows, listed, reply, excluded, n);
}

/// A line begins where its matrix says: the matrix just made is the one the pen
/// stands at and the one that the line after it is counted from.
pub proof fn law_lines_begin_at_their_matrix(
    m: Machine,
    op: Operator,
    ops: Seq<Operand>,
    reply: Reply,
    excluded: bool,
)
    requires
        begins_line(op, ops) || (op == op2('T', 'm') && nums_of(ops).len() == 6),
    ensures
        ({
            let (m2, acts) = after(m, op, ops, reply, excluded);
            &&& acts.len() == 1
            &&& acts[0] matches Act::Matrix { id, base, .. } && m2.text.matrix == id
                && m2.text.line_matrix == id && id == m.matrices as usize && (op == op2('T', 'm')
                ==> base == 0)
            &&& m2.matrices == m.matrices + 1
            &&& m2.g == m.g && m2.path == m.path && m2.stack == m.stack
        }),
{
}

/// A text object begins at the origin, whatever came before it, and keeps the
/// font, the spacings and the leading.
pub proof fn law_text_begins_at_the_origin(
    m: Machine,
    ops: Seq<Operand>,
    reply: Reply,
    excluded: bool,
)
    ensures
        ({
            let t = after(m, op2('B', 'T'), ops, reply, excluded).0.text;
            &&& t.matrix == 0 && t.line_matrix == 0
            &&& t.font == m.text.font && t.size == m.text.size && t.leading == m.text.leading
            &&& t.char_space == m.text.char_space && t.word_space == m.text.word_space
            &&& t.scale == m.text.scale
        }),
{
}

/// What a lead comes to.
pub open spec fn lead_value(l: Lead, val: spec_fn(usize) -> int) -> int {
    match l {
        Lead::Zero => 0,
        Lead::Plus(x) => val(x),
        Lead::Minus(x) => -val(x),
    }
}

/// How far a turn moves, where it only moves: a line down lowers the pen by the
/// lead.
pub open spec fn shift_of(turn: Turn, val: spec_fn(usize) -> int) -> Option<(int, int)> {
    match turn {
        Turn::Shift { x, y } => Some((val(x), val(y))),
        Turn::Down(l) => Some((0, -lead_value(l, val))),
        _ => None,
    }
}

/// The shift of the first matrix that is made.
pub open spec fn first_shift(acts: Seq<Act>, val: spec_fn(usize) -> int) -> Option<(int, int)> {
    if acts.len() > 0 {
        match acts[0] {
            Act::Matrix { turn, .. } => shift_of(turn, val),
            _ => None,
        }
    } else {
        None
    }
}

/// A move by `x` and `y` moves by `x` and `y`, in this order. Where it also sets
/// the leading, each line down after it goes down as far again, straight below.
pub proof fn law_move_sets_the_leading(
    m: Machine,
    ops: Seq<Operand>,
    down: Seq<Operand>,
    reply: Reply,
    excluded: bool,
    val: spec_fn(usize) -> int,
)
    requires
        nums_of(ops).len() == 2,
    ensures
        ({
            let n = nums_of(ops);
            let (m2, acts) = after(m, op2('T', 'D'), ops, reply, excluded);
            let (m3, acts3) = after(m, op2('T', 'd'), ops, reply, excluded);
            &&& first_shift(acts, val) == Some((val(n[0]), val(n[1])))
            &&& acts == acts3
            &&& m3.text.leading == m.text.leading
            &&& first_shift(after(m2, op2('T', '*'), down, reply, excluded).1, val) == Some(
                (0int, val(n[1])),
            )
            &&& first_shift(after(m2, op1('\''), down, reply, excluded).1, val) == Some(
                (0int, val(n[1])),
            )
        }),
{
}

/// A leading that was set is how far each line down goes down.
pub proof fn law_leading_is_the_way_down(
    m: Machine,
    ops: Seq<Operand>,
    down: Seq<Operand>,
    reply: Reply,
    excluded: bool,
    val: spec_fn(usize) -> int,
)
    requires
        nums_of(ops).len() > 0,
    ensures
        ({
            let m2 = after(m, op2('T', 'L'), ops, reply, excluded).0;
            let below = Some((0int, -val(nums_of(ops)[0])));
            &&& same_but_leading(m, m2)
            &&& first_shift(after(m2, op2('T', '*'), down, reply, excluded).1, val) == below
            &&& first_shift(after(m2, op1('\''), down, reply, excluded).1, val) == below
        }),
{
}

/// Two machines that differ at most in the leading.
pub open spec fn same_but_leading(a: Machine, b: Machine) -> bool {
    &&& same_but_pen(Machine { text: b.text, ..a }, b)
    &&& a.text.matrix == b.text.matrix
    &&& a.text.line_matrix == b.text.line_matrix
    &&& a.text.font == b.text.font
    &&& a.text.size == b.text.size
    &&& a.text.char_space == b.text.char_space
    &&& a.text.word_space == b.text.word_space
    &&& a.text.scale == b.text.scale
    &&& a.matrices == b.matrices
}

/// Showing a string on the next line is going a line down and showing it.
pub proof fn law_next_line_and_show(
    m: Machine,
    ops: Seq<Operand>,
    reply: Reply,
    excluded: bool,
)
    ensures
        ({
            let (m1, a1) = after(m, op2('T', '*'), ops, reply, excluded);
            let (m2, a2) = after(m1, op2('T', 'j'), ops, reply, excluded);
            let (m3, a3) = after(m, op1('\''), ops, reply, excluded);
            m3 == m2 && a3 == a1 + a2
        }),
{
}

/// Showing a string on the next line with spacings is setting the space of
/// words, then that of characters, and showing it on the next line.
pub proof fn law_spacings_and_show(
    m: Machine,
    words: Seq<Operand>,
    chars: Seq<Operand>,
    ops: Seq<Operand>,
    reply: Reply,
    excluded: bool,
)
    requires
        ops.len() == 3,
        ops[0] is Num,
        ops[1] is Num,
        words == seq![ops[0]],
        chars == seq![ops[1]],
    ensures
        ({
            let m1 = after(m, op2('T', 'w'), words, reply, excluded).0;
            let m2 = after(m1, op2('T', 'c'), chars, reply, excluded).0;
            after(m, op1('"'), ops, reply, excluded) == after(m2, op1('\''), ops, reply, excluded)
        }),
{
    assert(numbers(words, 0) =~= Seq::empty());
    assert(numbers(chars, 0) =~= Seq::empty());
    assert(numbers(words, 1) =~= seq![ops[0]->Num_0]);
    assert(numbers(chars, 1) =~= seq![ops[1]->Num_0]);
    let m1 = after(m, op2('T', 'w'), words, reply, excluded).0;
    let m2 = after(m1, op2('T', 'c'), chars, reply, excluded).0;
    assert(m2.text.word_space == Some(ops[0]->Num_0));
    assert(m2.text.char_space == Some(ops[1]->Num_0));
}

/// Each of the parameters of text is set by its own operator and by no other
/// one: spacings, scale and font.
pub proof fn law_text_parameters_are_apart(
    m: Machine,
    ops: Seq<Operand>,
    reply: Reply,
    excluded: bool,
)
    requires
        nums_of(ops).len() > 0,
    ensures
        ({
            let t = m.text;
            let x = Some(nums_of(ops)[0]);
            let c = after(m, op2('T', 'c'), ops, reply, excluded).0.text;
            let w = after(m, op2('T', 'w'), ops, reply, excluded).0.text;
            let z = after(m, op2('T', 'z'), ops, reply, excluded).0.text;
            let f = after(m, op2('T', 'f'), ops, reply, excluded).0.text;
            &&& c.char_space == x && c.word_space == t.word_space && c.scale == t.scale && c.size
                == t.size
            &&& w.word_space == x && w.char_space == t.char_space && w.scale == t.scale && w.size
                == t.size
            &&& z.scale == x && z.char_space == t.char_space && z.word_space == t.word_space
                && z.size == t.size
            &&& f.size == Some(nums_of(ops).last()) && f.char_space == t.char_space
                && f.word_space == t.word_space && f.scale == t.scale
            &&& c.matrix == t.matrix && w.matrix == t.matrix && z.matrix == t.matrix && f.matrix
                == t.matrix
            &&& c.line_matrix == t.line_matrix && w.line_matrix == t.line_matrix && z.line_matrix
                == t.line_matrix && f.line_matrix == t.line_matrix
            &&& first_name(ops) is Some && reply is Font ==> f.font == Some(reply->Font_0)
            &&& first_name(ops) is Some && !(reply is Font) ==> f.font is None
            &&& first_name(ops) is None ==> f.font == t.font
        }),
{
}

/// The matrix that a piece of a showing starts from.
pub open spec fn pen_before(a: Act) -> Option<usize> {
    match a {
        Act::Matrix { base, .. } => Some(base),
        Act::Show { text_state, .. } => Some(text_state.matrix),
        _ => None,
    }
}

/// The matrix that a piece of a showing leads to.
pub open spec fn pen_after(a: Act) -> Option<usize> {
    match a {
        Act::Matrix { id, .. } => Some(id),
        Act::Show { next, .. } => Some(next),
        _ => None,
    }
}

/// The pieces of a showing follow each other, from the pen of `m` to that of
/// `m2`.
pub open spec fn pen_moves(m: Machine, acts: Seq<Act>, m2: Machine) -> bool {
    &&& acts.len() == 0 ==> m2.text.matrix == m.text.matrix
    &&& acts.len() > 0 ==> pen_before(acts[0]) == Some(m.text.matrix) && pen_after(acts.last())
        == Some(m2.text.matrix)
    &&& forall|i: int|
        0 <= i < acts.len() - 1 ==> pen_after(#[trigger] acts[i]) == pen_before(acts[i + 1])
    &&& forall|i: int| 0 <= i < acts.len() ==> shows_as(#[trigger] acts[i], m)
}

/// A string is shown with the state and the text parameters in force.
pub open spec fn shows_as(a: Act, m: Machine) -> bool {
    match a {
        Act::Show { state, text_state, .. } => {
            &&& state == m.g
            &&& text_state.font == m.text.font
            &&& text_state.size == m.text.size
            &&& text_state.char_space == m.text.char_space
            &&& text_state.word_space == m.text.word_space
            &&& text_state.scale == m.text.scale
        },
        _ => true,
    }
}

/// What an item of a list asks for: a string is shown, and a number moves the
/// pen back by a share of the size.
pub open spec fn does(a: Act, item: Item, m: Machine) -> bool {
    match item {
        Item::Text(t) => a matches Act::Show { text, .. } && text == t,
        Item::Num(x) => a matches Act::Matrix { turn: Turn::Kern { by, size, scale }, .. } && by
            == x && size == m.text.size && scale == m.text.scale,
        Item::Other => false,
    }
}

proof fn lemma_items_follow(m: Machine, items: Seq<Item>, n: int, skip: bool)
    requires
        0 <= n <= items.len(),
        m.text.font is Some,
    ensures
        ({
            let (m2, acts) = show_items(m, items, n, skip);
            let kept = items.take(n).filter(|i: Item| !(i is Other));
            &&& pen_moves(m, acts, m2)
            &&& acts.len() == kept.len()
            &&& forall|i: int| 0 <= i < acts.len() ==> does(#[trigger] acts[i], kept[i], m)
        }),
    decreases n,
{
    reveal(Seq::filter);
    if n > 0 {
        lemma_items_follow(m, items, n - 1, skip);
        lemma_items_keep(m, items, n - 1, skip);
        let (m1, a1) = show_items(m, items, n - 1, skip);
        let (m2, a2) = show_item(m1, items[n - 1], skip);
        let acts = a1 + a2;
        assert(items.take(n).drop_last() =~= items.take(n - 1));
        assert(items.take(n).last() == items[n - 1]);
        if items[n - 1] is Other {
            assert(acts =~= a1);
        } else {
            assert(a2.len() == 1);
            assert(acts.last() == a2[0]);
            assert forall|i: int| 0 <= i < acts.len() - 1 implies pen_after(#[trigger] acts[i])
                == pen_before(acts[i + 1]) by {
                if i + 1 < a1.len() {
                    assert(acts[i] == a1[i] && acts[i + 1] == a1[i + 1]);
                } else {
                    assert(acts[i] == a1.last());
                    assert(acts[i + 1] == a2[0]);
                }
            }
            if a1.len() > 0 {
                assert(acts[0] == a1[0]);
            }
            assert forall|i: int| 0 <= i < acts.len() implies shows_as(#[trigger] acts[i], m) by {
                if i < a1.len() {
                    assert(acts[i] == a1[i]);
                } else {
                    assert(acts[i] == a2[0]);
                }
            }
        }
    }
}

/// A list is shown piece by piece, in its order: each piece starts where the one
/// before it left the pen, the first where the pen stood, and the pen stands in
/// the end where the last one left it. Each string is shown with the state and
/// the text parameters in force.
pub proof fn law_lists_are_shown_in_order(
    m: Machine,
    ops: Seq<Operand>,
    reply: Reply,
    excluded: bool,
)
    requires
        m.text.font is Some,
        ops.len() > 0,
        ops[0] is List,
    ensures
        ({
            let (m2, acts) = after(m, op2('T', 'J'), ops, reply, excluded);
            let kept = ops[0]->List_0@.filter(|i: Item| !(i is Other));
            &&& pen_moves(m, acts, m2)
            &&& acts.len() == kept.len()
            &&& forall|i: int| 0 <= i < acts.len() ==> does(#[trigger] acts[i], kept[i], m)
        }),
{
    let items = ops[0]->List_0@;
    let n = items.len() as int;
    lemma_items_follow(m, items, n, excluded || hidden(m.layers));
    assert(items.take(n) =~= items);
}

/// A string is shown as a list of that string alone is.
pub proof fn law_string_is_a_list_of_one(
    m: Machine,
    ops: Seq<Operand>,
    list: Seq<Operand>,
    t: usize,
    reply: Reply,
    excluded: bool,
)
    requires
        ops.len() > 0,
        ops.last() == Operand::Text(t),
        list.len() > 0,
        list[0] is List,
        list[0]->List_0@ == seq![Item::Text(t)],
    ensures
        after(m, op2('T', 'j'), ops, reply, excluded) == after(
            m,
            op2('T', 'J'),
            list,
            reply,
            excluded,
        ),
{
    let items = list[0]->List_0@;
    let skip = excluded || hidden(m.layers);
    assert(show_items(m, items, 0, skip) == (m, Seq::<Act>::empty()));
    assert(show_items(m, items, 1, skip).1 =~= show(m, t, skip).1);
}

/// Without a font nothing is shown and the pen stays.
pub proof fn law_nothing_is_shown_without_a_font(
    m: Machine,
    ops: Seq<Operand>,
    reply: Reply,
    excluded: bool,
)
    requires
        m.text.font is None,
    ensures
        after(m, op2('T', 'j'), ops, reply, excluded) == (m, Seq::<Act>::empty()),
        after(m, op2('T', 'J'), ops, reply, excluded) == (m, Seq::<Act>::empty()),
{
}

// ── states and colours ──────────────────────────────────────────────────────

/// A new transformation is the operands, and then the one in force before. What
/// was built or set under the old one stays as it is.
pub proof fn law_transformations_are_chained(
    m: Machine,
    ops: Seq<Operand>,
    reply: Reply,
    excluded: bool,
)
    requires
        nums_of(ops).len() == 6,
    ensures
        ({
            let n = nums_of(ops);
            let (m2, acts) = after(m, op2('c', 'm'), ops, reply, excluded);
            &&& acts.len() == 1
            &&& acts[0] matches Act::Matrix { id, turn, base } && m2.g.ctm == id && base == m.g.ctm
                && turn == (Turn::Six { a: n[0], b: n[1], c: n[2], d: n[3], e: n[4], f: n[5] })
                && id == m.matrices as usize
            &&& m2.matrices == m.matrices + 1
            &&& m2.path == m.path && m2.cur == m.cur && m2.text == m.text && m2.stack == m.stack
            &&& m2.g.fill == m.g.fill && m2.g.stroke == m.g.stroke && m2.g.clip == m.g.clip
                && m2.g.line_width == m.g.line_width && m2.g.blend == m.g.blend
        }),
{
}

/// The operators that set what fills are painted with.
pub open spec fn sets_fill(op: Operator) -> bool {
    ||| op == op1('g') || op == op2('r', 'g') || op == op1('k')
    ||| op == op2('c', 's') || op == op2('s', 'c') || op == op3('s', 'c', 'n')
}

/// The operators that set what strokes are painted with.
pub open spec fn sets_stroke(op: Operator) -> bool {
    ||| op == op1('G') || op == op2('R', 'G') || op == op1('K')
    ||| op == op2('C', 'S') || op == op2('S', 'C') || op == op3('S', 'C', 'N')
}

/// What an operator sets for fills leaves strokes as they were, and the other
/// way round; neither touches the rest of the state nor paints anything.
pub proof fn law_fills_and_strokes_are_apart(
    m: Machine,
    op: Operator,
    ops: Seq<Operand>,
    reply: Reply,
    excluded: bool,
)
    requires
        sets_fill(op) || sets_stroke(op),
    ensures
        ({
            let (m2, acts) = after(m, op, ops, reply, excluded);
            let g = m2.g;
            &&& acts.len() == 0
            &&& sets_fill(op) ==> g.stroke == m.g.stroke && g.stroke_space == m.g.stroke_space
            &&& sets_stroke(op) ==> g.fill == m.g.fill && g.fill_space == m.g.fill_space
                && g.fill_pattern == m.g.fill_pattern
            &&& g.ctm == m.g.ctm && g.clip == m.g.clip && g.line_width == m.g.line_width
            &&& g.blend == m.g.blend && g.fill_alpha == m.g.fill_alpha && g.soft_mask
                == m.g.soft_mask
            &&& m2.path == m.path && m2.text == m.text && m2.stack == m.stack
        }),
{
}

/// A colour set for strokes is the one that the same operands set for fills.
pub proof fn law_strokes_take_colours_as_fills_do(
    m: Machine,
    ops: Seq<Operand>,
    reply: Reply,
    excluded: bool,
)
    requires
        m.g.fill == m.g.stroke,
        m.g.fill_space == m.g.stroke_space,
    ensures
        ({
            let f = |op: Operator| after(m, op, ops, reply, excluded).0.g;
            &&& f(op1('g')).fill == f(op1('G')).stroke
            &&& f(op2('r', 'g')).fill == f(op2('R', 'G')).stroke
            &&& f(op1('k')).fill == f(op1('K')).stroke
            &&& f(op2('c', 's')).fill == f(op2('C', 'S')).stroke
            &&& f(op2('s', 'c')).fill == f(op2('S', 'C')).stroke
            &&& f(op3('s', 'c', 'n')).fill == f(op3('S', 'C', 'N')).stroke
            &&& f(op1('g')).fill_space == f(op1('G')).stroke_space
            &&& f(op2('r', 'g')).fill_space == f(op2('R', 'G')).stroke_space
            &&& f(op1('k')).fill_space == f(op1('K')).stroke_space
            &&& f(op2('c', 's')).fill_space == f(op2('C', 'S')).stroke_space
            &&& f(op2('s', 'c')).fill_space == f(op2('S', 'C')).stroke_space
        }),
{
}

/// Components without a colour space mean what their number says: one is gray,
/// three are red, green and blue, four cyan, magenta, yellow and black, in this
/// order and as the operators for them take it.
pub proof fn law_components_tell_the_colour(
    m: Machine,
    ops: Seq<Operand>,
    reply: Reply,
    excluded: bool,
)
    requires
        m.g.fill_space is None,
        last_name(ops) is None,
    ensures
        ({
            let n = nums_of(ops);
            let f = |op: Operator| after(m, op, ops, reply, excluded).0.g;
            let set = f(op2('s', 'c')).fill;
            &&& n.len() == 1 ==> set == f(op1('g')).fill && set == Color::Gray(n[0])
            &&& n.len() == 3 ==> set == f(op2('r', 'g')).fill && set == Color::Rgb(n[0], n[1], n[2])
            &&& n.len() == 4 ==> set == f(op1('k')).fill && set == Color::Cmyk(
                n[0],
                n[1],
                n[2],
                n[3],
            )
            &&& n.len() != 1 && n.len() != 3 && n.len() != 4 ==> set == m.g.fill
            &&& f(op3('s', 'c', 'n')) == f(op2('s', 'c'))
            &&& f(op2('s', 'c')).fill_pattern is None
        }),
{
}

/// A colour set by its components stands for itself: a colour space or pattern
/// set before it has no more say.
pub proof fn law_plain_colours_end_spaces_and_patterns(
    m: Machine,
    op: Operator,
    ops: Seq<Operand>,
    reply: Reply,
    excluded: bool,
)
    requires
        ({
            let n = nums_of(ops);
            ||| op == op1('g') && n.len() == 1
            ||| op == op2('r', 'g') && n.len() == 3
            ||| op == op1('k') && n.len() == 4
        }),
    ensures
        ({
            let g = after(m, op, ops, reply, excluded).0.g;
            g.fill_space is None && g.fill_pattern is None
        }),
{
}

// ── paths ───────────────────────────────────────────────────────────────────

/// The point that a piece of a path leads to.
pub open spec fn node_end(n: Node) -> Option<Pt> {
    match n {
        Node::At { p, .. } => Some(p),
        Node::Curve { to, .. } => Some(to),
        Node::Corner { .. } => None,
    }
}

/// The matrix that a piece of a path was built under.
pub open spec fn node_matrix(n: Node) -> usize {
    match n {
        Node::At { ctm, .. } => ctm,
        Node::Curve { ctm, .. } => ctm,
        Node::Corner { ctm, .. } => ctm,
    }
}

/// A path with a part: what is added goes to the end of the last part, and what
/// was there stays.
pub open spec fn grows_by(a: Seq<Seq<Node>>, b: Seq<Seq<Node>>, node: Node) -> bool {
    &&& a.len() > 0
    &&& b.len() == a.len()
    &&& forall|i: int| 0 <= i < a.len() - 1 ==> #[trigger] b[i] == a[i]
    &&& b.last().len() == a.last().len() + 1
    &&& forall|j: int| 0 <= j < a.last().len() ==> #[trigger] b.last()[j] == a.last()[j]
    &&& b.last().last() == node
}

/// A line goes from the current point to the point that is given and a curve to
/// the last of its points; the current point is then there. A curve starts at
/// the current point. It has the control points in their order; where one is
/// left out, it is the current point, or the end.
pub proof fn law_lines_and_curves_go_on_from_the_current_point(
    m: Machine,
    op: Operator,
    ops: Seq<Operand>,
    reply: Reply,
    excluded: bool,
)
    requires
        m.path.len() > 0,
        ({
            let k = nums_of(ops).len();
            ||| op == op1('l') && k == 2
            ||| op == op1('c') && k == 6
            ||| op == op1('v') && k == 4
            ||| op == op1('y') && k == 4
        }),
    ensures
        ({
            let n = nums_of(ops);
            let k = n.len() as int;
            let (m2, acts) = after(m, op, ops, reply, excluded);
            let node = m2.path.last().last();
            &&& acts.len() == 0
            &&& grows_by(m.path, m2.path, node)
            &&& node_end(node) == Some(m2.cur)
            &&& node_matrix(node) == m.g.ctm
            &&& m2.cur == pt(n[k - 2], n[k - 1])
            &&& op == op1('l') ==> node is At
            &&& op != op1('l') ==> (node matches Node::Curve { from, c1, c2, to, .. } && from
                == m.cur && to == m2.cur && (op == op1('c') ==> c1 == pt(n[0], n[1]) && c2 == pt(
                n[2],
                n[3],
            )) && (op == op1('v') ==> c1 == m.cur && c2 == pt(n[0], n[1])) && (op == op1('y')
                ==> c1 == pt(n[0], n[1]) && c2 == to))
            &&& m2.g == m.g && m2.pending == m.pending
        }),
{
    let m2 = after(m, op, ops, reply, excluded).0;
    let node = m2.path.last().last();
    assert(m2.path == extended(m.path, node));
}

/// A curve with a point left out is the full curve with the point written out.
pub proof fn law_short_curves_are_full_curves(
    m: Machine,
    short: Seq<Operand>,
    full: Seq<Operand>,
    reply: Reply,
    excluded: bool,
)
    requires
        nums_of(short).len() == 4,
        nums_of(full).len() == 6,
    ensures
        ({
            let n = nums_of(short);
            let k = nums_of(full);
            let whole = after(m, op1('c'), full, reply, excluded);
            &&& m.cur == pt(k[0], k[1]) && n == k.subrange(2, 6) ==> after(
                m,
                op1('v'),
                short,
                reply,
                excluded,
            ) == whole
            &&& n == k.subrange(0, 4) && k[2] == k[4] && k[3] == k[5] ==> after(
                m,
                op1('y'),
                short,
                reply,
                excluded,
            ) == whole
        }),
{
    let n = nums_of(short);
    let k = nums_of(full);
    if n == k.subrange(2, 6) {
        assert(n[0] == k[2] && n[1] == k[3] && n[2] == k[4] && n[3] == k[5]);
    }
    if n == k.subrange(0, 4) {
        assert(n[0] == k[0] && n[1] == k[1] && n[2] == k[2] && n[3] == k[3]);
    }
}

/// A move starts a new part at the point given, and a rectangle is a part of its
/// own with its four corners in turn; the parts before stay as they are.
pub proof fn law_moves_and_rectangles_start_parts(
    m: Machine,
    op: Operator,
    ops: Seq<Operand>,
    reply: Reply,
    excluded: bool,
)
    requires
        ({
            let k = nums_of(ops).len();
            ||| op == op1('m') && k == 2
            ||| op == op2('r', 'e') && k == 4
        }),
    ensures
        ({
            let n = nums_of(ops);
            let (m2, acts) = after(m, op, ops, reply, excluded);
            let part = m2.path.last();
            &&& acts.len() == 0
            &&& m2.path.len() == m.path.len() + 1
            &&& forall|i: int| 0 <= i < m.path.len() ==> #[trigger] m2.path[i] == m.path[i]
            &&& m2.cur == pt(n[0], n[1])
            &&& op == op1('m') ==> part.len() == 1 && node_end(part[0]) == Some(m2.cur)
                && node_matrix(part[0]) == m.g.ctm
            &&& op == op2('r', 'e') ==> part.len() == 4 && (forall|i: int|
                0 <= i < 4 ==> (#[trigger] part[i] matches Node::Corner { ctm, x, y, w, h, corner }
                    && ctm == m.g.ctm && x == n[0] && y == n[1] && w == n[2] && h == n[3] && corner
                    == i))
        }),
{
}

/// How an operator paints.
pub open spec fn paints(
    m: Machine,
    op: Operator,
    ops: Seq<Operand>,
    reply: Reply,
    excluded: bool,
    how: (Option<bool>, bool),
) -> bool {
    let acts = after(m, op, ops, reply, excluded).1;
    acts.len() == 1 && (acts[0] matches Act::Paint { fill, stroke, .. } && (fill, stroke) == how)
}

/// A painting operator fills, strokes, does both or neither; one with a star
/// fills by the even-odd rule.
pub proof fn law_how_paths_are_painted(
    m: Machine,
    ops: Seq<Operand>,
    reply: Reply,
    excluded: bool,
)
    ensures
        paints(m, op1('f'), ops, reply, excluded, (Some(false), false)),
        paints(m, op1('F'), ops, reply, excluded, (Some(false), false)),
        paints(m, op2('f', '*'), ops, reply, excluded, (Some(true), false)),
        paints(m, op1('S'), ops, reply, excluded, (None, true)),
        paints(m, op1('s'), ops, reply, excluded, (None, true)),
        paints(m, op1('B'), ops, reply, excluded, (Some(false), true)),
        paints(m, op1('b'), ops, reply, excluded, (Some(false), true)),
        paints(m, op2('B', '*'), ops, reply, excluded, (Some(true), true)),
        paints(m, op2('b', '*'), ops, reply, excluded, (Some(true), true)),
        paints(m, op1('n'), ops, reply, excluded, (None, false)),
{
}

/// What is painted is the path as it was built, in the state before. The path is
/// then done with. A clip that was armed is made of that path, by the rule it
/// was armed with, and is in force afterwards and not before; without one, or
/// without edges, the clip stays.
pub proof fn law_paths_are_painted_once(
    m: Machine,
    op: Operator,
    ops: Seq<Operand>,
    reply: Reply,
    excluded: bool,
)
    requires
        op is Paint,
    ensures
        ({
            let (m2, acts) = after(m, op, ops, reply, excluded);
            &&& acts.len() == 1
            &&& acts[0] matches Act::Paint { path, shown, clip, state, .. } && path == m.path && state
                == m.g && shown == (!excluded && !hidden(m.layers)) && (match clip {
                Some((rule, id)) => m.pending == Some(rule) && has_edges(m.path) && m2.g.clip == id
                    && id == m.clips as usize && m2.clips == m.clips + 1,
                None => m2.g.clip == m.g.clip && m2.clips == m.clips && (m.pending is None
                    || !has_edges(m.path)),
            })
            &&& m2.path.len() == 0
            &&& m2.pending is None
            &&& m2.g.ctm == m.g.ctm && m2.g.fill == m.g.fill && m2.g.stroke == m.g.stroke
            &&& m2.text == m.text && m2.stack == m.stack
        }),
{
}

/// Arming a clip changes neither the path nor the clip in force; the last one
/// armed counts.
pub proof fn law_arming_a_clip_waits_for_the_painting(
    m: Machine,
    ops: Seq<Operand>,
    reply: Reply,
    excluded: bool,
)
    ensures
        ({
            let w = after(m, op1('W'), ops, reply, excluded).0;
            let e = after(m, op2('W', '*'), ops, reply, excluded).0;
            &&& w.pending == Some(false) && e.pending == Some(true)
            &&& w.g == m.g && e.g == m.g
            &&& w.path == m.path && e.path == m.path
            &&& after(w, op2('W', '*'), ops, reply, excluded).0 == e
            &&& after(e, op1('W'), ops, reply, excluded).0 == w
        }),
{
}

/// Saving and restoring touch the graphics state alone: the path, the text and
/// the layers go on as they are.
pub proof fn law_saving_keeps_path_and_text(
    m: Machine,
    ops: Seq<Operand>,
    reply: Reply,
    excluded: bool,
)
    ensures
        ({
            let a = after(m, op1('q'), ops, reply, excluded);
            let b = after(m, op1('Q'), ops, reply, excluded);
            &&& a.1.len() == 0 && b.1.len() == 0
            &&& a.0.g == m.g
            &&& a.0.path == m.path && b.0.path == m.path
            &&& a.0.text == m.text && b.0.text == m.text
            &&& a.0.cur == m.cur && b.0.cur == m.cur
            &&& a.0.layers == m.layers && b.0.layers == m.layers
            &&& a.0.stack.len() == m.stack.len() + 1
            &&& m.stack.len() == 0 ==> b.0 == m
            &&& after(a.0, op1('Q'), ops, reply, excluded).0 == m
        }),
{
    let a = after(m, op1('q'), ops, reply, excluded).0;
    assert(a.stack.drop_last() =~= m.stack);
    assert(after(a, op1('Q'), ops, reply, excluded).0 =~= m);
}

// ── what the document is asked ──────────────────────────────────────────────

/// What is hidden is not drawn; an object with an image is drawn as the image,
/// whatever else it is; a form is drawn only where forms are.
pub proof fn law_which_objects_are_drawn(image: Option<usize>, form: Option<usize>, forms: bool)
    ensures
        object_answer(false, image, form, forms) == Reply::Nothing,
        image matches Some(i) ==> object_answer(true, image, form, forms) == Reply::Image(i),
        image is None && form is Some ==> (object_answer(true, image, form, forms) == Reply::Form(
            form->0,
        ) <==> forms),
        image is None && (form is None || !forms) ==> object_answer(true, image, form, forms)
            == Reply::Nothing,
{
}

/// Nothing that is skipped is asked for: shadings, objects and inline images
/// that are excluded or stand in a hidden layer.
pub proof fn law_what_is_skipped_is_not_asked_for(
    m: Machine,
    ops: Seq<Operand>,
    reply: Reply,
    excluded: bool,
)
    requires
        excluded || hidden(m.layers),
    ensures
        question(m, op2('s', 'h'), ops, excluded) is Nothing,
        question(m, op2('D', 'o'), ops, excluded) is Nothing,
        question(m, op2('B', 'I'), ops, excluded) is Nothing,
        after(m, op2('s', 'h'), ops, reply, excluded) == (m, Seq::<Act>::empty()),
        after(m, op2('D', 'o'), ops, reply, excluded) == (m, Seq::<Act>::empty()),
        after(m, op2('B', 'I'), ops, reply, excluded) == (m, Seq::<Act>::empty()),
{
}

/// A colour is asked for in the space that was set for it: that of fills for a
/// fill, that of strokes for a stroke, as the last operator that set one named
/// it.
pub proof fn law_colours_are_asked_in_their_space(
    m: Machine,
    space: Seq<Operand>,
    ops: Seq<Operand>,
    reply: Reply,
    excluded: bool,
)
    requires
        last_name(ops) is None,
        first_name(space) is Some,
        first_name(space) != Some(PATTERN),
    ensures
        ({
            let name = first_name(space)->0;
            let f = after(m, op2('c', 's'), space, reply, excluded).0;
            let s = after(m, op2('C', 'S'), space, reply, excluded).0;
            &&& question(f, op2('s', 'c'), ops, excluded) == Ask::Color(name)
            &&& question(f, op3('s', 'c', 'n'), ops, excluded) == Ask::Color(name)
            &&& question(s, op2('S', 'C'), ops, excluded) == Ask::Color(name)
            &&& question(s, op3('S', 'C', 'N'), ops, excluded) == Ask::Color(name)
            &&& question(f, op2('S', 'C'), ops, excluded) == question(
                m,
                op2('S', 'C'),
                ops,
                excluded,
            )
            &&& question(s, op2('s', 'c'), ops, excluded) == question(
                m,
                op2('s', 'c'),
                ops,
                excluded,
            )
            &&& f.g.fill == Color::Black && s.g.stroke == Color::Black
        }),
{
}

/// An answer in the space of a colour is the colour that is set, for fills and
/// for strokes.
pub proof fn law_resolved_colours_are_set(
    m: Machine,
    ops: Seq<Operand>,
    c: usize,
    excluded: bool,
)
    requires
        last_name(ops) is None,
    ensures
        ({
            let f = after(m, op2('s', 'c'), ops, Reply::Color(c), excluded).0.g;
            let s = after(m, op2('S', 'C'), ops, Reply::Color(c), excluded).0.g;
            &&& m.g.fill_space is Some ==> f.fill == Color::Resolved(c)
            &&& m.g.stroke_space is Some ==> s.stroke == Color::Resolved(c)
        }),
{
}

/// Parameters of the graphics state that a dictionary sets are those in force
/// afterwards; an alpha that it does not set stays, and so does all else.
pub proof fn law_parameters_are_set(
    m: Machine,
    ops: Seq<Operand>,
    p: Params,
    excluded: bool,
)
    requires
        first_name(ops) is Some,
    ensures
        ({
            let g = after(m, op2('g', 's'), ops, Reply::State(p), excluded).0.g;
            &&& g.blend == p.blend
            &&& g.soft_mask == p.soft_mask
            &&& p.fill_alpha is Some ==> g.fill_alpha == p.fill_alpha
            &&& p.fill_alpha is None ==> g.fill_alpha == m.g.fill_alpha
            &&& g.fill == m.g.fill && g.stroke == m.g.stroke && g.ctm == m.g.ctm && g.clip
                == m.g.clip && g.line_width == m.g.line_width
            &&& question(m, op2('g', 's'), ops, excluded) == Ask::State(first_name(ops)->0)
        }),
{
}

/// A pattern is set by its name and ends where a colour is set; a stroke takes
/// none.
pub proof fn law_patterns_are_set_by_name(
    m: Machine,
    ops: Seq<Operand>,
    reply: Reply,
    excluded: bool,
)
    requires
        last_name(ops) is Some,
    ensures
        ({
            let f = after(m, op3('s', 'c', 'n'), ops, reply, excluded).0.g;
            let s = after(m, op3('S', 'C', 'N'), ops, reply, excluded).0.g;
            &&& f.fill_pattern == last_name(ops)
            &&& f.fill == m.g.fill
            &&& s == m.g
        }),
{
}

/// The numbers of an operator are those among its operands, in their order,
/// whatever stands between them.
pub proof fn law_numbers_keep_their_order(ops: Seq<Operand>, n: int)
    requires
        0 <= n <= ops.len(),
    ensures
        numbers(ops, n) == ops.take(n).filter(|o: Operand| o is Num).map_values(
            |o: Operand| o->Num_0,
        ),
    decreases n,
{
    reveal(Seq::filter);
    let value = |o: Operand| o->Num_0;
    let is_num = |o: Operand| o is Num;
    if n > 0 {
        law_numbers_keep_their_order(ops, n - 1);
        assert(ops.take(n).drop_last() =~= ops.take(n - 1));
        assert(ops.take(n).last() == ops[n - 1]);
    }
    assert(numbers(ops, n) =~= ops.take(n).filter(is_num).map_values(value));
}

/// A point alone has no edge to clip by, however many there are; a line behind
/// it, or a rectangle, has.
pub proof fn law_what_has_edges(
    m: Machine,
    start: Seq<Operand>,
    line: Seq<Operand>,
    rect: Seq<Operand>,
    reply: Reply,
    excluded: bool,
)
    requires
        nums_of(start).len() == 2,
        nums_of(line).len() == 2,
        nums_of(rect).len() == 4,
    ensures
        ({
            let a = after(m, op1('m'), start, reply, excluded).0;
            let b = after(a, op1('l'), line, reply, excluded).0;
            let c = after(m, op2('r', 'e'), rect, reply, excluded).0;
            &&& has_edges(a.path) == has_edges(m.path)
            &&& has_edges(b.path)
            &&& has_edges(c.path)
            &&& !has_edges(Seq::<Seq<Node>>::empty())
        }),
{
    let a = after(m, op1('m'), start, reply, excluded).0;
    let b = after(a, op1('l'), line, reply, excluded).0;
    let c = after(m, op2('r', 'e'), rect, reply, excluded).0;
    let n = m.path.len() as int;
    if has_edges(m.path) {
        let i = choose|i: int| 0 <= i < m.path.len() && (#[trigger] m.path[i]).len() >= 2;
        assert(a.path[i].len() >= 2);
    }
    if has_edges(a.path) {
        let i = choose|i: int| 0 <= i < a.path.len() && (#[trigger] a.path[i]).len() >= 2;
        assert(i < n);
        assert(m.path[i].len() >= 2);
    }
    assert(b.path[n].len() >= 2);
    assert(c.path[n].len() >= 2);
}

/// A layer hides what is in it exactly where it is optional content that the
/// document says is hidden. Any other mark, and one whose layer is shown, hides
/// nothing more.
pub proof fn law_which_layers_hide(
    m: Machine,
    ops: Seq<Operand>,
    reply: Reply,
    excluded: bool,
)
    ensures
        ({
            let tagged = after(m, op3('B', 'D', 'C'), ops, reply, excluded).0;
            let plain = after(m, op3('B', 'M', 'C'), ops, reply, excluded).0;
            let optional = first_name(ops) == Some(OPTIONAL) && ops.len() > 1;
            &&& optional && reply == Reply::Layer(false) ==> hidden(tagged.layers)
            &&& !optional || reply != Reply::Layer(false) ==> hidden(tagged.layers) == hidden(
                m.layers,
            )
            &&& hidden(plain.layers) == hidden(m.layers)
            &&& optional ==> question(m, op3('B', 'D', 'C'), ops, excluded) == Ask::Layer
            &&& !optional ==> question(m, op3('B', 'D', 'C'), ops, excluded) == Ask::Nothing
            &&& tagged.g == m.g && tagged.text == m.text && tagged.path == m.path
        }),
{
    let tagged = after(m, op3('B', 'D', 'C'), ops, reply, excluded).0;
    let plain = after(m, op3('B', 'M', 'C'), ops, reply, excluded).0;
    let n = m.layers.len() as int;
    assert(plain.layers[n]);
    assert(tagged.layers.len() == n + 1);
    if hidden(m.layers) {
        let i = choose|i: int| 0 <= i < m.layers.len() && !#[trigger] m.layers[i];
        assert(!tagged.layers[i] && !plain.layers[i]);
    }
    if hidden(tagged.layers) {
        let i = choose|i: int| 0 <= i < tagged.layers.len() && !#[trigger] tagged.layers[i];
        if i < n {
            assert(!m.layers[i]);
        }
    }
    if hidden(plain.layers) {
        let i = choose|i: int| 0 <= i < plain.layers.len() && !#[trigger] plain.layers[i];
        assert(i < n);
        assert(!m.layers[i]);
    }
    assert(first_name(ops) == Some(OPTIONAL) && ops.len() > 1 && reply == Reply::Layer(false)
        ==> !tagged.layers[n]);
}

} // verus!
