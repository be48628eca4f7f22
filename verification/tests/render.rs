//! Content streams, interpreted and painted on a small page.
use pagecore::render::codes::{
    code_to_cid, codes, glyph, is_word_space, show_codes, width_key, Code, Lookup,
};
use pagecore::render::interp::{object_reply, Action, Ask, Interp, NoResources, Turn};
use pagecore::render::operators::{operator_of, Operator};
use pagecore::render::pixels::{clip_bounds, polygon_edges, RenderImage};
use pagecore::render::state::{
    Color, GState, Item, Lead, Node, Op, Operand, Params, Pt, Reply, TextState,
};

type Matrix = [f64; 6];

const IDENTITY: Matrix = [1.0, 0.0, 0.0, 1.0, 0.0, 0.0];

fn matrix_then(m: &Matrix, n: &Matrix) -> Matrix {
    [
        m[0] * n[0] + m[1] * n[2],
        m[0] * n[1] + m[1] * n[3],
        m[2] * n[0] + m[3] * n[2],
        m[2] * n[1] + m[3] * n[3],
        m[4] * n[0] + m[5] * n[2] + n[4],
        m[4] * n[1] + m[5] * n[3] + n[5],
    ]
}

fn apply(m: &Matrix, x: f64, y: f64) -> (f64, f64) {
    (m[0] * x + m[2] * y + m[4], m[1] * x + m[3] * y + m[5])
}

/// A content stream, and the values behind its handles.
struct Stream {
    numbers: Vec<f64>,
    names: Vec<String>,
    texts: Vec<String>,
    ops: Vec<Op>,
}

impl Stream {
    fn name(&mut self, n: &str) -> usize {
        match self.names.iter().position(|m| m == n) {
            Some(i) => i,
            None => {
                self.names.push(n.to_string());
                self.names.len() - 1
            }
        }
    }

    fn item(&mut self, word: &str) -> Item {
        if let Some(t) = word.strip_prefix('(') {
            self.texts.push(t.trim_end_matches(')').to_string());
            Item::Text(self.texts.len() - 1)
        } else if let Ok(v) = word.parse::<f64>() {
            self.numbers.push(v);
            Item::Num(self.numbers.len() - 1)
        } else {
            Item::Other
        }
    }
}

/// Read a content stream whose words stand apart.
fn stream(content: &str) -> Stream {
    let mut s = Stream {
        numbers: Vec::new(),
        names: vec!["Pattern".to_string(), "OC".to_string()],
        texts: Vec::new(),
        ops: Vec::new(),
    };
    let mut operands: Vec<Operand> = Vec::new();
    let mut list: Option<Vec<Item>> = None;
    for word in content.split_whitespace() {
        if word == "[" {
            list = Some(Vec::new());
        } else if word == "]" {
            operands.push(Operand::List(list.take().unwrap()));
        } else if let Some(items) = list.as_mut() {
            let item = s.item(word);
            items.push(item);
        } else if let Some(n) = word.strip_prefix('/') {
            let h = s.name(n);
            operands.push(Operand::Name(h));
        } else {
            match s.item(word) {
                Item::Text(h) => operands.push(Operand::Text(h)),
                Item::Num(h) => operands.push(Operand::Num(h)),
                Item::Other => {
                    let operands = std::mem::take(&mut operands);
                    s.ops.push(Op { name: word.as_bytes().to_vec(), operands });
                }
            }
        }
    }
    s
}

/// The resources that names stand for, and what is hidden.
struct Doc {
    hidden: Vec<&'static str>,
    images: Vec<(&'static str, RenderImage)>,
    forms: Vec<&'static str>,
}

impl Doc {
    fn empty() -> Doc {
        Doc { hidden: Vec::new(), images: Vec::new(), forms: Vec::new() }
    }

    fn hiding(hidden: Vec<&'static str>) -> Doc {
        Doc { hidden, images: Vec::new(), forms: Vec::new() }
    }

    fn answer(&self, ask: Ask, op: &Op, s: &Stream) -> Reply {
        let shown = |h: usize| !self.hidden.iter().any(|n| *n == s.names[h]);
        match ask {
            Ask::Layer => Reply::Layer(match &op.operands[1] {
                Operand::Name(h) => shown(*h),
                _ => true,
            }),
            Ask::XObject(h) => object_reply(
                shown(h),
                self.images.iter().position(|(n, _)| *n == s.names[h]),
                self.forms.iter().position(|n| *n == s.names[h]),
                true,
            ),
            Ask::Font(_) => Reply::Font(0),
            _ => NoResources.answer(ask),
        }
    }
}

fn run_with(s: &Stream, doc: &Doc, skip_text: bool, forms: bool, excluded: &[usize]) -> Vec<Action> {
    let mut interp = Interp::new(skip_text, forms);
    let mut out = Vec::new();
    for (i, op) in s.ops.iter().enumerate() {
        let skip = excluded.contains(&i);
        let reply = doc.answer(interp.ask(op, skip), op, s);
        assert!(interp.has_room(op));
        interp.step(op, reply, skip, &mut out);
    }
    out
}

fn run(s: &Stream, doc: &Doc) -> Vec<Action> {
    run_with(s, doc, false, true, &[])
}

fn byte(v: f64) -> u8 {
    (v.clamp(0.0, 1.0) * 255.0).round() as u8
}

fn rgb_of(s: &Stream, c: Color) -> [u8; 3] {
    let n = |i: usize| s.numbers[i];
    match c {
        Color::Black => [0, 0, 0],
        Color::Gray(v) => [byte(n(v)); 3],
        Color::Rgb(r, g, b) => [byte(n(r)), byte(n(g)), byte(n(b))],
        Color::Cmyk(c, m, y, k) => [c, m, y].map(|i| byte((1.0 - n(i)) * (1.0 - n(k)))),
        Color::Resolved(_) => unreachable!(),
    }
}

fn inside(points: &[(f64, f64)], x: f64, y: f64) -> bool {
    let mut odd = false;
    for (i, j) in polygon_edges(points.len()) {
        let ((x0, y0), (x1, y1)) = (points[i], points[j]);
        if (y0 <= y) != (y1 <= y) && x < x0 + (y - y0) / (y1 - y0) * (x1 - x0) {
            odd = !odd;
        }
    }
    odd
}

/// The colour of a pixel of a white page, once all is painted.
fn px(s: &Stream, doc: &Doc, actions: &[Action], base: &Matrix, x: usize, y: usize) -> [u8; 3] {
    let (cx, cy) = (x as f64 + 0.5, y as f64 + 0.5);
    let mut color = [255, 255, 255];
    let mut matrices = vec![IDENTITY];
    for action in actions {
        match action {
            Action::Matrix { id, turn, base } => {
                assert_eq!(*id, matrices.len());
                match *turn {
                    Turn::Six { a, b, c, d, e, f } => {
                        let m = [a, b, c, d, e, f].map(|i| s.numbers[i]);
                        matrices.push(matrix_then(&m, &matrices[*base]));
                    }
                    _ => unreachable!(),
                }
            }
            Action::Paint { path, fill: Some(_), shown: true, state, .. } => {
                for part in path {
                    let points: Vec<(f64, f64)> = part
                        .iter()
                        .map(|node| match *node {
                            Node::Corner { ctm, x, y, w, h, corner } => {
                                let n = |i: usize| s.numbers[i];
                                let dx = if corner == 1 || corner == 2 { n(w) } else { 0.0 };
                                let dy = if corner >= 2 { n(h) } else { 0.0 };
                                let (ux, uy) = apply(&matrices[ctm], n(x) + dx, n(y) + dy);
                                apply(base, ux, uy)
                            }
                            _ => unreachable!(),
                        })
                        .collect();
                    if inside(&points, cx, cy) {
                        color = rgb_of(s, state.fill);
                    }
                }
            }
            Action::Image { image, state } => {
                let image = &doc.images[*image].1;
                let m = matrix_then(&matrices[state.ctm], base);
                let det = m[0] * m[3] - m[1] * m[2];
                let (dx, dy) = (cx - m[4], cy - m[5]);
                let u = (m[3] * dx - m[2] * dy) / det;
                let v = (-m[1] * dx + m[0] * dy) / det;
                if (0.0..1.0).contains(&u) && (0.0..1.0).contains(&v) {
                    let col = (u * image.width as f64) as u32;
                    let row = ((1.0 - v) * image.height as f64) as u32;
                    let (c, a) = image.texel(col, row, rgb_of(s, state.fill));
                    if a == 255 {
                        color = c;
                    }
                }
            }
            _ => {}
        }
    }
    color
}

/// Page user space to device for a page 200 points tall.
const BASE: Matrix = [1.0, 0.0, 0.0, -1.0, 0.0, 200.0];
const BASE_100: Matrix = [1.0, 0.0, 0.0, -1.0, 0.0, 100.0];

// ── painting ────────────────────────────────────────────────────────────────

#[test]
fn fills_a_red_rectangle_from_content() {
    let s = stream("1 0 0 rg 50 50 100 80 re f");
    let doc = Doc::empty();
    let a = run(&s, &doc);
    assert_eq!(px(&s, &doc, &a, &BASE, 100, 110), [255, 0, 0], "interior is red");
    assert_eq!(px(&s, &doc, &a, &BASE, 0, 0), [255, 255, 255], "corner stays white");
}

#[test]
fn blits_an_image_over_the_unit_square() {
    let image = RenderImage {
        width: 2,
        height: 2,
        rgba: vec![255, 0, 0, 255, 0, 255, 0, 255, 0, 0, 255, 255, 255, 255, 255, 255],
        stencil: false,
    };
    let doc = Doc { hidden: Vec::new(), images: vec![("Im0", image)], forms: Vec::new() };
    let s = stream("100 0 0 100 0 0 cm /Im0 Do");
    let a = run(&s, &doc);
    let at = |x: usize, y: usize| px(&s, &doc, &a, &BASE_100, x, y);
    assert_eq!(at(10, 10), [255, 0, 0], "top-left texel is red");
    assert_eq!(at(90, 90), [255, 255, 255], "bottom-right texel is white");
    assert_eq!(at(90, 10), [0, 255, 0], "top-right texel is green");
}

#[test]
fn stencil_image_paints_fill_colour_through_alpha() {
    let image = RenderImage {
        width: 2,
        height: 2,
        rgba: vec![0, 0, 0, 255, 0, 0, 0, 0, 0, 0, 0, 0, 0, 0, 0, 0],
        stencil: true,
    };
    let doc = Doc { hidden: Vec::new(), images: vec![("Im0", image)], forms: Vec::new() };
    let s = stream("0 0 1 rg 100 0 0 100 0 0 cm /Im0 Do");
    let a = run(&s, &doc);
    let at = |x: usize, y: usize| px(&s, &doc, &a, &BASE_100, x, y);
    assert_eq!(at(25, 25), [0, 0, 255], "painted stencil pixel is the fill blue");
    assert_eq!(at(75, 25), [255, 255, 255], "transparent stencil pixel stays white");
    assert_eq!(at(75, 75), [255, 255, 255], "transparent stencil pixel stays white");
}

#[test]
fn cmyk_and_gray_fills() {
    let s = stream("1 0 0 0 k 10 10 40 40 re f 0.5 g 100 100 40 40 re f");
    let doc = Doc::empty();
    let a = run(&s, &doc);
    assert_eq!(px(&s, &doc, &a, &BASE, 30, 200 - 30), [0, 255, 255]);
    assert_eq!(px(&s, &doc, &a, &BASE, 120, 200 - 120)[0], 128);
}

// ── layers ──────────────────────────────────────────────────────────────────

#[test]
fn off_layer_marked_content_is_not_painted() {
    let doc = Doc::hiding(vec!["oc1"]);
    let s = stream(
        "/OC /oc0 BDC 1 0 0 rg 10 100 40 40 re f EMC
         /OC /oc1 BDC 0 0 1 rg 150 100 40 40 re f EMC",
    );
    let a = run(&s, &doc);
    assert_eq!(px(&s, &doc, &a, &BASE, 30, 80), [255, 0, 0], "shown layer box is painted");
    assert_eq!(px(&s, &doc, &a, &BASE, 170, 80), [255, 255, 255], "hidden layer box is not");
}

#[test]
fn no_optional_content_paints_everything() {
    let doc = Doc::empty();
    let s = stream("1 0 0 rg 10 100 40 40 re f 0 0 1 rg 150 100 40 40 re f");
    let a = run(&s, &doc);
    assert_eq!(px(&s, &doc, &a, &BASE, 30, 80), [255, 0, 0], "first box paints");
    assert_eq!(px(&s, &doc, &a, &BASE, 170, 80), [0, 0, 255], "second box paints");
}

#[test]
fn nested_oc_hidden_when_outer_is_off() {
    let doc = Doc::hiding(vec!["outer"]);
    let s = stream(
        "/OC /outer BDC
           1 0 0 rg 10 100 40 40 re f
           /OC /inner BDC 0 0 1 rg 60 100 40 40 re f EMC
         EMC",
    );
    let a = run(&s, &doc);
    assert_eq!(px(&s, &doc, &a, &BASE, 30, 80), [255, 255, 255], "outer box hidden");
    assert_eq!(px(&s, &doc, &a, &BASE, 80, 80), [255, 255, 255], "inner box hidden with it");
}

#[test]
fn inner_on_paints_after_off_sibling_closes() {
    let doc = Doc::hiding(vec!["off"]);
    let s = stream(
        "/OC /off BDC 1 0 0 rg 10 100 40 40 re f EMC
         /OC /on BDC 0 0 1 rg 150 100 40 40 re f EMC",
    );
    let a = run(&s, &doc);
    assert_eq!(px(&s, &doc, &a, &BASE, 30, 80), [255, 255, 255], "hidden layer");
    assert_eq!(px(&s, &doc, &a, &BASE, 170, 80), [0, 0, 255], "the layer after it paints");
}

#[test]
fn off_xobject_do_paints_nothing() {
    let image = RenderImage { width: 1, height: 1, rgba: vec![255, 0, 0, 255], stencil: false };
    let s = stream("100 0 0 100 0 0 cm /Im0 Do");
    let off = Doc { hidden: vec!["Im0"], images: vec![("Im0", image.clone())], forms: Vec::new() };
    let a = run(&s, &off);
    assert_eq!(px(&s, &off, &a, &BASE_100, 50, 50), [255, 255, 255], "hidden image");
    let on = Doc { hidden: Vec::new(), images: vec![("Im0", image)], forms: Vec::new() };
    let a = run(&s, &on);
    assert_eq!(px(&s, &on, &a, &BASE_100, 50, 50), [255, 0, 0], "shown image");
}

#[test]
fn other_marked_content_hides_nothing_and_balances() {
    let doc = Doc::hiding(vec!["off"]);
    // The inner end closes the span, so the box behind it is hidden still.
    let s = stream("/OC /off BDC /Span BMC EMC 0 0 10 10 re f EMC 0 0 10 10 re f EMC 0 0 5 5 re f");
    let shown: Vec<bool> = run(&s, &doc)
        .iter()
        .map(|a| matches!(a, Action::Paint { shown: true, .. }))
        .collect();
    assert_eq!(shown, [false, true, true]);
}

#[test]
fn a_layer_without_property_is_shown() {
    let s = stream("/OC BDC 0 0 10 10 re f EMC");
    let a = run(&s, &Doc::hiding(vec!["OC"]));
    assert!(matches!(a[0], Action::Paint { shown: true, .. }));
}

// ── the graphics state ──────────────────────────────────────────────────────

fn states(actions: &[Action]) -> Vec<GState> {
    actions
        .iter()
        .filter_map(|a| match a {
            Action::Paint { state, .. } => Some(*state),
            _ => None,
        })
        .collect()
}

#[test]
fn restore_undoes_what_came_after_save() {
    let s = stream("1 0 0 rg q 0 0 1 rg 3 w 2 0 0 2 0 0 cm n Q n Q n");
    let a = run(&s, &Doc::empty());
    let g = states(&a);
    assert_eq!(rgb_of(&s, g[0].fill), [0, 0, 255]);
    assert_eq!(g[0].ctm, 1);
    assert_eq!(rgb_of(&s, g[1].fill), [255, 0, 0]);
    assert_eq!((g[1].ctm, g[1].line_width), (0, None));
    assert_eq!(g[2], g[1], "a restore without a save does nothing");
}

#[test]
fn exclusion_keeps_the_state() {
    let s = stream("0 0 1 rg 0 0 10 10 re W f /F 9 Tf (ab) Tj 0 0 5 5 re f");
    let doc = Doc::empty();
    let all = run(&s, &doc);
    let none = run_with(&s, &doc, false, true, &[0, 1, 2, 3, 4, 5, 6]);
    assert_eq!(all.len(), none.len());
    assert!(matches!(all[0], Action::Paint { shown: true, clip: Some((false, 1)), .. }));
    assert!(matches!(none[0], Action::Paint { shown: false, clip: Some((false, 1)), .. }));
    match (&all[1], &none[1]) {
        (Action::Show { next: n, shown: true, .. }, Action::Show { next: m, shown: false, .. }) => {
            assert_eq!(n, m)
        }
        _ => unreachable!(),
    }
    assert_eq!(states(&all), states(&none));
}

#[test]
fn excluded_drawing_is_left_out() {
    let image = RenderImage { width: 1, height: 1, rgba: vec![0; 4], stencil: false };
    let doc = Doc { hidden: Vec::new(), images: vec![("Im0", image)], forms: vec!["Fm0"] };
    let s = stream("/Im0 Do /Fm0 Do");
    let a = run(&s, &doc);
    assert!(matches!(a[0], Action::Image { image: 0, .. }));
    assert!(matches!(a[1], Action::Form { form: 0, .. }));
    assert!(run_with(&s, &doc, false, true, &[0, 1]).is_empty());
    let a = run_with(&s, &doc, false, false, &[]);
    assert_eq!(a.len(), 1, "no form is drawn where none may be");
}

#[test]
fn a_clip_takes_effect_behind_its_path() {
    let s = stream("0 0 10 10 re W* n 0 0 5 5 re f W n 0 0 1 1 re f");
    let a = run(&s, &Doc::empty());
    assert!(matches!(a[0], Action::Paint { fill: None, stroke: false, clip: Some((true, 1)), .. }));
    let g = states(&a);
    assert_eq!((g[0].clip, g[1].clip), (0, 1));
    assert!(matches!(a[2], Action::Paint { clip: None, .. }), "no path, no clip");
    assert_eq!(g[3].clip, 1);
}

#[test]
fn paths_are_built_of_lines_curves_and_corners() {
    let s = stream("5 5 l 1 2 m 3 4 l 1 2 3 4 5 6 c 7 8 9 10 v 1 1 2 2 y 1 2 3 y 0 0 4 4 re B*");
    let a = run(&s, &Doc::empty());
    let Action::Paint { path, fill, stroke, .. } = &a[0] else { unreachable!() };
    assert_eq!((*fill, *stroke), (Some(true), true));
    assert_eq!(path.len(), 2, "a line without a start is dropped");
    assert_eq!((path[0].len(), path[1].len()), (5, 4));
    let at = |p: Pt| (s.numbers[p.x.unwrap()], s.numbers[p.y.unwrap()]);
    let curve = |n: Node| match n {
        Node::Curve { from, c1, c2, to, .. } => [at(from), at(c1), at(c2), at(to)],
        _ => unreachable!(),
    };
    assert_eq!(curve(path[0][2]), [(3.0, 4.0), (1.0, 2.0), (3.0, 4.0), (5.0, 6.0)]);
    assert_eq!(curve(path[0][3]), [(5.0, 6.0), (5.0, 6.0), (7.0, 8.0), (9.0, 10.0)]);
    assert_eq!(curve(path[0][4]), [(9.0, 10.0), (1.0, 1.0), (2.0, 2.0), (2.0, 2.0)]);
}

#[test]
fn colours_follow_their_spaces() {
    let s = stream("/CS0 cs 0.5 sc f /Pattern cs /P0 scn f 1 0 0 rg f 1 2 sc f");
    let g = states(&run(&s, &Doc::empty()));
    assert!(matches!(g[0].fill, Color::Gray(_)), "an unknown space counts its components");
    assert_eq!(g[0].fill_space, Some(2));
    assert_eq!(g[1].fill_pattern, Some(3));
    assert_eq!(g[1].fill_space, None);
    assert_eq!(g[2].fill_pattern, None);
    assert_eq!(g[3].fill, g[2].fill, "two components are no colour");
}

#[test]
fn a_resolved_colour_and_parameters_are_kept() {
    let s = stream("/CS0 cs 0.5 sc /G0 gs f");
    let mut interp = Interp::new(false, true);
    let mut out = Vec::new();
    interp.step(&s.ops[0], Reply::Nothing, false, &mut out);
    assert_eq!(interp.ask(&s.ops[1], false), Ask::Color(2));
    interp.step(&s.ops[1], Reply::Color(7), false, &mut out);
    assert_eq!(interp.ask(&s.ops[2], false), Ask::State(3));
    let params = Params { blend: 4, fill_alpha: Some(5), soft_mask: Some(6) };
    interp.step(&s.ops[2], Reply::State(params), false, &mut out);
    interp.step(&s.ops[3], Reply::Nothing, false, &mut out);
    let g = states(&out)[0];
    assert_eq!(g.fill, Color::Resolved(7));
    assert_eq!((g.blend, g.fill_alpha, g.soft_mask), (4, Some(5), Some(6)));
}

#[test]
fn a_shading_and_an_inline_image_are_asked_for() {
    let s = stream("/Sh0 sh (raw) BI");
    let mut interp = Interp::new(false, true);
    let mut out = Vec::new();
    assert_eq!(interp.ask(&s.ops[0], false), Ask::Shading(2));
    assert_eq!(interp.ask(&s.ops[0], true), Ask::Nothing);
    interp.step(&s.ops[0], Reply::Shading(3), false, &mut out);
    assert_eq!(interp.ask(&s.ops[1], false), Ask::Inline(0));
    interp.step(&s.ops[1], Reply::Image(4), false, &mut out);
    assert!(matches!(out[0], Action::Shade { shading: 3, .. }));
    assert!(matches!(out[1], Action::Image { image: 4, .. }));
}

#[test]
fn no_resources_answer_nothing_and_hide_nothing() {
    assert_eq!(NoResources.answer(Ask::XObject(3)), Reply::Nothing);
    assert_eq!(NoResources.answer(Ask::Font(3)), Reply::Nothing);
    assert_eq!(NoResources.answer(Ask::Layer), Reply::Layer(true));
}

// ── text ────────────────────────────────────────────────────────────────────

fn shows(actions: &[Action]) -> Vec<(usize, TextState, usize, bool)> {
    actions
        .iter()
        .filter_map(|a| match a {
            Action::Show { text, text_state, next, shown, .. } => {
                Some((*text, *text_state, *next, *shown))
            }
            _ => None,
        })
        .collect()
}

#[test]
fn text_moves_on_by_what_it_shows() {
    let s = stream("BT /F 9 Tf (ab) Tj [ (c) 120 (d) /x ] TJ ET");
    let a = run(&s, &Doc::empty());
    let t = shows(&a);
    assert_eq!(t.len(), 3);
    assert_eq!(t[1].1.matrix, t[0].2);
    assert_ne!(t[2].1.matrix, t[1].2, "the number between moves the text back");
    let kern = a.iter().find_map(|x| match x {
        Action::Matrix { id, turn: Turn::Kern { by, size, .. }, base } => {
            Some((*id, s.numbers[*by], s.numbers[size.unwrap()], *base))
        }
        _ => None,
    });
    assert_eq!(kern, Some((t[2].1.matrix, 120.0, 9.0, t[1].2)));
}

#[test]
fn skipped_text_moves_on_without_marks() {
    let s = stream("BT /F 9 Tf (ab) Tj (cd) Tj 0 0 5 5 re f");
    let doc = Doc::empty();
    let plain = run(&s, &doc);
    let skipped = run_with(&s, &doc, true, true, &[]);
    for (p, q) in shows(&plain).iter().zip(shows(&skipped)) {
        assert_eq!((p.0, p.1, p.2), (q.0, q.1, q.2));
        assert!(p.3 && !q.3);
    }
    assert!(matches!(skipped.last(), Some(Action::Paint { shown: true, .. })));
}

#[test]
fn text_without_a_font_is_not_shown() {
    let s = stream("BT (ab) Tj [ (c) 120 ] TJ ET");
    assert!(run(&s, &Doc::empty()).is_empty());
}

#[test]
fn a_quote_sets_spacing_and_starts_a_line() {
    let s = stream("BT /F 9 Tf 4 TL 1 2 (ab) \" (cd) ' 3 5 TD T*");
    let a = run(&s, &Doc::empty());
    let t = shows(&a);
    assert_eq!(s.numbers[t[0].1.word_space.unwrap()], 1.0);
    assert_eq!(s.numbers[t[0].1.char_space.unwrap()], 2.0);
    assert_eq!(t[1].1.word_space, t[0].1.word_space);
    let downs: Vec<Lead> = a
        .iter()
        .filter_map(|x| match x {
            Action::Matrix { turn: Turn::Down(lead), .. } => Some(*lead),
            _ => None,
        })
        .collect();
    assert_eq!(downs.len(), 3);
    assert!(matches!(downs[0], Lead::Plus(i) if s.numbers[i] == 4.0));
    assert!(matches!(downs[2], Lead::Minus(i) if s.numbers[i] == 5.0));
}

#[test]
fn operators_are_told_by_their_names() {
    assert_eq!(operator_of(b"q"), Operator::Save);
    assert_eq!(operator_of(b"Q"), Operator::Restore);
    assert_eq!(operator_of(b"W*"), Operator::Clip { even_odd: true });
    assert_eq!(operator_of(b"B*"), Operator::Paint { fill: true, stroke: true, even_odd: true });
    assert_eq!(operator_of(b"s"), Operator::Paint { fill: false, stroke: true, even_odd: false });
    assert_eq!(operator_of(b"d0"), Operator::Unknown);
    assert_eq!(operator_of(b""), Operator::Unknown);
}

// ── codes ───────────────────────────────────────────────────────────────────

#[test]
fn codes_of_one_byte_and_of_two() {
    let pair = |c: &Code| (c.code, c.bytes);
    let one: Vec<(u32, usize)> = codes(&[65, 32, 66], false).iter().map(pair).collect();
    assert_eq!(one, [(65, 1), (32, 1), (66, 1)]);
    let two: Vec<(u32, usize)> = codes(&[1, 2, 32], true).iter().map(pair).collect();
    assert_eq!(two, [(258, 2), (32, 1)], "a last byte alone is a code");
    assert!(is_word_space(Code { code: 32, bytes: 1 }));
    assert!(!is_word_space(Code { code: 32, bytes: 2 }));
}

#[test]
fn glyphs_of_simple_and_composite_fonts() {
    let simple = Lookup { composite: false, cid: None, encoded: Some(7), by_character: Some(9) };
    assert_eq!(glyph(simple, 65, None), 7);
    let plain = Lookup { composite: false, cid: None, encoded: None, by_character: Some(9) };
    assert_eq!(glyph(plain, 65, None), 9);
    let lost = Lookup { composite: false, cid: None, encoded: None, by_character: None };
    assert_eq!(glyph(lost, 65, None), 0);
    let wide = Lookup { composite: true, cid: Some(3), encoded: None, by_character: None };
    assert_eq!(code_to_cid(500, true, wide), 3);
    assert_eq!(code_to_cid(500, false, wide), 500);
    let unmapped = Lookup { composite: true, cid: None, encoded: None, by_character: None };
    assert_eq!(code_to_cid(500, true, unmapped), 500);
    assert_eq!(glyph(wide, 1, None), 1);
    assert_eq!(glyph(wide, 1, Some(&vec![0, 8])), 8);
    assert_eq!(glyph(wide, 2, Some(&vec![0, 8])), 0);
    assert_eq!((width_key(true, 500, 3), width_key(false, 500, 3)), (3, 500));
}

// ── pixels ──────────────────────────────────────────────────────────────────

#[test]
fn clip_bounds_hold_what_is_admitted() {
    assert_eq!(clip_bounds(None, 4, 3), (0, 0, 4, 3));
    assert_eq!(clip_bounds(Some(&vec![false; 12]), 4, 3), (0, 0, 4, 3));
    let mut mask = vec![false; 12];
    mask[5] = true;
    mask[11] = true;
    assert_eq!(clip_bounds(Some(&mask), 4, 3), (1, 1, 4, 3));
}

#[test]
fn polygons_close() {
    assert!(polygon_edges(0).is_empty());
    assert!(polygon_edges(1).is_empty());
    assert_eq!(polygon_edges(3), [(0, 1), (1, 2), (2, 0)]);
}

#[test]
fn an_object_is_hidden_an_image_or_a_form() {
    assert_eq!(object_reply(false, Some(1), Some(2), true), Reply::Nothing);
    assert_eq!(object_reply(true, Some(1), Some(2), true), Reply::Image(1));
    assert_eq!(object_reply(true, Some(1), None, false), Reply::Image(1));
    assert_eq!(object_reply(true, None, Some(2), true), Reply::Form(2));
    assert_eq!(object_reply(true, None, Some(2), false), Reply::Nothing);
    assert_eq!(object_reply(true, None, None, true), Reply::Nothing);
}

#[test]
fn a_string_may_be_shown_in_two_parts() {
    let show = |(mut seen, pen): (Vec<(u32, u32)>, u32), c: Code| {
        seen.push((c.code, pen));
        (seen, pen + 2 * c.code + 1)
    };
    let start = (Vec::new(), 5);
    let whole = show_codes(&[7, 32, 9], false, start.clone(), show);
    let part = show_codes(&[7], false, start.clone(), show);
    assert_eq!(show_codes(&[32, 9], false, part, show), whole);
    assert_eq!(whole, (vec![(7, 5), (32, 20), (9, 85)], 104));
    assert_eq!(show_codes(&[], false, start.clone(), show), start);
    assert_eq!(show_codes(&[1, 2, 3], true, start, show).0, vec![(258, 5), (3, 522)]);
}
