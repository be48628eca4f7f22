//! Layout of pages: the library on facts that are taken from coordinates.
use pagecore::recon::{detect, headings, items, lists, page, paragraphs, plan, tables};
use pagecore::recon::captions::{take_caption_for};
use pagecore::recon::columns::{ColumnLayout, LinePlace, accept_bands, empty_runs, line_is_separator};
use pagecore::recon::decor::{Strip, mark_rules, rule_hits};
use pagecore::recon::detect::{free_lines, order_columns, tabular_rows};
use pagecore::recon::flatten::{paragraph_text};
use pagecore::recon::headings::{Prominence, level_for};
use pagecore::recon::ids::{IdGen, PENDING_TAG, make_pending};
use pagecore::recon::lines::{Line, LineRun, host_line, is_blank};
use pagecore::recon::lists::{Segment, level_of, list_runs};
use pagecore::recon::markers::{MarkerInfo, classify_marker, detect_marker, is_marker_only_run, marker_token_len_chars};
use pagecore::recon::model::{Align, Block, BlockId, BlockKind, Cell, CharStyle, Frame, ImageRef, Inline, InlineRun, ListItem, ListMarker, NO_LENGTH, ONE_POINT, Paragraph, ParagraphStyle, Rotation, Row, Table, VAlign, plain_style};
use pagecore::recon::numerals::{roman_value};
use pagecore::recon::order::{Rank, comes_before};
use pagecore::recon::page::{Placed, Stretch, TablePlan, gather_text, interleave_by_reading_order, surviving_paths, walk};
use pagecore::recon::paragraphs::{Fonts, LineAlign, LineShape};
use pagecore::recon::plan::{Candidate, Kind, Nearness, Views, decimal_sep, passes_table_sanity};
use pagecore::recon::select::{keep_apart};
use pagecore::recon::tables::{Grid, GridRun, col_of, row_of};
use std::collections::{BTreeMap, BTreeSet, VecDeque};

/// An axis-aligned rectangle.
#[derive(Debug, Clone, Copy, PartialEq)]
pub struct Rect {
    pub x: f64,
    pub y: f64,
    pub w: f64,
    pub h: f64,
}

/// The style of a text run, as the font and the content stream give it.
#[derive(Debug, Clone, PartialEq, Default)]
pub struct TextStyle {
    pub family: String,
    pub generic: u8,
    pub bold: bool,
    pub italic: bool,
    pub color: Option<[f64; 3]>,
}

/// A text run in page space: origin at the bottom left, y upwards.
#[derive(Debug, Clone)]
pub struct ReconRun {
    pub text: String,
    pub x: f64,
    pub y: f64,
    pub w: f64,
    pub h: f64,
    pub size: f64,
    pub style: TextStyle,
    pub rotation: f64,
    pub source_index: Option<usize>,
    pub underline: bool,
    pub strike: bool,
}

impl ReconRun {
    pub fn center_y(&self) -> f64 {
        self.y + self.h / 2.0
    }

    pub fn top(&self) -> f64 {
        self.y + self.h
    }

    pub fn right(&self) -> f64 {
        self.x + self.w
    }
}

/// The spacing of a paragraph, in points.
#[derive(Debug, Clone, Copy, PartialEq, Default)]
pub struct Spacing {
    pub space_before: f64,
    pub indent_left: f64,
    pub first_line: f64,
    /// A multiple of the body size; none is the normal height.
    pub line_height: Option<f64>,
}

/// A font with its size and colour.
#[derive(Debug, Clone, PartialEq)]
pub struct FontEntry {
    pub family: String,
    pub generic: u8,
    pub size: f64,
    pub color: Option<[f64; 3]>,
}

/// What the handles of the library stand for.
#[derive(Debug, Default)]
pub struct Tables {
    pub fonts: Vec<FontEntry>,
    pub rects: Vec<Rect>,
    pub spacings: Vec<Spacing>,
    pub angles: Vec<f64>,
    pub lengths: Vec<f64>,
    pub colors: Vec<[f64; 3]>,
}

impl Tables {
    /// Tables whose first entries are the plain font, no spacing, the lengths of
    /// zero and of one point, and black.
    pub fn new() -> Self {
        Tables {
            fonts: vec![FontEntry { family: String::new(), generic: 0, size: 12.0, color: None }],
            rects: Vec::new(),
            spacings: vec![Spacing::default()],
            angles: Vec::new(),
            lengths: vec![0.0, 1.0],
            colors: vec![[0.0; 3]],
        }
    }

    pub fn length(&mut self, v: f64) -> usize {
        if let Some(i) = self.lengths.iter().position(|l| *l == v) {
            return i;
        }
        self.lengths.push(v);
        self.lengths.len() - 1
    }

    pub fn font(&mut self, entry: FontEntry) -> usize {
        if let Some(i) = self.fonts.iter().position(|f| *f == entry) {
            return i;
        }
        self.fonts.push(entry);
        self.fonts.len() - 1
    }

    pub fn rect(&mut self, r: Rect) -> usize {
        self.rects.push(r);
        self.rects.len() - 1
    }

    pub fn spacing(&mut self, s: Spacing) -> usize {
        if let Some(i) = self.spacings.iter().position(|t| *t == s) {
            return i;
        }
        self.spacings.push(s);
        self.spacings.len() - 1
    }

    /// Which fonts can share a run: the same but for half a point of size.
    pub fn close_fonts(&self) -> Fonts {
        let close = self
            .fonts
            .iter()
            .map(|a| {
                self.fonts
                    .iter()
                    .map(|b| {
                        a.family == b.family
                            && a.generic == b.generic
                            && a.color == b.color
                            && (a.size - b.size).abs() < 0.5
                    })
                    .collect()
            })
            .collect();
        Fonts { close }
    }

    /// The style of a run.
    pub fn char_style(&mut self, run: &ReconRun) -> CharStyle {
        let font = self.font(FontEntry {
            family: run.style.family.clone(),
            generic: run.style.generic,
            size: run.size,
            color: style_color(&run.style),
        });
        CharStyle {
            font,
            bold: run.style.bold,
            italic: run.style.italic,
            underline: run.underline,
            strike: run.strike,
            vertical_align: VAlign::Baseline,
        }
    }
}

/// The colour of a style; black is as none.
fn style_color(style: &TextStyle) -> Option<[f64; 3]> {
    style.color.filter(|c| *c != [0.0; 3])
}

/// A key that orders integers as the real numbers are ordered.
pub fn key(v: f64) -> i64 {
    let v = if v == 0.0 { 0.0 } else { v };
    let b = v.to_bits() as i64;
    b ^ (((b >> 63) as u64) >> 1) as i64
}

/// The median, or `fallback` of nothing.
pub fn median(values: &mut [f64], fallback: f64) -> f64 {
    if values.is_empty() {
        return fallback;
    }
    values.sort_by(|a, b| a.partial_cmp(b).unwrap_or(core::cmp::Ordering::Equal));
    let mid = values.len() / 2;
    if values.len() % 2 == 0 {
        (values[mid - 1] + values[mid]) / 2.0
    } else {
        values[mid]
    }
}

/// Floating point: whether a run butts against the one before it, with a gap
/// that is no gap between words.
pub fn runs_join(prev_right: f64, cur_x: f64, height: f64) -> bool {
    let h = height.max(1.0);
    let gap = cur_x - prev_right;
    gap <= h * 0.25 && gap >= -h * 0.5
}

/// Floating point: the size that most text has.
pub fn body_font_size(runs: &[ReconRun], fallback: f64) -> f64 {
    let mut sizes: Vec<f64> =
        runs.iter().filter(|r| !is_blank(&r.text)).map(|r| r.size.max(1.0)).collect();
    median(&mut sizes, fallback)
}

/// How far an angle may lie from a right one and still count as it.
const ROT_SNAP_EPS: f64 = 0.5;

/// Floating point: a baseline angle as a rotation, snapped to right angles.
pub fn rotation_from_baseline_deg(deg: f64, tables: &mut Tables) -> Rotation {
    if !deg.is_finite() {
        return Rotation::D0;
    }
    let mut a = deg % 360.0;
    if a > 180.0 {
        a -= 360.0;
    } else if a <= -180.0 {
        a += 360.0;
    }
    let near = |target: f64| (a - target).abs() <= ROT_SNAP_EPS;
    if near(0.0) {
        Rotation::D0
    } else if near(90.0) {
        Rotation::D90
    } else if near(180.0) || near(-180.0) {
        Rotation::D180
    } else if near(-90.0) {
        Rotation::D270
    } else {
        tables.angles.push(a);
        Rotation::Deg(tables.angles.len() - 1)
    }
}

/// Floating point: the rotation that most runs have.
pub fn runs_rotation<'a>(
    runs: impl Iterator<Item = &'a ReconRun>,
    tables: &mut Tables,
) -> Rotation {
    let mut angles: Vec<f64> = runs.filter(|r| !is_blank(&r.text)).map(|r| r.rotation).collect();
    if angles.is_empty() {
        return Rotation::D0;
    }
    let deg = median(&mut angles, 0.0);
    rotation_from_baseline_deg(deg, tables)
}

/// A page in its own space: where its box starts, and how high it is.
#[derive(Debug, Clone, Copy)]
pub struct PageBox {
    pub x0: f64,
    pub y0: f64,
    pub height: f64,
}

/// How much of the page height the bands along the edges take.
const BAND_FRACTION: f64 = 0.12;

impl PageBox {
    /// Floating point: a box in page space, turned to start at the top left.
    pub fn top_down(&self, x: f64, y: f64, w: f64, h: f64) -> Rect {
        Rect { x: x - self.x0, y: self.height - (y - self.y0) - h, w, h }
    }

    /// Floating point: the frame of a rectangle, with the bands it lies in.
    pub fn frame(&self, r: Rect, tables: &mut Tables) -> Frame {
        let band = self.height * BAND_FRACTION;
        let (top, bottom) = (r.y, r.y + r.h);
        Frame {
            rect: tables.rect(r),
            in_top_band: top >= -0.5 && bottom <= band + 0.5,
            in_bottom_band: top >= self.height - band - 0.5 && bottom <= self.height + 0.5,
            center_bucket: ((r.y + r.h / 2.0) / 2.0).round() as i64,
        }
    }
}

/// Runs on one baseline, with the box around them.
#[derive(Debug, Clone)]
pub struct ReconLine {
    pub runs: Vec<ReconRun>,
    pub x: f64,
    pub y: f64,
    pub w: f64,
    pub h: f64,
}

/// A link and the area it covers, in page space.
#[derive(Debug, Clone)]
pub struct ParaLink {
    pub target: usize,
    pub rect: [f64; 4],
}

impl ReconLine {
    pub fn left(&self) -> f64 {
        self.x
    }

    pub fn right(&self) -> f64 {
        self.x + self.w
    }

    pub fn center_x(&self) -> f64 {
        self.x + self.w / 2.0
    }

    pub fn center_y(&self) -> f64 {
        self.y + self.h / 2.0
    }

    pub fn top(&self) -> f64 {
        self.y + self.h
    }

    pub fn font_size(&self) -> f64 {
        let mut sizes: Vec<f64> = self.runs.iter().map(|r| r.size.max(1.0)).collect();
        median(&mut sizes, self.h.max(1.0))
    }

    pub fn is_bold(&self) -> bool {
        self.runs.iter().any(|r| r.style.bold)
    }

    /// The rotation that most of the line has.
    pub fn rotation(&self, tables: &mut Tables) -> Rotation {
        runs_rotation(self.runs.iter(), tables)
    }

    /// The line as the library sees it.
    pub fn facts(&self, links: &[ParaLink], tables: &mut Tables) -> Line {
        let (base, size) = baseline_and_size(self);
        let mut runs = Vec::with_capacity(self.runs.len());
        for (j, r) in self.runs.iter().enumerate() {
            let follows = self.runs[..j]
                .iter()
                .map(|p| runs_join(p.right(), r.x, r.h.max(p.h)))
                .collect();
            runs.push(LineRun {
                text: r.text.clone(),
                style: tables.char_style(r),
                source_index: r.source_index,
                vertical_align: vertical_align_of(r, base, size),
                link: link_for_run(r, links),
                follows,
            });
        }
        Line { runs, rotation: self.rotation(tables) }
    }
}

/// Floating point: the baseline and the size of most of a line.
fn baseline_and_size(line: &ReconLine) -> (f64, f64) {
    let mut sizes: Vec<f64> = line.runs.iter().map(|r| r.size.max(1.0)).collect();
    let size = median(&mut sizes, line.h.max(1.0));
    let mut bases: Vec<f64> =
        line.runs.iter().filter(|r| r.size >= size * 0.85).map(|r| r.y).collect();
    (median(&mut bases, line.y), size)
}

/// Floating point: whether a run is clearly smaller than its line and stands
/// above or below it.
fn vertical_align_of(run: &ReconRun, base: f64, size: f64) -> VAlign {
    if size <= 0.0 || run.size > size * 0.75 {
        return VAlign::Baseline;
    }
    let offset = run.y - base;
    let threshold = size * 0.20;
    if offset > threshold {
        VAlign::Super
    } else if offset < -threshold {
        VAlign::Sub
    } else {
        VAlign::Baseline
    }
}

/// Floating point: the link whose area covers the centre or half of a run.
fn link_for_run(run: &ReconRun, links: &[ParaLink]) -> Option<usize> {
    if links.is_empty() || run.w <= 0.0 {
        return None;
    }
    let (rx0, rx1, ry0, ry1) = (run.x, run.x + run.w, run.y, run.y + run.h);
    let (cx, cy) = ((rx0 + rx1) / 2.0, (ry0 + ry1) / 2.0);
    for link in links {
        let [ax, ay, bx, by] = link.rect;
        let (lx0, lx1) = (ax.min(bx), ax.max(bx));
        let (ly0, ly1) = (ay.min(by), ay.max(by));
        let center_in = cx >= lx0 && cx <= lx1 && cy >= ly0 && cy <= ly1;
        let ox = (rx1.min(lx1) - rx0.max(lx0)).max(0.0);
        let oy = (ry1.min(ly1) - ry0.max(ly0)).max(0.0);
        let area = (rx1 - rx0).max(0.01) * (ry1 - ry0).max(0.01);
        if center_in || ox * oy >= area * 0.5 {
            return Some(link.target);
        }
    }
    None
}

/// Floating point: runs banded into lines around the centre of each, from the
/// top down.
pub fn group_into_lines(runs: &[ReconRun]) -> Vec<ReconLine> {
    let mut items: Vec<&ReconRun> = runs.iter().filter(|r| !is_blank(&r.text)).collect();
    items.sort_by(|a, b| {
        b.center_y()
            .partial_cmp(&a.center_y())
            .unwrap_or(core::cmp::Ordering::Equal)
            .then(a.x.partial_cmp(&b.x).unwrap_or(core::cmp::Ordering::Equal))
    });
    let mut lines: Vec<ReconLine> = Vec::new();
    let mut centroid = f64::INFINITY;
    let mut weight_sum = 0.0f64;
    let mut row_height = 0.0f64;
    for run in items {
        let c = run.center_y();
        let tol = run.h.max(row_height).max(1.0) * 0.6;
        let weight = run.w.max(0.01);
        let same = !lines.is_empty() && (centroid - c).abs() <= tol;
        match lines.last_mut() {
            Some(line) if same => {
                line.runs.push(run.clone());
                grow(line, run.x, run.y, run.w, run.h);
                weight_sum += weight;
                centroid += (c - centroid) * (weight / weight_sum);
                row_height = row_height.max(run.h);
            }
            _ => {
                lines.push(ReconLine {
                    x: run.x,
                    y: run.y,
                    w: run.w,
                    h: run.h,
                    runs: vec![run.clone()],
                });
                centroid = c;
                weight_sum = weight;
                row_height = run.h;
            }
        }
    }
    merge_overlapping_fragments(&mut lines);
    for line in &mut lines {
        line.runs.sort_by(|a, b| a.x.partial_cmp(&b.x).unwrap_or(core::cmp::Ordering::Equal));
    }
    lines
}

fn grow(line: &mut ReconLine, x: f64, y: f64, w: f64, h: f64) {
    let x0 = line.x.min(x);
    let y0 = line.y.min(y);
    let x1 = (line.x + line.w).max(x + w);
    let y1 = (line.y + line.h).max(y + h);
    line.x = x0;
    line.y = y0;
    line.w = x1 - x0;
    line.h = y1 - y0;
}

/// Fragments rejoined to the line above or below that they overlap most.
fn merge_overlapping_fragments(lines: &mut Vec<ReconLine>) {
    if lines.len() < 2 {
        return;
    }
    lines.sort_by(|a, b| {
        b.center_y().partial_cmp(&a.center_y()).unwrap_or(core::cmp::Ordering::Equal)
    });
    let mut merged: Vec<ReconLine> = Vec::with_capacity(lines.len());
    let mut rest: VecDeque<ReconLine> = lines.drain(..).collect();
    while let Some(line) = rest.pop_front() {
        let above = merged.iter().map(|kept| fragment_overlap_ratio(kept, &line));
        let below = rest
            .iter()
            .map(|next| fragment_overlap_ratio(next, &line).filter(|_| line.h < next.h));
        let overlaps: Vec<Option<i64>> = above.chain(below).map(|r| r.map(key)).collect();
        let Some(i) = host_line(&overlaps) else {
            merged.push(line);
            continue;
        };
        let kept = merged.len();
        let host = if i < kept { &mut merged[i] } else { &mut rest[i - kept] };
        grow(host, line.x, line.y, line.w, line.h);
        host.runs.extend(line.runs);
    }
    *lines = merged;
}

/// The share of the shorter line that must be overlapped.
const MERGE_OVERLAP_RATIO: f64 = 0.55;

/// How high a fragment may be against its line.
const FRAGMENT_HEIGHT_RATIO: f64 = 0.8;

/// Floating point: how much of the shorter of two lines the other overlaps,
/// where it is a fragment.
fn fragment_overlap_ratio(main: &ReconLine, cand: &ReconLine) -> Option<f64> {
    let overlap = main.top().min(cand.top()) - main.y.max(cand.y);
    if overlap <= 0.0 {
        return None;
    }
    let short = main.h.min(cand.h).max(1e-6);
    let tall = main.h.max(cand.h).max(1e-6);
    if short > tall * FRAGMENT_HEIGHT_RATIO {
        return None;
    }
    let ratio = overlap / short;
    (ratio >= MERGE_OVERLAP_RATIO).then_some(ratio)
}

/// The share of the page width from which a line counts as full.
const FULL_WIDTH_FRAC: f64 = 0.80;

/// How much wider than most a line is that probably spans a gutter.
const SPAN_WIDTH_MULT: f64 = 1.8;

/// The least share of the page width of such a line.
const SPAN_MIN_WIDTH_FRAC: f64 = 0.45;

/// How far into a column a line must reach to stand in it.
const SPAN_MARGIN: f64 = 4.0;

/// The columns of a page with their coordinates.
#[derive(Debug)]
pub struct Columns {
    pub layout: ColumnLayout,
    edges: Vec<f64>,
    page_top: f64,
}

impl Columns {
    fn is_separator(&self, line: &ReconLine) -> bool {
        let (lo, hi) = match (self.edges.first(), self.edges.last()) {
            (Some(&lo), Some(&hi)) => (lo, hi),
            _ => (0.0, 0.0),
        };
        let span = (hi - lo).max(1.0);
        let overlaps: Vec<bool> = self
            .edges
            .windows(2)
            .map(|w| line.right().min(w[1]) - line.x.max(w[0]) >= SPAN_MARGIN)
            .collect();
        line_is_separator(
            self.layout.is_multi_column(),
            line.w >= span * FULL_WIDTH_FRAC,
            &overlaps,
        )
    }

    fn place(&self, line: &ReconLine) -> LinePlace {
        LinePlace {
            center: key(line.center_x()),
            top: key(line.top()),
            down: key(self.page_top - line.top()),
            separator: self.is_separator(line),
        }
    }

    /// The lines in reading order.
    pub fn order_lines(&self, lines: &[ReconLine]) -> Vec<usize> {
        let places: Vec<LinePlace> = lines.iter().map(|l| self.place(l)).collect();
        self.layout.order_lines(&places)
    }

    /// The place of a point in the reading order.
    pub fn rank(&self, center_x: f64, top_y: f64) -> Rank {
        self.layout.rank(key(center_x), key(top_y), key(self.page_top - top_y))
    }
}

/// The reading order of lines.
pub fn reading_order(lines: &[ReconLine]) -> Vec<usize> {
    column_layout(lines).order_lines(lines)
}

/// Floating point: the columns of a page and the lines that part it.
pub fn column_layout(lines: &[ReconLine]) -> Columns {
    if lines.len() < 2 {
        return Columns {
            layout: ColumnLayout { bands: Vec::new(), separators: Vec::new() },
            edges: Vec::new(),
            page_top: lines.first().map(|l| l.top()).unwrap_or(0.0),
        };
    }
    let lo = lines.iter().map(|l| l.x).fold(f64::INFINITY, f64::min);
    let hi = lines.iter().map(|l| l.right()).fold(f64::NEG_INFINITY, f64::max);
    let width = (hi - lo).max(1.0);
    let page_top = lines.iter().map(|l| l.top()).fold(f64::NEG_INFINITY, f64::max);
    let body: Vec<&ReconLine> =
        lines.iter().filter(|l| l.w < width * FULL_WIDTH_FRAC).collect();
    let edges = column_bands(&body, lo, hi);
    let mut columns = Columns {
        layout: ColumnLayout {
            bands: edges.iter().map(|&e| key(e)).collect(),
            separators: Vec::new(),
        },
        edges,
        page_top,
    };
    let mut tops: Vec<f64> =
        lines.iter().filter(|l| columns.is_separator(l)).map(|l| l.top()).collect();
    tops.sort_by(|a, b| b.partial_cmp(a).unwrap_or(core::cmp::Ordering::Equal));
    tops.dedup_by(|a, b| (*a - *b).abs() < f64::EPSILON);
    columns.layout.separators = tops.iter().map(|&t| key(t)).collect();
    columns
}

/// Floating point: the edges of the columns, found from the gutters that no
/// line of ordinary width covers.
fn column_bands(body: &[&ReconLine], content_lo: f64, content_hi: f64) -> Vec<f64> {
    if body.len() < 2 {
        return vec![content_lo, content_hi];
    }
    let mut heights: Vec<f64> = body.iter().map(|l| l.h.max(1.0)).collect();
    let h_med = median(&mut heights, 10.0);
    let min_gutter = (h_med * 2.0).max(18.0);
    let content_w = (content_hi - content_lo).max(1.0);
    let mut widths: Vec<f64> = body.iter().map(|l| l.w.max(1.0)).collect();
    let w_med = median(&mut widths, content_w);
    let span_w = (w_med * SPAN_WIDTH_MULT).max(content_w * SPAN_MIN_WIDTH_FRAC);
    let narrow: Vec<&ReconLine> = body.iter().copied().filter(|l| l.w < span_w).collect();
    let lines: Vec<&ReconLine> = if narrow.len() >= 2 { narrow } else { body.to_vec() };

    let mut events: Vec<(f64, bool)> = Vec::with_capacity(lines.len() * 2);
    for l in &lines {
        events.push((l.x, true));
        events.push((l.right(), false));
    }
    events.sort_by(|a, b| a.0.partial_cmp(&b.0).unwrap_or(core::cmp::Ordering::Equal));
    let ink_lo = lines.iter().map(|l| l.x).fold(f64::INFINITY, f64::min);
    let ink_hi = lines.iter().map(|l| l.right()).fold(f64::NEG_INFINITY, f64::max);
    let page_lo = ink_lo.min(content_lo);
    let page_hi = ink_hi.max(content_hi);

    let opens: Vec<bool> = events.iter().map(|e| e.1).collect();
    let inside: Vec<bool> = events.iter().map(|e| e.0 >= ink_lo).collect();
    let boundaries: Vec<f64> = empty_runs(&opens, &inside)
        .into_iter()
        .map(|(a, b)| (events[a].0, events[b].0))
        .filter(|(a, b)| b - a >= min_gutter)
        .map(|(a, b)| (a + b) / 2.0)
        .collect();
    if boundaries.is_empty() {
        return vec![page_lo, page_hi];
    }
    let mut edges = vec![page_lo];
    edges.extend(boundaries);
    edges.push(page_hi);

    let band_ys: Vec<Vec<f64>> = edges
        .windows(2)
        .map(|w| {
            body.iter()
                .filter(|l| l.center_x() >= w[0] && l.center_x() < w[1])
                .map(|l| l.center_y())
                .collect()
        })
        .collect();
    let filled: Vec<usize> = band_ys.iter().map(|ys| ys.len()).collect();
    let beside = if band_ys.len() == 2 {
        (within(&band_ys[0], &band_ys[1], h_med), within(&band_ys[1], &band_ys[0], h_med))
    } else {
        (false, false)
    };
    if accept_bands(&filled, beside) {
        edges
    } else {
        vec![page_lo, page_hi]
    }
}

/// Whether every `y` lies between the lowest and the highest of `span`.
fn within(ys: &[f64], span: &[f64], tol: f64) -> bool {
    let lo = span.iter().copied().fold(f64::INFINITY, f64::min);
    let hi = span.iter().copied().fold(f64::NEG_INFINITY, f64::max);
    ys.iter().all(|&y| y >= lo - tol && y <= hi + tol)
}

/// Floating point: where the text of a marked line starts, behind its marker.
fn item_text_left(line: &ReconLine) -> f64 {
    let Some(first) = line.runs.first() else {
        return line.x;
    };
    let text = first.text.trim_start();
    if detect_marker(text).is_some() && is_marker_only_run(text) {
        if let Some(next) = line
            .runs
            .iter()
            .find(|r| !is_blank(&r.text) && !is_marker_only_run(r.text.trim_start()))
        {
            return next.x;
        }
    }
    let token = marker_token_len_chars(text);
    if token == 0 {
        return line.x;
    }
    let glyphs = first.text.chars().filter(|c| !c.is_whitespace()).count();
    let advance =
        if glyphs > 0 && first.w > 0.0 { first.w / glyphs as f64 } else { first.h * 0.5 };
    line.x + advance * (token as f64 + 1.0)
}

/// Floating point: the representatives of the indents of marked lines, from the
/// left. `tols` says of each line how near to one it may lie.
fn indent_buckets(lines: &[&ReconLine], marked: &[bool], tols: &[f64]) -> Vec<f64> {
    let mut xs: Vec<(f64, f64)> = lines
        .iter()
        .zip(marked)
        .zip(tols)
        .filter(|((_, &m), _)| m)
        .map(|((l, _), &tol)| (l.x, tol))
        .collect();
    xs.sort_by(|a, b| a.0.partial_cmp(&b.0).unwrap_or(core::cmp::Ordering::Equal));
    let mut reps: Vec<f64> = Vec::new();
    for (x, tol) in xs {
        match reps.last() {
            Some(&rep) if (x - rep).abs() <= tol => {}
            _ => reps.push(x),
        }
    }
    reps
}

/// Floating point: the nesting levels of the marked lines of a list.
fn indent_levels(lines: &[&ReconLine], marked: &[bool], body: f64) -> Vec<u8> {
    let tol = body.max(1.0);
    let reps = indent_buckets(lines, marked, &vec![tol; lines.len()]);
    lines
        .iter()
        .map(|l| {
            let near: Vec<bool> = reps.iter().map(|&r| (l.x - r).abs() <= tol).collect();
            let distances: Vec<Option<i64>> =
                reps.iter().map(|&r| Some(key((l.x - r).abs()))).collect();
            level_of(&near, plan::column_of_run(&distances).unwrap_or(0))
        })
        .collect()
}

/// Floating point: the nesting levels of the marked lines of a run; each line's
/// height is how near to an indent it may lie.
fn run_levels(lines: &[&ReconLine], marked: &[bool]) -> Vec<u8> {
    let tols: Vec<f64> = lines.iter().map(|l| l.h.max(1.0)).collect();
    let reps = indent_buckets(lines, marked, &tols);
    lines
        .iter()
        .zip(&tols)
        .map(|(l, tol)| {
            let near: Vec<bool> = reps.iter().map(|&r| (l.x - r).abs() <= *tol).collect();
            level_of(&near, 0)
        })
        .collect()
}

/// The markers of lines.
fn markers(texts: &[String]) -> Vec<Option<MarkerInfo>> {
    texts.iter().map(|t| classify_marker(t)).collect()
}

/// Part the lines of a group into lists and prose.
pub fn split_lists(lines: &[&ReconLine], texts: &[String]) -> Vec<Segment> {
    let infos = markers(texts);
    let marked: Vec<bool> = infos.iter().map(|i| i.is_some()).collect();
    let text_left: Vec<f64> = lines.iter().map(|l| item_text_left(l)).collect();
    let hangs: Vec<Vec<bool>> = (0..lines.len())
        .map(|k| {
            (0..k).map(|i| lines[k].x + lines[i].h.max(1.0) * 0.5 >= text_left[i]).collect()
        })
        .collect();
    let mut levels = vec![0u8; lines.len()];
    for run in list_runs(&marked, &hangs) {
        if run.list {
            let of = run_levels(&lines[run.from..run.to], &marked[run.from..run.to]);
            levels[run.from..run.to].copy_from_slice(&of);
        }
    }
    lists::split_lists(&infos, &hangs, &levels)
}

/// The list block of some lines.
pub fn build_list(
    lines: &[&ReconLine],
    facts: &[Line],
    texts: &[String],
    body: f64,
    page: &PageBox,
    tables: &mut Tables,
    ids: &mut IdGen,
) -> Option<Block> {
    if lines.is_empty() {
        return None;
    }
    let marked: Vec<bool> = markers(texts).iter().map(|i| i.is_some()).collect();
    let levels = indent_levels(lines, &marked, body);
    let x0 = lines.iter().map(|l| l.x).fold(f64::INFINITY, f64::min);
    let y0 = lines.iter().map(|l| l.y).fold(f64::INFINITY, f64::min);
    let x1 = lines.iter().map(|l| l.right()).fold(f64::NEG_INFINITY, f64::max);
    let y1 = lines.iter().map(|l| l.top()).fold(f64::NEG_INFINITY, f64::max);
    let rect = page.top_down(x0, y0, x1 - x0, y1 - y0);
    let frame = page.frame(rect, tables);
    let rotation = runs_rotation(lines.iter().flat_map(|l| l.runs.iter()), tables);
    assert!(ids.has_room(facts.len().saturating_add(1)), "identities are used up");
    items::build_list(facts, &levels, frame, rotation, ids)
}

/// What a paragraph needs to know of its surroundings.
#[derive(Debug, Clone, Copy)]
pub struct ParaContext {
    pub body: f64,
    pub leading: f64,
    pub group_left: f64,
    pub page_left: f64,
    pub prev_bottom: Option<f64>,
}

/// Floating point: the distance between lines that most of a group has.
pub fn group_leading(lines: &[&ReconLine], body: f64, doc_leading: f64) -> f64 {
    let mut steps: Vec<f64> = lines
        .windows(2)
        .map(|w| (w[0].center_y() - w[1].center_y()).abs())
        .filter(|s| *s > 0.0)
        .collect();
    let fallback = if doc_leading > 0.0 { doc_leading } else { body * 1.2 };
    median(&mut steps, fallback).max(body).max(1.0)
}

/// Floating point: the distance between lines that most of a page has.
pub fn document_leading(lines: &[&ReconLine], body: f64) -> f64 {
    let mut ys: Vec<f64> = lines.iter().map(|l| l.center_y()).collect();
    ys.sort_by(|a, b| b.partial_cmp(a).unwrap_or(core::cmp::Ordering::Equal));
    let mut steps: Vec<f64> =
        ys.windows(2).map(|w| (w[0] - w[1]).abs()).filter(|s| *s > 0.0).collect();
    if steps.is_empty() {
        return body * 1.2;
    }
    median(&mut steps, body * 1.2).max(body).max(1.0)
}

/// The left margin of some lines.
pub fn block_left(lines: &[&ReconLine]) -> f64 {
    lines.iter().map(|l| l.left()).fold(f64::INFINITY, f64::min)
}

fn block_right(lines: &[&ReconLine]) -> f64 {
    lines.iter().map(|l| l.right()).fold(f64::NEG_INFINITY, f64::max)
}

/// Floating point: how a line stands between margins.
fn align_of_line(line: &ReconLine, left: f64, right: f64) -> LineAlign {
    let tol = (line.h * 0.5).max(3.0);
    let lead = line.left() - left;
    let trail = right - line.right();
    if lead > tol && (lead - trail).abs() <= tol.max(lead * 0.4) {
        LineAlign::Center
    } else if lead > tol && trail <= tol {
        LineAlign::Right
    } else {
        LineAlign::Left
    }
}

/// Split lines into paragraphs, as the numbers of their first lines.
pub fn split_paragraphs(lines: &[&ReconLine], body: f64) -> Vec<usize> {
    if lines.is_empty() {
        return Vec::new();
    }
    let leading = group_leading(lines, body, 0.0);
    let left = block_left(lines);
    let right = block_right(lines);
    let steps: Vec<paragraphs::Step> = lines
        .windows(2)
        .map(|w| paragraphs::Step {
            big_gap: (w[0].center_y() - w[1].center_y()).abs() > leading * 1.5,
            indent: w[1].left() - left > (body * 0.6).max(6.0),
            from: align_of_line(w[0], left, right),
            to: align_of_line(w[1], left, right),
        })
        .collect();
    paragraphs::split_paragraphs(&steps)
}

fn round2(v: f64) -> f64 {
    (v * 100.0).round() / 100.0
}

/// Floating point: the spacing and the indents of a paragraph.
fn spacing_of(lines: &[&ReconLine], ctx: &ParaContext, left: f64, top: f64) -> Spacing {
    let body = ctx.body.max(1.0);
    let mut line_height = None;
    if lines.len() >= 2 && ctx.leading > 0.0 {
        let mult = ctx.leading / body;
        if (mult - 1.0).abs() > 0.03 {
            line_height = Some(round2(mult));
        }
    }
    let opener = lines.first().map(|l| l.left()).unwrap_or(left) - ctx.group_left;
    let first_line = if opener > (body * 0.6).max(6.0) { round2(opener) } else { 0.0 };
    let indent = left - ctx.page_left;
    let indent_left = if indent > 1.0 { round2(indent) } else { 0.0 };
    let space_before = match ctx.prev_bottom {
        Some(bottom) if ctx.leading > 0.0 => {
            let gap = bottom - top - (ctx.leading - body).max(0.0);
            if gap > body * 0.25 {
                round2(gap)
            } else {
                0.0
            }
        }
        _ => 0.0,
    };
    Spacing { space_before, indent_left, first_line, line_height }
}

/// The lower edge of some lines.
pub fn paragraph_bottom(lines: &[&ReconLine]) -> f64 {
    lines.iter().map(|l| l.y).fold(f64::INFINITY, f64::min)
}

/// The paragraph block of some lines, without spacing and indents.
pub fn build_paragraph(
    lines: &[&ReconLine],
    facts: &[Line],
    page: &PageBox,
    tables: &mut Tables,
    ids: &mut IdGen,
) -> Block {
    spaced_paragraph(lines, facts, Spacing::default(), page, tables, ids)
}

/// The paragraph block of some lines, with the spacing and the indents that it
/// has among its surroundings.
pub fn build_paragraph_styled(
    lines: &[&ReconLine],
    facts: &[Line],
    ctx: &ParaContext,
    page: &PageBox,
    tables: &mut Tables,
    ids: &mut IdGen,
) -> Block {
    let top = lines.iter().map(|l| l.top()).fold(f64::NEG_INFINITY, f64::max);
    let spacing = spacing_of(lines, ctx, block_left(lines), top);
    spaced_paragraph(lines, facts, spacing, page, tables, ids)
}

/// Floating point: the paragraph block of some lines, with its shape and frame.
fn spaced_paragraph(
    lines: &[&ReconLine],
    facts: &[Line],
    spacing: Spacing,
    page: &PageBox,
    tables: &mut Tables,
    ids: &mut IdGen,
) -> Block {
    let left = block_left(lines);
    let right = block_right(lines);
    let bottom = paragraph_bottom(lines);
    let top = lines.iter().map(|l| l.top()).fold(f64::NEG_INFINITY, f64::max);
    let tol = lines.first().map(|l| (l.h * 0.5).max(3.0)).unwrap_or(3.0);
    let shapes: Vec<LineShape> = lines
        .iter()
        .map(|l| LineShape {
            inset: l.left() - left > tol || right - l.right() > tol,
            flush: right - l.right() <= tol && l.left() - left <= tol,
            align: align_of_line(l, left, right),
        })
        .collect();
    let spacing = tables.spacing(spacing);
    let rect = page.top_down(left, bottom, right - left, top - bottom);
    let frame = page.frame(rect, tables);
    let rotation = runs_rotation(lines.iter().flat_map(|l| l.runs.iter()), tables);
    let fonts = tables.close_fonts();
    assert!(ids.has_room(1), "identities are used up");
    paragraphs::build_paragraph_styled(facts, &shapes, spacing, frame, rotation, &fonts, ids)
}

/// From which multiple of the body size a line counts as large.
const HEADING_RATIO: f64 = 1.15;

/// From which multiple of the body size a bold line counts as a heading.
const BOLD_SUBHEAD_RATIO: f64 = 0.98;

/// How near two sizes are that share a level.
const CLUSTER_TOLERANCE: f64 = 0.06;

/// The sizes of headings in use, largest first.
#[derive(Debug, Clone, Default)]
pub struct HeadingLevels {
    clusters: Vec<f64>,
}

impl HeadingLevels {
    /// Floating point: the sizes of the lines that may be headings.
    pub fn from_lines(lines: &[ReconLine], body: f64) -> Self {
        let sizes = lines.iter().filter_map(|line| {
            let size = line.font_size();
            let candidate = size >= body * HEADING_RATIO
                || (line.is_bold() && size >= body * BOLD_SUBHEAD_RATIO);
            candidate.then_some(size)
        });
        Self::from_sizes(sizes)
    }

    /// Floating point: sizes that are near each other make one level.
    pub fn from_sizes(sizes: impl IntoIterator<Item = f64>) -> Self {
        let mut sorted: Vec<f64> = sizes.into_iter().filter(|s| s.is_finite()).collect();
        sorted.sort_by(|a, b| b.partial_cmp(a).unwrap_or(core::cmp::Ordering::Equal));
        let close: Vec<Vec<bool>> = sorted
            .iter()
            .map(|size| {
                sorted
                    .iter()
                    .map(|rep| *rep > 0.0 && *size >= rep * (1.0 - CLUSTER_TOLERANCE))
                    .collect()
            })
            .collect();
        let order: Vec<usize> = (0..sorted.len()).collect();
        Self { clusters: keep_apart(&order, &close).into_iter().map(|i| sorted[i]).collect() }
    }

    /// The level of a size.
    pub fn level_for(&self, size: f64) -> u8 {
        let distances: Vec<i64> =
            self.clusters.iter().map(|rep| key((rep - size).abs())).collect();
        level_for(&distances)
    }
}

/// Floating point: the size of the largest of some runs, those in links too.
fn largest(pieces: &[Inline], tables: &Tables) -> f64 {
    pieces
        .iter()
        .map(|i| match i {
            Inline::Run(run) => tables.fonts.get(run.style.font).map_or(0.0, |f| f.size),
            Inline::Link { children, .. } => largest(children, tables),
            _ => 0.0,
        })
        .fold(0.0_f64, f64::max)
}

/// Floating point: the size of the largest run of a paragraph.
fn paragraph_size(block: &Block, tables: &Tables) -> f64 {
    match &block.kind {
        BlockKind::Paragraph(para) => largest(&para.runs, tables),
        _ => 0.0,
    }
}

/// Make a paragraph that qualifies a heading.
pub fn promote(block: Block, body: f64, levels: &HeadingLevels, tables: &Tables) -> Block {
    let size = paragraph_size(&block, tables);
    let prominence = Prominence {
        large: size >= body * HEADING_RATIO,
        body_sized: size >= body * BOLD_SUBHEAD_RATIO,
        level: levels.level_for(size),
    };
    headings::promote(block, prominence)
}

/// A segment of a painted path.
#[derive(Debug, Clone, Copy, PartialEq)]
pub enum PathSeg {
    Move(f64, f64),
    Line(f64, f64),
    Cubic(f64, f64, f64, f64, f64, f64),
    Close,
}

/// A painted path.
#[derive(Debug, Clone)]
pub struct VectorPath {
    pub index: usize,
    pub bounds: Option<Rect>,
    pub segments: Vec<PathSeg>,
    pub fill: Option<[f64; 3]>,
    pub stroke: Option<[f64; 3]>,
    pub stroke_width: f64,
    pub dash: Vec<f64>,
}

/// A straight rule along an axis.
#[derive(Debug, Clone, Copy, PartialEq)]
pub enum Ruling {
    Horizontal { y: f64, x0: f64, x1: f64 },
    Vertical { x: f64, y0: f64, y1: f64 },
}

/// Floating point: whether a path is a thin straight rule.
pub fn ruling_orientation(vp: &VectorPath) -> Option<Ruling> {
    let b = vp.bounds?;
    if vp.segments.iter().any(|s| matches!(s, PathSeg::Cubic(..))) {
        return None;
    }
    let thin = 2.5_f64.max(vp.stroke_width * 1.5);
    if b.w <= thin && b.h >= thin * 2.0 {
        Some(Ruling::Vertical { x: b.x + b.w / 2.0, y0: b.y, y1: b.y + b.h })
    } else if b.h <= thin && b.w >= thin * 2.0 {
        Some(Ruling::Horizontal { y: b.y + b.h / 2.0, x0: b.x, x1: b.x + b.w })
    } else {
        None
    }
}

/// A table that was found: its edges and rules, and what it takes.
#[derive(Debug, Clone)]
pub struct PlannedTable {
    cols: Vec<f64>,
    rows: Vec<f64>,
    ruled: bool,
    covered_lines: BTreeSet<usize>,
    used_paths: BTreeSet<usize>,
    h_segs: Vec<(f64, f64, f64)>,
    v_segs: Vec<(f64, f64, f64)>,
    col_align: Vec<Align>,
}

/// The tables of a page, in the same order twice: as the library sees them and
/// with their coordinates.
#[derive(Debug)]
pub struct Planned {
    pub plan: TablePlan,
    pub grids: Vec<PlannedTable>,
}

/// Plan the tables of a page: those with rules first, then those without.
pub fn plan_tables(
    lines: &[ReconLine],
    vpaths: &[VectorPath],
    ignore_paths: &BTreeSet<usize>,
) -> Planned {
    let mut planned = Planned { plan: TablePlan { tables: Vec::new() }, grids: Vec::new() };
    if lines.is_empty() {
        return planned;
    }
    planned.take(plan_ruled_all(lines, vpaths, ignore_paths), lines);
    let free = free_lines(&planned.plan, lines.len());
    planned.take(plan_borderless_all(lines, &free), lines);
    planned
}

impl Planned {
    /// Take the grids that are tables.
    fn take(&mut self, found: Vec<PlannedTable>, lines: &[ReconLine]) {
        for t in found.into_iter().filter(|t| is_table(t, lines)) {
            self.plan.tables.push(Placed {
                start_line: t.covered_lines.iter().next().copied().unwrap_or(0),
                covered_lines: t.covered_lines.iter().copied().collect(),
                used_paths: t.used_paths.iter().copied().collect(),
            });
            self.grids.push(t);
        }
    }
}

/// The cell that the centre of each run lies in, with its line and run.
fn cells(table: &PlannedTable, lines: &[ReconLine]) -> Vec<(usize, usize, Option<(usize, usize)>)> {
    let cols: Vec<i64> = table.cols.iter().map(|x| key(*x)).collect();
    let rows: Vec<i64> = table.rows.iter().map(|y| key(*y)).collect();
    let mut out = Vec::new();
    for &li in &table.covered_lines {
        let Some(line) = lines.get(li) else { continue };
        for (ri, run) in line.runs.iter().enumerate() {
            let col = col_of(&cols, key(run.x + run.w / 2.0));
            let row = row_of(&rows, key(run.y + run.h / 2.0));
            out.push((li, ri, row.zip(col)));
        }
    }
    out
}

/// Whether a grid is a table and not the layout of a form.
fn is_table(table: &PlannedTable, lines: &[ReconLine]) -> bool {
    let filled: Vec<Option<(usize, usize)>> = cells(table, lines)
        .into_iter()
        .filter(|&(li, ri, _)| !is_blank(&lines[li].runs[ri].text))
        .map(|(_, _, cell)| cell)
        .collect();
    passes_table_sanity(
        table.rows.len().saturating_sub(1),
        table.cols.len().saturating_sub(1),
        &filled,
    )
}

/// The table block of a planned table.
pub fn build_table(
    table: &PlannedTable,
    lines: &[ReconLine],
    page: &PageBox,
    handles: &mut Tables,
    ids: &mut IdGen,
) -> Option<Block> {
    let rows = table.rows.len().saturating_sub(1);
    let cols = table.cols.len().saturating_sub(1);
    if rows == 0 || cols == 0 {
        return None;
    }
    let mut runs = Vec::new();
    for (li, ri, cell) in cells(table, lines) {
        let run = &lines[li].runs[ri];
        let style = handles.char_style(run);
        runs.push(GridRun {
            text: run.text.clone(),
            style,
            source_index: run.source_index,
            cell,
        });
    }
    let left_rules = (0..rows)
        .map(|r| (0..cols).map(|c| vrule_present(table, table.cols[c], r)).collect())
        .collect();
    let top_rules = (0..rows)
        .map(|r| (0..cols).map(|c| hrule_present(table, table.rows[r], c)).collect())
        .collect();
    let grid = Grid {
        rows,
        cols,
        ruled: table.ruled,
        left_rules,
        top_rules,
        col_align: table.col_align.clone(),
        col_widths: gaps(&table.cols, handles),
        row_heights: gaps(&table.rows, handles),
    };
    let (x0, x1) = (table.cols[0], table.cols[cols]);
    let (top, bottom) = (table.rows[0], table.rows[rows]);
    let rect = page.top_down(x0, bottom, x1 - x0, top - bottom);
    let frame = page.frame(rect, handles);
    let has_rules = !table.h_segs.is_empty() || !table.v_segs.is_empty();
    let cells = rows.checked_mul(cols).and_then(|n| n.checked_add(1));
    assert!(cells.is_some_and(|n| ids.has_room(n)), "identities are used up");
    tables::build_table(&grid, has_rules, &runs, frame, ids)
}

/// The handles of the gaps between neighbouring edges.
fn gaps(edges: &[f64], handles: &mut Tables) -> Vec<usize> {
    edges.windows(2).map(|w| handles.length((w[1] - w[0]).abs())).collect()
}

/// How near a segment lies to an edge that it draws.
const EDGE_TOL: f64 = 3.0;

/// The share of an edge that must be drawn.
const RULE_COVER: f64 = 0.6;

/// How much of the interval from `lo` to `hi` the segments at `edge` cover.
fn covered(segs: &[(f64, f64, f64)], edge: f64, lo: f64, hi: f64) -> f64 {
    segs.iter()
        .filter(|s| (s.0 - edge).abs() <= EDGE_TOL)
        .map(|s| (s.1.max(s.2).min(hi) - s.1.min(s.2).max(lo)).max(0.0))
        .sum()
}

/// Floating point: whether a rule stands at `x_edge` along row `r`.
fn vrule_present(table: &PlannedTable, x_edge: f64, r: usize) -> bool {
    let (a, b) = (table.rows[r], table.rows[r + 1]);
    let band = (a - b).abs();
    band > 0.0 && covered(&table.v_segs, x_edge, a.min(b), a.max(b)) >= band * RULE_COVER
}

/// Floating point: whether a rule lies at `y_edge` along column `c`.
fn hrule_present(table: &PlannedTable, y_edge: f64, c: usize) -> bool {
    let (a, b) = (table.cols[c], table.cols[c + 1]);
    let band = (a - b).abs();
    band > 0.0 && covered(&table.h_segs, y_edge, a.min(b), a.max(b)) >= band * RULE_COVER
}

#[derive(Debug, Clone, Copy)]
struct HSeg {
    y: f64,
    x0: f64,
    x1: f64,
    path: usize,
}

#[derive(Debug, Clone, Copy)]
struct VSeg {
    x: f64,
    y0: f64,
    y1: f64,
    path: usize,
}

/// The least gap between two tables one above the other.
const BAND_MIN_GAP: f64 = 6.0;

/// Floating point: the grids that rules draw, one for each band of rules.
fn plan_ruled_all(
    lines: &[ReconLine],
    vpaths: &[VectorPath],
    ignore_paths: &BTreeSet<usize>,
) -> Vec<PlannedTable> {
    let mut h_rules: Vec<HSeg> = Vec::new();
    let mut v_rules: Vec<VSeg> = Vec::new();
    for vp in vpaths.iter().filter(|vp| !ignore_paths.contains(&vp.index)) {
        match ruling_orientation(vp) {
            Some(Ruling::Horizontal { y, x0, x1 }) => {
                h_rules.push(HSeg { y, x0, x1, path: vp.index })
            }
            Some(Ruling::Vertical { x, y0, y1 }) => {
                v_rules.push(VSeg { x, y0, y1, path: vp.index })
            }
            None => {}
        }
    }
    if h_rules.len() < 2 || v_rules.len() < 2 {
        return Vec::new();
    }
    let mut out = Vec::new();
    for (lo, hi) in segment_rule_bands(&h_rules, &v_rules) {
        let (lo, hi) = (lo - EDGE_TOL, hi + EDGE_TOL);
        let h: Vec<HSeg> = h_rules.iter().copied().filter(|s| s.y >= lo && s.y <= hi).collect();
        let v: Vec<VSeg> = v_rules
            .iter()
            .copied()
            .filter(|s| s.y0.min(s.y1) <= hi && s.y0.max(s.y1) >= lo)
            .collect();
        out.extend(build_ruled_band(lines, &h, &v));
    }
    out
}

/// Floating point: the extents of the bands that rules make.
fn segment_rule_bands(h_rules: &[HSeg], v_rules: &[VSeg]) -> Vec<(f64, f64)> {
    let mut intervals: Vec<(f64, f64)> = h_rules.iter().map(|s| (s.y, s.y)).collect();
    intervals.extend(v_rules.iter().map(|s| (s.y0.min(s.y1), s.y0.max(s.y1))));
    intervals.sort_by(|a, b| a.0.partial_cmp(&b.0).unwrap_or(core::cmp::Ordering::Equal));
    let gap = BAND_MIN_GAP.max(row_pitch(h_rules) * 1.5);
    let ends: Vec<i64> = intervals.iter().map(|i| key(i.1)).collect();
    let apart: Vec<Vec<bool>> = (0..intervals.len())
        .map(|k| intervals[..k].iter().map(|i| intervals[k].0 - i.1 > gap).collect())
        .collect();
    plan::segment_rule_bands(&ends, &apart)
        .into_iter()
        .map(|(a, b)| {
            let hi = intervals[a..b].iter().map(|i| i.1).fold(f64::NEG_INFINITY, f64::max);
            (intervals[a].0, hi)
        })
        .collect()
}

/// Floating point: the distance between rows that most have.
fn row_pitch(h_rules: &[HSeg]) -> f64 {
    let mut ys: Vec<f64> = h_rules.iter().map(|s| s.y).collect();
    ys.sort_by(|a, b| a.partial_cmp(b).unwrap_or(core::cmp::Ordering::Equal));
    let mut gaps: Vec<f64> =
        ys.windows(2).map(|w| w[1] - w[0]).filter(|g| *g > EDGE_TOL).collect();
    if gaps.is_empty() {
        return 0.0;
    }
    gaps.sort_by(|a, b| a.partial_cmp(b).unwrap_or(core::cmp::Ordering::Equal));
    gaps[gaps.len() / 2]
}

/// Floating point: edges that nearly agree, as one.
fn cluster_edges(values: impl Iterator<Item = f64>) -> Vec<f64> {
    let mut vs: Vec<f64> = values.collect();
    vs.sort_by(|a, b| a.partial_cmp(b).unwrap_or(core::cmp::Ordering::Equal));
    let mut out: Vec<f64> = Vec::new();
    for v in vs {
        match out.last_mut() {
            Some(last) if (v - *last).abs() <= EDGE_TOL => *last = (*last + v) / 2.0,
            _ => out.push(v),
        }
    }
    out
}

/// Floating point: the grid of one band of rules.
fn build_ruled_band(lines: &[ReconLine], h: &[HSeg], v: &[VSeg]) -> Option<PlannedTable> {
    if h.len() < 2 || v.len() < 2 {
        return None;
    }
    let cols = cluster_edges(v.iter().map(|r| r.x));
    let mut rows = cluster_edges(h.iter().map(|r| r.y));
    if cols.len() < 2 || rows.len() < 2 {
        return None;
    }
    rows.reverse();
    let (x_lo, x_hi) = (cols[0], cols[cols.len() - 1]);
    let (y_top, y_bot) = (rows[0], rows[rows.len() - 1]);
    let covered: BTreeSet<usize> = (0..lines.len())
        .filter(|&i| {
            let (cx, cy) = (lines[i].center_x(), lines[i].center_y());
            cx >= x_lo - 1.0 && cx <= x_hi + 1.0 && cy <= y_top + 1.0 && cy >= y_bot - 1.0
        })
        .collect();
    if covered.is_empty() {
        return None;
    }
    let col_align = vec![Align::Left; cols.len() - 1];
    Some(PlannedTable {
        cols,
        rows,
        ruled: true,
        covered_lines: covered,
        used_paths: h.iter().map(|s| s.path).chain(v.iter().map(|s| s.path)).collect(),
        h_segs: h.iter().map(|s| (s.y, s.x0, s.x1)).collect(),
        v_segs: v.iter().map(|s| (s.x, s.y0, s.y1)).collect(),
        col_align,
    })
}

/// Floating point: where the decimal separator of a run stands.
fn decimal_sep_x(text: &str, x: f64, w: f64) -> Option<f64> {
    if w <= 0.0 {
        return None;
    }
    let (at, len) = decimal_sep(text)?;
    Some(x + w * ((at as f64 + 0.5) / len as f64))
}

/// The edges of a run: left, right, and its decimal separator.
type Edges = (f64, f64, Option<f64>);

fn edges_of(line: &ReconLine) -> impl Iterator<Item = Edges> + '_ {
    line.runs.iter().map(|r| (r.x, r.x + r.w, decimal_sep_x(&r.text, r.x, r.w)))
}

/// A column: what its runs are aligned on, and its middle.
#[derive(Debug, Clone, Copy)]
struct Column {
    anchor: f64,
    align: Align,
    decimal: bool,
    center: f64,
}

/// Floating point: values that follow each other closely.
fn cluster_1d(values: &[f64], gap: f64) -> Vec<Vec<f64>> {
    let mut v: Vec<f64> = values.to_vec();
    v.sort_by(|a, b| a.partial_cmp(b).unwrap_or(core::cmp::Ordering::Equal));
    let near: Vec<bool> = v.windows(2).map(|w| w[1] - w[0] <= gap).collect();
    detect::cluster_1d(v.len(), &near).into_iter().map(|(a, b)| v[a..b].to_vec()).collect()
}

fn mean(v: &[f64]) -> f64 {
    v.iter().sum::<f64>() / v.len() as f64
}

/// Where the edges of a candidate lie, and how far from each other.
struct Place {
    pos: f64,
    spread: f64,
}

/// Floating point: how a run sees the candidates.
fn views_of(run: Edges, kinds: &[Candidate], places: &[Place], col_gap: f64) -> Views {
    let dist: Vec<Option<f64>> = kinds
        .iter()
        .zip(places)
        .map(|(k, p)| {
            let edge = match k.kind {
                Kind::Left => Some(run.0),
                Kind::Right => Some(run.1),
                Kind::Decimal => run.2,
            };
            edge.map(|e| (e - p.pos).abs())
        })
        .collect();
    let far = |k: usize| dist[k].unwrap_or(f64::INFINITY);
    let nearness = |k: usize, b: usize| {
        if (far(k) - far(b)).abs() <= 1e-6 {
            Nearness::Even
        } else if far(k) < far(b) {
            Nearness::Nearer
        } else {
            Nearness::Farther
        }
    };
    Views {
        reach: dist.iter().map(|d| d.is_some_and(|d| d <= col_gap)).collect(),
        nearness: (0..places.len()).map(|k| (0..k).map(|b| nearness(k, b)).collect()).collect(),
        tighter: (0..places.len())
            .map(|k| (0..k).map(|b| places[k].spread < places[b].spread - 1e-6).collect())
            .collect(),
    }
}

/// Floating point: the columns that the edges of runs make.
fn detect_columns(runs: &[Edges], col_gap: f64) -> Vec<Column> {
    let lefts: Vec<f64> = runs.iter().map(|r| r.0).collect();
    let rights: Vec<f64> = runs.iter().map(|r| r.1).collect();
    let decimals: Vec<f64> = runs.iter().filter_map(|r| r.2).collect();
    let mut kinds: Vec<Candidate> = Vec::new();
    let mut places: Vec<Place> = Vec::new();
    let families = [
        (Kind::Left, cluster_1d(&lefts, col_gap)),
        (Kind::Right, cluster_1d(&rights, col_gap)),
        (Kind::Decimal, cluster_1d(&decimals, (col_gap * 0.5).max(4.0))),
    ];
    for (kind, clusters) in families {
        for c in clusters.iter().filter(|c| kind != Kind::Decimal || c.len() >= 2) {
            let pos = mean(c);
            let spread = c.iter().map(|v| (v - pos).abs()).fold(0.0, f64::max);
            kinds.push(Candidate { kind, support: c.len() });
            places.push(Place { pos, spread });
        }
    }
    let views: Vec<Views> =
        runs.iter().map(|&run| views_of(run, &kinds, &places, col_gap)).collect();
    let has_decimals: Vec<bool> = runs.iter().map(|r| r.2.is_some()).collect();
    let columns: Vec<Column> = detect::detect_columns(&kinds, &views, &has_decimals)
        .into_iter()
        .map(|won| {
            let of = |edge: fn(&Edges) -> Option<f64>| -> Vec<f64> {
                won.runs.iter().filter_map(|&i| edge(&runs[i])).collect()
            };
            let (ls, rs) = (of(|r| Some(r.0)), of(|r| Some(r.1)));
            let kind = kinds[won.candidate].kind;
            let anchor = match kind {
                Kind::Left => mean(&ls),
                Kind::Right => mean(&rs),
                Kind::Decimal => mean(&of(|r| r.2)),
            };
            let lo = ls.iter().copied().fold(f64::INFINITY, f64::min);
            let hi = rs.iter().copied().fold(f64::NEG_INFINITY, f64::max);
            let center = (lo + hi) / 2.0;
            Column { anchor, align: won.align, decimal: kind == Kind::Decimal, center }
        })
        .collect();
    let centers: Vec<i64> = columns.iter().map(|c| key(c.center)).collect();
    let close: Vec<Vec<bool>> = columns
        .iter()
        .map(|a| columns.iter().map(|b| (a.center - b.center).abs() <= col_gap).collect())
        .collect();
    order_columns(&centers, &close).into_iter().map(|i| columns[i]).collect()
}

/// Floating point: the column that a run belongs to.
fn column_of_run(columns: &[Column], run: Edges, col_gap: f64) -> Option<usize> {
    let distances: Vec<Option<i64>> = columns
        .iter()
        .map(|c| {
            let edge = if c.decimal {
                run.2.unwrap_or(run.1)
            } else if c.align == Align::Left {
                run.0
            } else {
                run.1
            };
            let d = (edge - c.anchor).abs();
            (d <= col_gap).then(|| key(d))
        })
        .collect();
    plan::column_of_run(&distances)
}

/// The lines that are rows of some columns.
fn rows_among(
    lines: &[ReconLine],
    among: &[usize],
    columns: &[Column],
    col_gap: f64,
) -> Vec<usize> {
    let hits: Vec<Vec<Option<usize>>> = among
        .iter()
        .map(|&i| edges_of(&lines[i]).map(|e| column_of_run(columns, e, col_gap)).collect())
        .collect();
    tabular_rows(&hits).into_iter().map(|k| among[k]).collect()
}

/// Floating point: the grids that aligned runs make, one for each region.
fn plan_borderless_all(lines: &[ReconLine], free: &[usize]) -> Vec<PlannedTable> {
    if free.len() < 2 {
        return Vec::new();
    }
    let edges: Vec<Edges> = free.iter().flat_map(|&i| edges_of(&lines[i])).collect();
    if edges.len() < 4 {
        return Vec::new();
    }
    let mut heights: Vec<f64> =
        free.iter().flat_map(|&i| lines[i].runs.iter().map(|r| r.h.max(1.0))).collect();
    let h_med = median(&mut heights, 10.0);
    let col_gap = (h_med * 2.0).max(16.0);
    let columns = detect_columns(&edges, col_gap);
    if columns.len() < 2 {
        return Vec::new();
    }
    let mut ordered = rows_among(lines, free, &columns, col_gap);
    if ordered.len() < 2 {
        return Vec::new();
    }
    let row_gap = (h_med * 2.5).max(20.0);
    ordered.sort_by(|&a, &b| {
        lines[b]
            .center_y()
            .partial_cmp(&lines[a].center_y())
            .unwrap_or(core::cmp::Ordering::Equal)
    });
    let near: Vec<bool> = ordered
        .windows(2)
        .map(|w| (lines[w[0]].center_y() - lines[w[1]].center_y()).abs() <= row_gap)
        .collect();
    detect::cluster_1d(ordered.len(), &near)
        .into_iter()
        .filter_map(|(a, b)| build_borderless_region(lines, &ordered[a..b], h_med, col_gap))
        .collect()
}

/// Floating point: the grid of one region.
fn build_borderless_region(
    lines: &[ReconLine],
    region: &[usize],
    h_med: f64,
    col_gap: f64,
) -> Option<PlannedTable> {
    if region.len() < 2 {
        return None;
    }
    let edges: Vec<Edges> = region.iter().flat_map(|&i| edges_of(&lines[i])).collect();
    let columns = detect_columns(&edges, col_gap);
    if columns.len() < 2 {
        return None;
    }
    let row_lines = rows_among(lines, region, &columns, col_gap);
    if row_lines.len() < 2 {
        return None;
    }
    let mut cols = vec![columns[0].center - col_gap / 2.0];
    cols.extend(columns.windows(2).map(|w| (w[0].center + w[1].center) / 2.0));
    cols.push(columns[columns.len() - 1].center + col_gap * 4.0);
    let mut centers: Vec<f64> = row_lines.iter().map(|&i| lines[i].center_y()).collect();
    centers.sort_by(|a, b| b.partial_cmp(a).unwrap_or(core::cmp::Ordering::Equal));
    let top_h = lines[row_lines[0]].h.max(h_med);
    let mut rows = vec![centers[0] + top_h];
    rows.extend(centers.windows(2).map(|w| (w[0] + w[1]) / 2.0));
    rows.push(centers[centers.len() - 1] - top_h);
    Some(PlannedTable {
        cols,
        rows,
        ruled: false,
        covered_lines: row_lines.into_iter().collect(),
        used_paths: BTreeSet::new(),
        h_segs: Vec::new(),
        v_segs: Vec::new(),
        col_align: columns.iter().map(|c| c.align).collect(),
    })
}

/// An image and where it stands in page space.
#[derive(Debug, Clone, Copy)]
pub struct PlacedImageRef {
    pub resource: u64,
    pub x: f64,
    pub y: f64,
    pub w: f64,
    pub h: f64,
}

/// A text element of a page, as the content walker reports it.
#[derive(Debug, Clone)]
pub struct TextElement {
    pub index: usize,
    pub label: String,
    pub bounds: Option<Rect>,
    pub font: Option<String>,
    pub font_size: Option<f64>,
    pub color: Option<[f64; 3]>,
    pub rotation_deg: Option<f64>,
    pub nested: bool,
}

/// A painted shape, with the origin at the top left.
#[derive(Debug, Clone)]
pub struct Shape {
    pub segments: Vec<PathSeg>,
    pub fill: Option<[f64; 3]>,
    pub stroke: Option<[f64; 3]>,
    pub stroke_width: f64,
    pub dash: Vec<f64>,
}

/// The runs of the text elements that show something and have a place.
pub fn runs_from_elements(
    elements: &[TextElement],
    font_styles: &BTreeMap<String, TextStyle>,
) -> Vec<ReconRun> {
    elements
        .iter()
        .filter(|e| !is_blank(&e.label))
        .filter_map(|e| {
            let b = e.bounds?;
            let named = e.font.as_deref().and_then(|f| font_styles.get(f));
            let mut style = named.cloned().unwrap_or_default();
            style.color = e.color;
            Some(ReconRun {
                text: e.label.clone(),
                x: b.x,
                y: b.y,
                w: b.w,
                h: b.h,
                size: e.font_size.unwrap_or(b.h).max(1.0),
                style,
                rotation: e.rotation_deg.unwrap_or(0.0),
                source_index: if e.nested { None } else { Some(e.index) },
                underline: false,
                strike: false,
            })
        })
        .collect()
}

/// The strip of an underline, in heights of the run above its lower edge.
const UNDER: (f64, f64) = (-0.30, 0.22);

/// The strip of a strike.
const STRIKE: (f64, f64) = (0.35, 0.58);

/// Floating point: which horizontal rules lie in a strip of each run and cover
/// most of it, and the paths that draw them.
fn hits_in(runs: &[ReconRun], vpaths: &[VectorPath], strip: (f64, f64)) -> (Vec<Vec<bool>>, Vec<u64>) {
    let rules: Vec<(f64, f64, f64, u64)> = vpaths
        .iter()
        .filter_map(|vp| match ruling_orientation(vp) {
            Some(Ruling::Horizontal { y, x0, x1 }) => Some((y, x0, x1, vp.index as u64)),
            _ => None,
        })
        .collect();
    let strips: Vec<Strip> = runs
        .iter()
        .map(|r| Strip { lo: key(r.y + r.h * strip.0), hi: key(r.y + r.h * strip.1) })
        .collect();
    let covers: Vec<Vec<bool>> = runs
        .iter()
        .map(|r| {
            rules
                .iter()
                .map(|&(_, x0, x1, _)| {
                    let overlap = (r.right().min(x1) - r.x.max(x0)).max(0.0);
                    !is_blank(&r.text) && r.w > 0.0 && overlap >= r.w * 0.55
                })
                .collect()
        })
        .collect();
    let heights: Vec<i64> = rules.iter().map(|r| key(r.0)).collect();
    (rule_hits(&strips, &covers, &heights), rules.iter().map(|r| r.3).collect())
}

/// Mark the runs that a rule underlines, and return the paths used.
pub fn mark_underlines(runs: &mut [ReconRun], vpaths: &[VectorPath]) -> Vec<usize> {
    let (hits, paths) = hits_in(runs, vpaths, UNDER);
    let (marks, used) = mark_rules(&hits, &paths);
    for (run, m) in runs.iter_mut().zip(marks) {
        run.underline |= m;
    }
    used.into_iter().map(|p| p as usize).collect()
}

/// Mark the runs that a rule strikes through, and return the paths used.
pub fn mark_strikes(runs: &mut [ReconRun], vpaths: &[VectorPath]) -> Vec<usize> {
    let (hits, paths) = hits_in(runs, vpaths, STRIKE);
    let (marks, used) = mark_rules(&hits, &paths);
    for (run, m) in runs.iter_mut().zip(marks) {
        run.strike |= m;
    }
    used.into_iter().map(|p| p as usize).collect()
}

/// The blocks of a page with what their handles stand for.
#[derive(Debug)]
pub struct PageBlocks {
    pub blocks: Vec<Block>,
    pub tables: Tables,
    pub shapes: Vec<Shape>,
}

/// Turn a page into blocks, in reading order. Blocks that the author tagged are
/// taken as they are.
pub fn reconstruct_page(
    mut text_runs: Vec<ReconRun>,
    vpaths: &[VectorPath],
    image_refs: &[PlacedImageRef],
    page: PageBox,
    ids: &mut IdGen,
    links: &[ParaLink],
    tag_blocks: Option<Vec<Block>>,
) -> PageBlocks {
    let mut tables = Tables::new();
    let mut shapes = Vec::new();
    if let Some(blocks) = tag_blocks {
        return PageBlocks { blocks, tables, shapes };
    }
    let mut decor: BTreeSet<usize> =
        mark_underlines(&mut text_runs, vpaths).into_iter().collect();
    decor.extend(mark_strikes(&mut text_runs, vpaths));

    let lines = group_into_lines(&text_runs);
    let body = body_font_size(&text_runs, 12.0);
    let layout = column_layout(&lines);
    let order = layout.order_lines(&lines);
    let planned = plan_tables(&lines, vpaths, &decor);

    let mut blocks: Vec<Block> = Vec::new();
    for step in walk(&planned.plan, &order) {
        match step {
            page::Step::Table(k) => {
                blocks.extend(build_table(&planned.grids[k], &lines, &page, &mut tables, ids));
            }
            page::Step::Line(i) => {
                assert!((i as u64) < PENDING_TAG, "too many lines");
                blocks.push(make_pending(i));
            }
        }
    }

    let levels = HeadingLevels::from_lines(&lines, body);
    let all: Vec<&ReconLine> = lines.iter().collect();
    let doc_leading = document_leading(&all, body);
    let mut out: Vec<Block> = Vec::new();
    for stretch in gather_text(blocks) {
        match stretch {
            Stretch::Done(block) => out.push(block),
            Stretch::Text(group) => {
                let group: Vec<&ReconLine> = group.iter().map(|&i| &lines[i]).collect();
                let text = TextGroup { body, doc_leading, page, links, levels: &levels };
                out.extend(text.lower(&group, &mut tables, ids));
            }
        }
    }

    let decor: Vec<usize> = decor.into_iter().collect();
    let paths: Vec<(usize, bool)> =
        vpaths.iter().map(|vp| (vp.index, vp.bounds.is_some())).collect();
    for k in surviving_paths(&planned.plan, &decor, &paths) {
        let vp = &vpaths[k];
        let Some(b) = vp.bounds else { continue };
        shapes.push(shape_of(vp, &page));
        let rect = page.top_down(b.x, b.y, b.w, b.h);
        assert!(ids.has_room(1), "identities are used up");
        out.push(Block {
            id: ids.mint(),
            frame: Some(page.frame(rect, &mut tables)),
            rotation: Rotation::D0,
            kind: BlockKind::Shape(shapes.len() - 1),
        });
    }

    for img in image_refs {
        let rect = page.top_down(img.x, img.y, img.w, img.h);
        let gaps: Vec<Option<i64>> =
            out.iter().map(|b| caption_gap(b, &rect, &tables).map(key)).collect();
        let alt = take_caption_for(&mut out, &gaps);
        assert!(ids.has_room(1), "identities are used up");
        out.push(Block {
            id: ids.mint(),
            frame: Some(page.frame(rect, &mut tables)),
            rotation: Rotation::D0,
            kind: BlockKind::Image(ImageRef { resource: img.resource, alt }),
        });
    }

    let keys: Vec<Rank> = out.iter().map(|b| reading_rank(b, &layout, &page, &tables)).collect();
    PageBlocks { blocks: interleave_by_reading_order(out, &keys), tables, shapes }
}

/// What the text of a page is lowered with.
struct TextGroup<'a> {
    body: f64,
    doc_leading: f64,
    page: PageBox,
    links: &'a [ParaLink],
    levels: &'a HeadingLevels,
}

impl TextGroup<'_> {
    /// Lists, headings and paragraphs of lines that follow each other.
    fn lower(&self, group: &[&ReconLine], tables: &mut Tables, ids: &mut IdGen) -> Vec<Block> {
        let facts: Vec<Line> = group.iter().map(|l| l.facts(self.links, tables)).collect();
        let texts: Vec<String> = facts.iter().map(|f| f.text_string()).collect();
        let mut out = Vec::new();
        for seg in split_lists(group, &texts) {
            match seg {
                Segment::List(a, b) => out.extend(build_list(
                    &group[a..b],
                    &facts[a..b],
                    &texts[a..b],
                    self.body,
                    &self.page,
                    tables,
                    ids,
                )),
                Segment::Prose(a, b) => {
                    out.extend(self.prose(&group[a..b], &facts[a..b], tables, ids))
                }
            }
        }
        out
    }

    fn prose(
        &self,
        lines: &[&ReconLine],
        facts: &[Line],
        tables: &mut Tables,
        ids: &mut IdGen,
    ) -> Vec<Block> {
        let leading = group_leading(lines, self.body, self.doc_leading);
        let group_left = block_left(lines);
        let mut prev_bottom = None;
        let mut out = Vec::new();
        let starts = split_paragraphs(lines, self.body);
        for (k, &a) in starts.iter().enumerate() {
            let b = starts.get(k + 1).copied().unwrap_or(lines.len());
            let ctx = ParaContext {
                body: self.body,
                leading,
                group_left,
                page_left: self.page.x0,
                prev_bottom,
            };
            let block =
                build_paragraph_styled(&lines[a..b], &facts[a..b], &ctx, &self.page, tables, ids);
            prev_bottom = Some(paragraph_bottom(&lines[a..b]));
            out.push(promote(block, self.body, self.levels, tables));
        }
        out
    }
}

/// Floating point: a path turned to start at the top left.
fn shape_of(vp: &VectorPath, page: &PageBox) -> Shape {
    let px = |x: f64| x - page.x0;
    let py = |y: f64| page.height - (y - page.y0);
    let segments = vp
        .segments
        .iter()
        .map(|seg| match *seg {
            PathSeg::Move(x, y) => PathSeg::Move(px(x), py(y)),
            PathSeg::Line(x, y) => PathSeg::Line(px(x), py(y)),
            PathSeg::Cubic(a, b, c, d, e, f) => {
                PathSeg::Cubic(px(a), py(b), px(c), py(d), px(e), py(f))
            }
            PathSeg::Close => PathSeg::Close,
        })
        .collect();
    Shape {
        segments,
        fill: vp.fill,
        stroke: vp.stroke,
        stroke_width: vp.stroke_width,
        dash: vp.dash.clone(),
    }
}

/// The largest gap between an image and its caption.
const CAPTION_MAX_GAP_PT: f64 = 24.0;

/// Floating point: the gap between an image and a block just above or below it
/// that is about as wide.
fn caption_gap(block: &Block, image: &Rect, tables: &Tables) -> Option<f64> {
    let frame = tables.rects.get(block.frame?.rect)?;
    if image.w <= 0.0 || !(0.5..=1.5).contains(&(frame.w / image.w)) {
        return None;
    }
    let cx = image.x + image.w / 2.0;
    if cx < frame.x - 1.0 || cx > frame.x + frame.w + 1.0 {
        return None;
    }
    let (top, bottom) = (image.y, image.y + image.h);
    let gap = if frame.y >= bottom - 1.0 {
        frame.y - bottom
    } else if frame.y + frame.h <= top + 1.0 {
        top - (frame.y + frame.h)
    } else {
        return None;
    };
    (gap <= CAPTION_MAX_GAP_PT).then_some(gap)
}

/// Floating point: the place of a block in the reading order; one without a
/// frame comes last.
fn reading_rank(block: &Block, layout: &Columns, page: &PageBox, tables: &Tables) -> Rank {
    match block.frame.and_then(|f| tables.rects.get(f.rect)) {
        Some(r) => {
            layout.rank(r.x + page.x0 + r.w / 2.0, page.height - r.y + page.y0)
        }
        None => Rank { last: true, ..layout.rank(f64::INFINITY, f64::NEG_INFINITY) },
    }
}

// ── helpers ──

fn text_of_line(line: &ReconLine) -> String {
    line.facts(&[], &mut Tables::new()).text_string()
}

fn test_page() -> PageBox {
    PageBox { x0: 0.0, y0: 0.0, height: 800.0 }
}

fn segments_of(lines: &[&ReconLine]) -> Vec<Segment> {
    let texts: Vec<String> = lines.iter().map(|l| text_of_line(l)).collect();
    split_lists(lines, &texts)
}

fn list_block(lines: &[&ReconLine], body: f64, ids: &mut IdGen) -> Option<Block> {
    let mut tables = Tables::new();
    let facts: Vec<Line> = lines.iter().map(|l| l.facts(&[], &mut tables)).collect();
    let texts: Vec<String> = facts.iter().map(|f| f.text_string()).collect();
    build_list(lines, &facts, &texts, body, &test_page(), &mut tables, ids)
}

fn promoted(
    text: &str,
    size: f64,
    bold: bool,
    breaks: usize,
    body: f64,
    levels: &HeadingLevels,
) -> Block {
    let mut tables = Tables::new();
    let font = tables.font(FontEntry { family: String::new(), generic: 0, size, color: None });
    let style = CharStyle { font, bold, ..plain_style() };
    let run = |text: &str| {
        Inline::Run(InlineRun { text: text.to_string(), style, source_index: None })
    };
    let mut runs = vec![run(text)];
    for _ in 0..breaks {
        runs.push(Inline::LineBreak);
        runs.push(run("more"));
    }
    let block = Block {
        id: BlockId(0),
        frame: None,
        rotation: Rotation::D0,
        kind: BlockKind::Paragraph(Paragraph {
            style: ParagraphStyle { align: Align::Left, spacing: 0 },
            runs,
        }),
    };
    promote(block, body, levels, &tables)
}

fn table_block(
    planned: &Planned,
    which: usize,
    lines: &[ReconLine],
    ids: &mut IdGen,
) -> Option<Block> {
    build_table(&planned.grids[which], lines, &test_page(), &mut Tables::new(), ids)
}

fn no_context() -> ParaContext {
    ParaContext { body: 0.0, leading: 0.0, group_left: 0.0, page_left: 0.0, prev_bottom: None }
}

fn styled(
    lines: &[&ReconLine],
    ctx: &ParaContext,
    links: &[ParaLink],
    ids: &mut IdGen,
) -> (Block, Tables) {
    let mut tables = Tables::new();
    let facts: Vec<Line> = lines.iter().map(|l| l.facts(links, &mut tables)).collect();
    let block = build_paragraph_styled(lines, &facts, ctx, &test_page(), &mut tables, ids);
    (block, tables)
}

fn plain_paragraph(lines: &[&ReconLine], ids: &mut IdGen) -> Block {
    styled(lines, &no_context(), &[], ids).0
}

fn paragraph_and_tables(runs: &[ReconRun]) -> (Block, Tables) {
    let lines = lines_of(runs);
    let refs: Vec<&ReconLine> = lines.iter().collect();
    styled(&refs, &no_context(), &[], &mut IdGen::default())
}

fn paragraph_of(runs: &[ReconRun]) -> Block {
    paragraph_and_tables(runs).0
}

fn caption_para_block(tables: &mut Tables, text: &str, frame: Rect) -> Block {
    Block {
        id: BlockId(0),
        frame: Some(test_page().frame(frame, tables)),
        rotation: Rotation::D0,
        kind: BlockKind::Paragraph(Paragraph {
            style: ParagraphStyle { align: Align::Left, spacing: 0 },
            runs: vec![Inline::Run(InlineRun {
                text: text.to_string(),
                style: plain_style(),
                source_index: None,
            })],
        }),
    }
}

fn caption_for(blocks: &mut Vec<Block>, image: &Rect, tables: &Tables) -> Option<String> {
    let gaps: Vec<Option<i64>> =
        blocks.iter().map(|b| caption_gap(b, image, tables).map(key)).collect();
    take_caption_for(blocks, &gaps)
}

// ── lines ──

fn line_run(text: &str, x: f64, y: f64, size: f64) -> ReconRun {
    ReconRun {
        text: text.to_string(),
        x,
        y,
        w: text.len() as f64 * size * 0.5,
        h: size,
        size,
        style: TextStyle::default(),
        rotation: 0.0,
        source_index: None,
        underline: false,
        strike: false,
    }
}

#[test]
fn two_runs_on_one_baseline_merge_into_one_line() {
    let runs = vec![
        line_run("Hello", 72.0, 700.0, 12.0),
        line_run("World", 140.0, 700.0, 12.0),
    ];
    let lines = group_into_lines(&runs);
    assert_eq!(lines.len(), 1);
    assert_eq!(lines[0].runs.len(), 2);
    assert_eq!(text_of_line(&lines[0]), "Hello World");
}

#[test]
fn separated_baselines_make_separate_lines_top_first() {
    let runs = vec![
        line_run("second", 72.0, 680.0, 12.0),
        line_run("first", 72.0, 700.0, 12.0),
    ];
    let lines = group_into_lines(&runs);
    assert_eq!(lines.len(), 2);
    assert_eq!(text_of_line(&lines[0]), "first");
    assert_eq!(text_of_line(&lines[1]), "second");
}

#[test]
fn blank_runs_are_dropped() {
    let runs = vec![
        line_run("   ", 72.0, 700.0, 12.0),
        line_run("kept", 72.0, 680.0, 12.0),
    ];
    let lines = group_into_lines(&runs);
    assert_eq!(lines.len(), 1);
    assert_eq!(text_of_line(&lines[0]), "kept");
}

#[test]
fn empty_input_yields_no_lines() {
    assert!(group_into_lines(&[]).is_empty());
}

fn at(text: &str, x: f64, size: f64) -> ReconRun {
    let mut r = line_run(text, x, 700.0, size);
    r.w = text.chars().count() as f64 * size * 0.5;
    r
}

#[test]
fn split_word_runs_join_without_a_spurious_space() {
    let enfant = at("ENFANT", 72.0, 10.0);
    let s1 = at("S", 102.0, 10.0);
    let mineur = at("MINEUR", 130.0, 10.0);
    let s2 = at("S", 160.0, 10.0);
    let lines = group_into_lines(&[enfant, s1, mineur, s2]);
    assert_eq!(lines.len(), 1, "one baseline band → one line");
    assert_eq!(text_of_line(&lines[0]), "ENFANTS MINEURS");
}

#[test]
fn a_real_inter_word_gap_keeps_its_space() {
    let des = at("DES", 72.0, 10.0);
    let enfants = at("ENFANTS", 110.0, 10.0);
    let lines = group_into_lines(&[des, enfants]);
    assert_eq!(lines.len(), 1);
    assert_eq!(text_of_line(&lines[0]), "DES ENFANTS");
}

fn yat(text: &str, x: f64, y: f64, size: f64) -> ReconRun {
    let mut r = line_run(text, x, y, size);
    r.w = text.chars().count() as f64 * size * 0.5;
    r
}

#[test]
fn line_opening_with_a_superscript_anchors_on_the_body_centroid() {
    let body = yat("Theorem", 90.0, 700.0, 12.0);
    let sup = yat("12", 72.0, 707.0, 7.0);
    let lines = group_into_lines(&[body, sup]);

    assert_eq!(lines.len(), 1, "superscript opener must not split the line");
    assert_eq!(lines[0].runs.len(), 2);
    let c = lines[0].center_y();
    assert!(
        (c - 706.0).abs() < (c - 710.5).abs(),
        "line centre {c} should sit near the body (706), not the superscript (710.5)"
    );
    assert_eq!(lines[0].runs[0].text, "12");
    assert_eq!(lines[0].runs[1].text, "Theorem");
}

#[test]
fn a_mid_line_inline_superscript_stays_on_one_line_in_reading_order() {
    let x = yat("x", 72.0, 700.0, 12.0);
    let exp = yat("2", 80.0, 706.0, 7.0);
    let rest = yat("+ y", 88.0, 700.0, 12.0);
    let lines = group_into_lines(&[x, exp, rest]);

    assert_eq!(lines.len(), 1, "inline exponent must stay on the body line");
    let order: Vec<&str> = lines[0].runs.iter().map(|r| r.text.as_str()).collect();
    assert_eq!(order, vec!["x", "2", "+ y"], "runs kept left→right");
}

#[test]
fn two_distinct_body_lines_are_not_over_merged() {
    let a = yat("first line", 72.0, 700.0, 12.0);
    let b = yat("second line", 72.0, 684.0, 12.0);
    let lines = group_into_lines(&[a, b]);

    assert_eq!(lines.len(), 2, "adjacent body lines must not merge");
    assert_eq!(text_of_line(&lines[0]), "first line");
    assert_eq!(text_of_line(&lines[1]), "second line");
}

#[test]
fn a_normal_single_size_line_is_unchanged() {
    let runs = vec![
        yat("the", 72.0, 700.0, 12.0),
        yat("quick", 96.0, 700.0, 12.0),
        yat("fox", 140.0, 700.0, 12.0),
    ];
    let lines = group_into_lines(&runs);
    assert_eq!(lines.len(), 1);
    assert_eq!(lines[0].runs.len(), 3);
    assert_eq!(text_of_line(&lines[0]), "the quick fox");
}

#[test]
fn the_overlap_merge_pass_rejoins_an_engulfed_fragment_keeping_runs_ordered() {
    let main = ReconLine {
        x: 90.0,
        y: 700.0,
        w: 48.0,
        h: 12.0,
        runs: vec![yat("body", 90.0, 700.0, 12.0)],
    };
    let frag = ReconLine {
        x: 72.0,
        y: 706.0,
        w: 7.0,
        h: 7.0,
        runs: vec![yat("12", 72.0, 706.0, 7.0)],
    };
    assert!(
        fragment_overlap_ratio(&main, &frag).is_some(),
        "an engulfed partial fragment must be recognised"
    );
    let mut lines = vec![main, frag];
    merge_overlapping_fragments(&mut lines);
    for l in &mut lines {
        l.runs
            .sort_by(|a, b| a.x.partial_cmp(&b.x).unwrap_or(core::cmp::Ordering::Equal));
    }
    assert_eq!(lines.len(), 1, "the fragment must be merged into the line");
    let order: Vec<&str> = lines[0].runs.iter().map(|r| r.text.as_str()).collect();
    assert_eq!(order, vec!["12", "body"], "merged runs kept left→right");
}

#[test]
fn the_overlap_merge_pass_never_fuses_two_equal_height_body_lines() {
    let upper = ReconLine {
        x: 72.0,
        y: 700.0,
        w: 60.0,
        h: 12.0,
        runs: vec![yat("upper line", 72.0, 700.0, 12.0)],
    };
    let lower = ReconLine {
        x: 72.0,
        y: 688.0,
        w: 60.0,
        h: 12.0,
        runs: vec![yat("lower line", 72.0, 688.0, 12.0)],
    };
    assert!(
        fragment_overlap_ratio(&upper, &lower).is_none(),
        "equal-height neighbours are not fragments of each other"
    );
    let mut lines = vec![upper, lower];
    merge_overlapping_fragments(&mut lines);
    assert_eq!(lines.len(), 2, "two body lines must stay separate");
}

#[test]
fn text_skips_an_interleaved_blank_run() {
    let line = ReconLine {
        x: 72.0,
        y: 700.0,
        w: 120.0,
        h: 12.0,
        runs: vec![
            yat("alpha", 72.0, 700.0, 12.0),
            yat("   ", 110.0, 700.0, 12.0),
            yat("beta", 150.0, 700.0, 12.0),
        ],
    };
    assert_eq!(text_of_line(&line), "alpha beta");
}

#[test]
fn fragment_prefers_the_more_overlapping_of_two_kept_lines() {
    let main_hi = ReconLine {
        x: 90.0,
        y: 702.0,
        w: 48.0,
        h: 12.0,
        runs: vec![yat("upper", 90.0, 702.0, 12.0)],
    };
    let main_lo = ReconLine {
        x: 90.0,
        y: 697.0,
        w: 48.0,
        h: 12.0,
        runs: vec![yat("lower", 90.0, 697.0, 12.0)],
    };
    let frag = ReconLine {
        x: 72.0,
        y: 701.0,
        w: 7.0,
        h: 4.0,
        runs: vec![yat("xx", 72.0, 701.0, 4.0)],
    };
    assert!(fragment_overlap_ratio(&main_hi, &main_lo).is_none());
    let r_hi = fragment_overlap_ratio(&main_hi, &frag).unwrap();
    let r_lo = fragment_overlap_ratio(&main_lo, &frag).unwrap();
    assert!(r_lo > r_hi, "lower line must be the stronger match");
    let mut lines = vec![main_hi, main_lo, frag];
    merge_overlapping_fragments(&mut lines);
    assert_eq!(lines.len(), 2);
    let with_frag = lines
        .iter()
        .find(|l| l.runs.iter().any(|r| r.text == "xx"))
        .expect("fragment merged into a line");
    assert!(
        with_frag.runs.iter().any(|r| r.text == "lower"),
        "fragment must join the more-overlapping (lower) line"
    );
}

#[test]
fn a_fragment_joins_the_line_below_where_it_overlaps_that_more() {
    let at = |text: &str, y: f64, h: f64| ReconLine {
        x: 90.0,
        y,
        w: 48.0,
        h,
        runs: vec![yat(text, 90.0, y, h)],
    };
    let mut lines = vec![at("upper", 702.0, 12.0), at("xx", 701.2, 4.0), at("lower", 697.0, 12.0)];
    merge_overlapping_fragments(&mut lines);
    assert_eq!(lines.len(), 2);
    assert!(lines[0].runs.iter().all(|r| r.text == "upper"));
    assert!(lines[1].runs.iter().any(|r| r.text == "xx"));
}

#[test]
fn a_plain_paragraph_has_no_indents() {
    let lines = group_into_lines(&[wide_run("text", 72.0, 700.0, 100.0)]);
    let refs: Vec<&ReconLine> = lines.iter().collect();
    let mut tables = Tables::new();
    let facts: Vec<Line> = refs.iter().map(|l| l.facts(&[], &mut tables)).collect();
    let mut ids = IdGen::default();
    let block = build_paragraph(&refs, &facts, &test_page(), &mut tables, &mut ids);
    let BlockKind::Paragraph(p) = block.kind else {
        panic!("expected paragraph");
    };
    assert_eq!(tables.spacings[p.style.spacing], Spacing::default());
}

// ── columns ──

fn col_run(text: &str, x: f64, y: f64) -> ReconRun {
    wide_run(text, x, y, 100.0)
}

fn wide_run(text: &str, x: f64, y: f64, w: f64) -> ReconRun {
    ReconRun {
        text: text.to_string(),
        x,
        y,
        w,
        h: 12.0,
        size: 12.0,
        style: TextStyle::default(),
        rotation: 0.0,
        source_index: None,
        underline: false,
        strike: false,
    }
}

#[test]
fn single_column_keeps_top_to_bottom_order() {
    let runs = vec![
        col_run("a", 72.0, 700.0),
        col_run("b", 72.0, 680.0),
        col_run("c", 72.0, 660.0),
    ];
    let lines = group_into_lines(&runs);
    let order = reading_order(&lines);
    assert_eq!(order, vec![0, 1, 2]);
}

#[test]
fn two_columns_read_left_band_fully_before_right() {
    let runs = vec![
        col_run("a1", 72.0, 700.0),
        col_run("b1", 360.0, 690.0),
        col_run("a2", 72.0, 680.0),
        col_run("b2", 360.0, 670.0),
    ];
    let lines = group_into_lines(&runs);
    assert_eq!(lines.len(), 4, "staggered columns stay four separate lines");
    let order = reading_order(&lines);
    let ordered: Vec<String> = order.iter().map(|&i| text_of_line(&lines[i])).collect();
    assert_eq!(ordered, vec!["a1", "a2", "b1", "b2"]);
}

#[test]
fn a_single_straggler_does_not_fabricate_a_column() {
    let runs = vec![
        col_run("body one", 72.0, 700.0),
        col_run("body two", 72.0, 680.0),
        col_run("body three", 72.0, 660.0),
        col_run("x", 400.0, 640.0),
    ];
    let lines = group_into_lines(&runs);
    assert_eq!(lines.len(), 4);
    let order = reading_order(&lines);
    assert_eq!(order, vec![0, 1, 2, 3]);
}

#[test]
fn full_width_title_over_two_columns_reads_title_then_columns() {
    let runs = vec![
        wide_run("TITLE", 72.0, 740.0, 400.0),
        col_run("left one", 72.0, 700.0),
        col_run("right one", 360.0, 690.0),
        col_run("left two", 72.0, 680.0),
        col_run("right two", 360.0, 670.0),
        col_run("left three", 72.0, 660.0),
        col_run("right three", 360.0, 650.0),
    ];
    let lines = group_into_lines(&runs);
    let order = reading_order(&lines);
    let ordered: Vec<String> = order.iter().map(|&i| text_of_line(&lines[i])).collect();
    assert_eq!(
        ordered,
        vec![
            "TITLE",
            "left one",
            "left two",
            "left three",
            "right one",
            "right two",
            "right three",
        ],
    );
}

#[test]
fn three_columns_read_column_by_column() {
    let runs = vec![
        wide_run("a1", 72.0, 700.0, 80.0),
        wide_run("b1", 252.0, 685.0, 80.0),
        wide_run("c1", 432.0, 670.0, 80.0),
        wide_run("a2", 72.0, 660.0, 80.0),
        wide_run("b2", 252.0, 645.0, 80.0),
        wide_run("c2", 432.0, 630.0, 80.0),
    ];
    let lines = group_into_lines(&runs);
    let order = reading_order(&lines);
    let ordered: Vec<String> = order.iter().map(|&i| text_of_line(&lines[i])).collect();
    assert_eq!(ordered, vec!["a1", "a2", "b1", "b2", "c1", "c2"]);
}

#[test]
fn three_columns_one_sparse_still_splits() {
    let runs = vec![
        wide_run("a1", 72.0, 700.0, 80.0),
        wide_run("c1", 432.0, 680.0, 80.0),
        wide_run("b1", 252.0, 660.0, 80.0),
        wide_run("a2", 72.0, 640.0, 80.0),
        wide_run("c2", 432.0, 620.0, 80.0),
    ];
    let lines = group_into_lines(&runs);
    let order = reading_order(&lines);
    let ordered: Vec<String> = order.iter().map(|&i| text_of_line(&lines[i])).collect();
    assert_eq!(ordered, vec!["a1", "a2", "b1", "c1", "c2"]);
}

#[test]
fn two_columns_with_a_short_right_column_still_splits() {
    let runs = vec![
        col_run("left one", 72.0, 700.0),
        col_run("right note", 360.0, 690.0),
        col_run("left two", 72.0, 680.0),
        col_run("left three", 72.0, 660.0),
    ];
    let lines = group_into_lines(&runs);
    let order = reading_order(&lines);
    let ordered: Vec<String> = order.iter().map(|&i| text_of_line(&lines[i])).collect();
    assert_eq!(
        ordered,
        vec!["left one", "left two", "left three", "right note"],
        "short right column still splits and is read after the left",
    );
}

#[test]
fn full_width_footer_between_partitions_two_column_regions() {
    let runs = vec![
        col_run("topL1", 72.0, 760.0),
        col_run("topR1", 360.0, 745.0),
        col_run("topL2", 72.0, 730.0),
        col_run("topR2", 360.0, 715.0),
        wide_run("BANNER", 72.0, 690.0, 400.0),
        col_run("botL1", 72.0, 660.0),
        col_run("botR1", 360.0, 645.0),
        col_run("botL2", 72.0, 630.0),
        col_run("botR2", 360.0, 615.0),
    ];
    let lines = group_into_lines(&runs);
    let order = reading_order(&lines);
    let ordered: Vec<String> = order.iter().map(|&i| text_of_line(&lines[i])).collect();
    assert_eq!(
        ordered,
        vec![
            "topL1", "topL2", "topR1", "topR2", "BANNER", "botL1", "botL2", "botR1", "botR2",
        ],
    );
}

#[test]
fn rank_slots_a_point_into_its_region_band_and_y() {
    let runs = vec![
        wide_run("TITLE", 72.0, 740.0, 400.0),
        col_run("left", 72.0, 690.0),
        col_run("rightHi", 360.0, 700.0),
        col_run("rightLo", 360.0, 640.0),
    ];
    let lines = group_into_lines(&runs);
    let layout = column_layout(&lines);
    let shape_rank = layout.rank(390.0, 670.0);
    let right_hi = lines.iter().find(|l| text_of_line(&l) == "rightHi").unwrap();
    let right_lo = lines.iter().find(|l| text_of_line(&l) == "rightLo").unwrap();
    let hi_rank = layout.rank(right_hi.center_x(), right_hi.top());
    let lo_rank = layout.rank(right_lo.center_x(), right_lo.top());
    assert!(comes_before(&hi_rank, &shape_rank), "shape sorts after the higher right line");
    assert!(comes_before(&shape_rank, &lo_rank), "shape sorts before the lower right line");
    let title = lines.iter().find(|l| text_of_line(&l) == "TITLE").unwrap();
    let title_rank = layout.rank(title.center_x(), title.top());
    assert!(comes_before(&title_rank, &shape_rank), "the title is read before the shape");
}

#[test]
fn sub_full_width_heading_bridging_gutter_keeps_two_columns() {
    let runs = vec![
        wide_run("HEADING", 72.0, 740.0, 290.0),
        wide_run("left one", 72.0, 700.0, 120.0),
        wide_run("right one", 360.0, 690.0, 120.0),
        wide_run("left two", 72.0, 680.0, 120.0),
        wide_run("right two", 360.0, 670.0, 120.0),
        wide_run("left three", 72.0, 660.0, 120.0),
        wide_run("right three", 360.0, 650.0, 120.0),
    ];
    let lines = group_into_lines(&runs);
    let layout = column_layout(&lines);
    assert!(
        layout.layout.is_multi_column(),
        "the sub-full-width bridge must not collapse the two columns"
    );
    let order = reading_order(&lines);
    let ordered: Vec<String> = order.iter().map(|&i| text_of_line(&lines[i])).collect();
    assert_eq!(
        ordered,
        vec![
            "HEADING",
            "left one",
            "left two",
            "left three",
            "right one",
            "right two",
            "right three",
        ],
    );
}

#[test]
fn genuine_single_column_with_one_wide_line_stays_single() {
    let runs = vec![
        wide_run("a normal body line", 72.0, 700.0, 300.0),
        wide_run("a much wider full paragraph line here", 72.0, 680.0, 430.0),
        wide_run("another body line", 72.0, 660.0, 280.0),
        wide_run("short", 72.0, 640.0, 90.0),
        wide_run("final body line", 72.0, 620.0, 260.0),
    ];
    let lines = group_into_lines(&runs);
    let layout = column_layout(&lines);
    assert!(
        !layout.layout.is_multi_column(),
        "no gutter exists, so the page must stay single column"
    );
    let order = reading_order(&lines);
    assert_eq!(order, vec![0, 1, 2, 3, 4]);
}

#[test]
fn mid_page_spanning_figure_splits_the_column_flow() {
    let runs = vec![
        wide_run("topL1", 72.0, 760.0, 120.0),
        wide_run("topR1", 360.0, 745.0, 120.0),
        wide_run("topL2", 72.0, 730.0, 120.0),
        wide_run("topR2", 360.0, 715.0, 120.0),
        wide_run("FIGURE", 72.0, 690.0, 290.0),
        wide_run("botL1", 72.0, 660.0, 120.0),
        wide_run("botR1", 360.0, 645.0, 120.0),
        wide_run("botL2", 72.0, 630.0, 120.0),
        wide_run("botR2", 360.0, 615.0, 120.0),
    ];
    let lines = group_into_lines(&runs);
    let layout = column_layout(&lines);
    assert!(layout.layout.is_multi_column(), "the body splits into two columns");
    let order = reading_order(&lines);
    let ordered: Vec<String> = order.iter().map(|&i| text_of_line(&lines[i])).collect();
    assert_eq!(
        ordered,
        vec!["topL1", "topL2", "topR1", "topR2", "FIGURE", "botL1", "botL2", "botR1", "botR2",],
    );
}

// ── lists ──

fn list_run(text: &str, x: f64, y: f64) -> ReconRun {
    ReconRun {
        text: text.to_string(),
        x,
        y,
        w: text.len() as f64 * 6.0,
        h: 12.0,
        size: 12.0,
        style: TextStyle::default(),
        rotation: 0.0,
        source_index: None,
        underline: false,
        strike: false,
    }
}

#[test]
fn consecutive_bullets_form_one_list_with_stripped_markers() {
    let runs = vec![
        list_run("• Apples", 72.0, 700.0),
        list_run("• Bananas", 72.0, 686.0),
        list_run("• Cherries", 72.0, 672.0),
    ];
    let lines = group_into_lines(&runs);
    let refs: Vec<&ReconLine> = lines.iter().collect();
    let mut ids = IdGen::default();
    let block = list_block(&refs, 12.0, &mut ids).unwrap();
    let BlockKind::List(list) = block.kind else {
        panic!("expected list");
    };
    assert!(!list.ordered);
    assert_eq!(list.marker, ListMarker::Bullet('•'));
    assert_eq!(list.items.len(), 3);
    let BlockKind::Paragraph(p) = &list.items[0].blocks[0].kind else {
        panic!("item should be a paragraph");
    };
    let Inline::Run(r) = &p.runs[0] else {
        panic!("expected run");
    };
    assert_eq!(r.text, "Apples");
}

#[test]
fn split_separates_list_from_prose() {
    let runs = vec![
        list_run("Intro paragraph here", 72.0, 720.0),
        list_run("1. first", 72.0, 700.0),
        list_run("2. second", 72.0, 686.0),
        list_run("Closing paragraph", 72.0, 660.0),
    ];
    let lines = group_into_lines(&runs);
    let refs: Vec<&ReconLine> = lines.iter().collect();
    let segs = segments_of(&refs);
    assert_eq!(segs.len(), 3);
    assert!(matches!(segs[0], Segment::Prose(..)));
    assert!(matches!(segs[1], Segment::List(..)));
    assert!(matches!(segs[2], Segment::Prose(..)));
}

#[test]
fn empty_list_is_none() {
    let mut ids = IdGen::default();
    assert!(list_block(&[], 12.0, &mut ids).is_none());
}

fn item_text(item: &ListItem) -> String {
    let BlockKind::Paragraph(p) = &item.blocks[0].kind else {
        return String::new();
    };
    let mut s = String::new();
    for inl in &p.runs {
        match inl {
            Inline::Run(r) => s.push_str(&r.text),
            Inline::LineBreak => s.push(' '),
            _ => {}
        }
    }
    s
}

#[test]
fn nested_sub_items_get_a_deeper_level() {
    let runs = vec![
        list_run("• Top one", 72.0, 700.0),
        list_run("• Top two", 72.0, 686.0),
        list_run("• Sub a", 108.0, 672.0),
        list_run("• Sub b", 108.0, 658.0),
        list_run("• Top three", 72.0, 644.0),
    ];
    let lines = group_into_lines(&runs);
    let refs: Vec<&ReconLine> = lines.iter().collect();
    let mut ids = IdGen::default();
    let block = list_block(&refs, 12.0, &mut ids).unwrap();
    let BlockKind::List(list) = block.kind else {
        panic!("expected list");
    };
    assert_eq!(list.items.len(), 5, "five marker lines → five items");
    let levels: Vec<u8> = list.items.iter().map(|i| i.level).collect();
    assert_eq!(
        levels,
        vec![0, 0, 1, 1, 0],
        "sub-bullets nest a level deeper, others stay at base"
    );
}

#[test]
fn three_indent_tiers_bucket_into_levels() {
    let runs = vec![
        list_run("• A", 72.0, 700.0),
        list_run("• B", 108.0, 686.0),
        list_run("• C", 144.0, 672.0),
    ];
    let lines = group_into_lines(&runs);
    let refs: Vec<&ReconLine> = lines.iter().collect();
    let mut ids = IdGen::default();
    let block = list_block(&refs, 12.0, &mut ids).unwrap();
    let BlockKind::List(list) = block.kind else {
        panic!("expected list");
    };
    let levels: Vec<u8> = list.items.iter().map(|i| i.level).collect();
    assert_eq!(levels, vec![0, 1, 2]);
}

#[test]
fn continuation_line_folds_into_previous_item() {
    let runs = vec![
        list_run("• First item text", 72.0, 700.0),
        list_run("wraps onto a second line", 84.0, 686.0),
        list_run("• Second item", 72.0, 672.0),
    ];
    let lines = group_into_lines(&runs);
    let refs: Vec<&ReconLine> = lines.iter().collect();
    let segs = segments_of(&refs);
    assert_eq!(segs.len(), 1, "one list segment, no prose break");
    assert!(matches!(segs[0], Segment::List(..)));

    let mut ids = IdGen::default();
    let block = list_block(&refs, 12.0, &mut ids).unwrap();
    let BlockKind::List(list) = block.kind else {
        panic!("expected list");
    };
    assert_eq!(
        list.items.len(),
        2,
        "the wrapped line folds in → two items, not three"
    );
    let first = item_text(&list.items[0]);
    assert!(
        first.contains("First item text") && first.contains("wraps onto a second line"),
        "continuation text joined into item 1: {first:?}"
    );
    assert_eq!(item_text(&list.items[1]), "Second item");
}

#[test]
fn unindented_markerless_line_breaks_the_list() {
    let runs = vec![
        list_run("• Bullet one", 72.0, 700.0),
        list_run("• Bullet two", 72.0, 686.0),
        list_run("A new prose paragraph here", 72.0, 660.0),
    ];
    let lines = group_into_lines(&runs);
    let refs: Vec<&ReconLine> = lines.iter().collect();
    let segs = segments_of(&refs);
    assert_eq!(segs.len(), 2, "list then prose");
    assert!(matches!(segs[0], Segment::List(..)));
    assert!(matches!(segs[1], Segment::Prose(..)));
    let Segment::List(from, to) = segs[0] else {
        panic!();
    };
    assert_eq!(to - from, 2);
}

fn list_segments(segs: &[Segment]) -> usize {
    segs.iter()
        .filter(|s| matches!(s, Segment::List(..)))
        .count()
}

#[test]
fn consecutive_decimals_form_one_ordered_list() {
    let runs = vec![
        list_run("1. first", 72.0, 700.0),
        list_run("2. second", 72.0, 686.0),
        list_run("3. third", 72.0, 672.0),
    ];
    let lines = group_into_lines(&runs);
    let refs: Vec<&ReconLine> = lines.iter().collect();
    let segs = segments_of(&refs);
    assert_eq!(segs.len(), 1, "one segment");
    assert!(matches!(segs[0], Segment::List(..)), "and it is a list");

    let mut ids = IdGen::default();
    let block = list_block(&refs, 12.0, &mut ids).unwrap();
    let BlockKind::List(list) = block.kind else {
        panic!("expected list");
    };
    assert!(list.ordered, "decimals → ordered");
    assert_eq!(list.marker, ListMarker::Decimal);
    assert_eq!(list.items.len(), 3);
}

#[test]
fn ordered_list_starting_above_one_is_a_continuation() {
    let runs = vec![
        list_run("3. third", 72.0, 700.0),
        list_run("4. fourth", 72.0, 686.0),
        list_run("5. fifth", 72.0, 672.0),
    ];
    let lines = group_into_lines(&runs);
    let refs: Vec<&ReconLine> = lines.iter().collect();
    let segs = segments_of(&refs);
    assert_eq!(list_segments(&segs), 1, "3 4 5 is a continuation list");
    let mut ids = IdGen::default();
    let block = list_block(&refs, 12.0, &mut ids).unwrap();
    let BlockKind::List(list) = block.kind else {
        panic!("expected list");
    };
    assert!(list.ordered);
    assert_eq!(list.items.len(), 3, "all three items kept");
}

#[test]
fn gap_tolerated_but_non_monotonic_rejected() {
    let ok = vec![
        list_run("1. a", 72.0, 700.0),
        list_run("2. b", 72.0, 686.0),
        list_run("4. c", 72.0, 672.0),
    ];
    let lines = group_into_lines(&ok);
    let refs: Vec<&ReconLine> = lines.iter().collect();
    let segs = segments_of(&refs);
    assert_eq!(list_segments(&segs), 1, "1 2 4 is a list (gap tolerated)");

    let bad = vec![
        list_run("5. a", 72.0, 700.0),
        list_run("1. b", 72.0, 686.0),
        list_run("9. c", 72.0, 672.0),
    ];
    let lines = group_into_lines(&bad);
    let refs: Vec<&ReconLine> = lines.iter().collect();
    let segs = segments_of(&refs);
    assert_eq!(list_segments(&segs), 0, "5 1 9 is not a list (scrambled)");
    assert!(segs.iter().all(|s| matches!(s, Segment::Prose(..))));
}

#[test]
fn lone_ordered_marker_with_following_prose_is_not_a_list() {
    let runs = vec![
        list_run("12. Smith et al. study the matter", 72.0, 700.0),
        list_run("and conclude something entirely else", 72.0, 686.0),
    ];
    let lines = group_into_lines(&runs);
    let refs: Vec<&ReconLine> = lines.iter().collect();
    let segs = segments_of(&refs);
    assert_eq!(list_segments(&segs), 0, "a lone citation marker is prose");
    assert!(segs.iter().all(|s| matches!(s, Segment::Prose(..))));
}

#[test]
fn lone_decimal_paragraph_is_prose() {
    let runs = vec![list_run(
        "5. This sentence merely starts with a number.",
        72.0,
        700.0,
    )];
    let lines = group_into_lines(&runs);
    let refs: Vec<&ReconLine> = lines.iter().collect();
    let segs = segments_of(&refs);
    assert_eq!(list_segments(&segs), 0);
    assert!(matches!(segs[0], Segment::Prose(..)));
}

#[test]
fn price_line_is_not_a_list() {
    assert_eq!(detect_marker("$5.99 per unit"), None);
    assert_eq!(classify_marker("$5.99 per unit"), None);
    let runs = vec![
        list_run("$5.99 per unit", 72.0, 700.0),
        list_run("$9.49 in bulk", 72.0, 686.0),
    ];
    let lines = group_into_lines(&runs);
    let refs: Vec<&ReconLine> = lines.iter().collect();
    let segs = segments_of(&refs);
    assert_eq!(list_segments(&segs), 0, "prices are prose, not a list");
}

#[test]
fn mixed_decimal_and_alpha_paren_not_merged() {
    let runs = vec![list_run("1. first", 72.0, 700.0), list_run("a) second", 72.0, 686.0)];
    let lines = group_into_lines(&runs);
    let refs: Vec<&ReconLine> = lines.iter().collect();
    let segs = segments_of(&refs);
    for seg in &segs {
        if let Segment::List(from, to) = seg {
            assert!(
                to - from < 2,
                "a `1.` and an `a)` must not share one list"
            );
        }
    }
    assert_eq!(list_segments(&segs), 0);
}

#[test]
fn alpha_paren_sequence_is_an_ordered_list() {
    let runs = vec![
        list_run("a) apples", 72.0, 700.0),
        list_run("b) bananas", 72.0, 686.0),
        list_run("c) cherries", 72.0, 672.0),
    ];
    let lines = group_into_lines(&runs);
    let refs: Vec<&ReconLine> = lines.iter().collect();
    let segs = segments_of(&refs);
    assert_eq!(segs.len(), 1);
    assert!(matches!(segs[0], Segment::List(..)));

    let mut ids = IdGen::default();
    let block = list_block(&refs, 12.0, &mut ids).unwrap();
    let BlockKind::List(list) = block.kind else {
        panic!("expected list");
    };
    assert!(list.ordered);
    assert_eq!(list.marker, ListMarker::LowerAlpha);
    assert_eq!(list.items.len(), 3);
}

#[test]
fn unordered_dash_bullets_stay_a_list() {
    let runs = vec![list_run("- alpha", 72.0, 700.0), list_run("- beta", 72.0, 686.0)];
    let lines = group_into_lines(&runs);
    let refs: Vec<&ReconLine> = lines.iter().collect();
    let segs = segments_of(&refs);
    assert_eq!(segs.len(), 1);
    assert!(matches!(segs[0], Segment::List(..)));
    let Segment::List(from, to) = segs[0] else {
        panic!();
    };
    assert_eq!(to - from, 2);
}

#[test]
fn single_standalone_bullet_is_a_list() {
    let runs = vec![list_run("- the only item", 72.0, 700.0)];
    let lines = group_into_lines(&runs);
    let refs: Vec<&ReconLine> = lines.iter().collect();
    let segs = segments_of(&refs);
    assert_eq!(segs.len(), 1);
    assert!(
        matches!(segs[0], Segment::List(..)),
        "a lone bullet is a list"
    );

    let mut ids = IdGen::default();
    let block = list_block(&refs, 12.0, &mut ids).unwrap();
    let BlockKind::List(list) = block.kind else {
        panic!("expected list");
    };
    assert!(!list.ordered);
    assert_eq!(list.items.len(), 1);
}

#[test]
fn nested_ordinal_sub_sequence_survives_validation() {
    let runs = vec![
        list_run("1. Top one", 72.0, 700.0),
        list_run("a. Sub one", 108.0, 686.0),
        list_run("b. Sub two", 108.0, 672.0),
        list_run("2. Top two", 72.0, 658.0),
    ];
    let lines = group_into_lines(&runs);
    let refs: Vec<&ReconLine> = lines.iter().collect();
    let segs = segments_of(&refs);
    assert_eq!(segs.len(), 1, "nesting stays one list segment");
    assert!(matches!(segs[0], Segment::List(..)));

    let mut ids = IdGen::default();
    let block = list_block(&refs, 12.0, &mut ids).unwrap();
    let BlockKind::List(list) = block.kind else {
        panic!("expected list");
    };
    assert_eq!(list.items.len(), 4, "four items, two nested");
    let levels: Vec<u8> = list.items.iter().map(|i| i.level).collect();
    assert_eq!(levels, vec![0, 1, 1, 0]);
}

#[test]
fn lower_roman_sequence_is_an_ordered_list() {
    assert_eq!(roman_value("iv"), Some(4));
    assert_eq!(roman_value("ix"), Some(9));
    let runs = vec![
        list_run("ii. second", 72.0, 700.0),
        list_run("iii. third", 72.0, 686.0),
        list_run("iv. fourth", 72.0, 672.0),
    ];
    let lines = group_into_lines(&runs);
    let refs: Vec<&ReconLine> = lines.iter().collect();
    let segs = segments_of(&refs);
    assert_eq!(
        list_segments(&segs),
        1,
        "ii iii iv is an ordered roman list"
    );
}

#[test]
fn continuation_on_nested_item_preserves_its_level() {
    let runs = vec![
        list_run("• Parent", 72.0, 700.0),
        list_run("• Child item that is long", 108.0, 686.0),
        list_run("continuing the child line", 120.0, 672.0),
    ];
    let lines = group_into_lines(&runs);
    let refs: Vec<&ReconLine> = lines.iter().collect();
    let mut ids = IdGen::default();
    let block = list_block(&refs, 12.0, &mut ids).unwrap();
    let BlockKind::List(list) = block.kind else {
        panic!("expected list");
    };
    assert_eq!(list.items.len(), 2, "parent + child, continuation folded");
    assert_eq!(list.items[0].level, 0);
    assert_eq!(list.items[1].level, 1, "nested child stays level 1");
    assert!(
        item_text(&list.items[1]).contains("continuing the child line"),
        "continuation joined the nested child"
    );
}

// ── headings ──

fn levels(sizes: &[f64]) -> HeadingLevels {
    HeadingLevels::from_sizes(sizes.iter().copied())
}

#[test]
fn large_short_line_becomes_heading_level_one() {
    let lv = levels(&[24.0]);
    let block = promoted("Chapter Title", 24.0, false, 0, 12.0, &lv);
    match block.kind {
        BlockKind::Heading(h) => assert_eq!(h.level, 1),
        _ => panic!("expected heading"),
    }
}

#[test]
fn body_size_paragraph_stays_a_paragraph() {
    let lv = levels(&[]);
    let block = promoted("ordinary body line", 12.0, false, 0, 12.0, &lv);
    assert!(matches!(block.kind, BlockKind::Paragraph(_)));
}

#[test]
fn long_large_paragraph_is_not_a_heading() {
    let lv = levels(&[20.0]);
    let block = promoted("big but long", 20.0, false, 2, 12.0, &lv);
    assert!(matches!(block.kind, BlockKind::Paragraph(_)));
}

#[test]
fn three_distinct_sizes_map_to_monotonic_levels() {
    let lv = levels(&[24.0, 18.0, 14.0]);
    assert_eq!(lv.level_for(24.0), 1);
    assert_eq!(lv.level_for(18.0), 2);
    assert_eq!(lv.level_for(14.0), 3);
}

#[test]
fn heading_just_above_body_is_detected_and_not_h6() {
    let body = 11.0;
    let size = 12.65;
    let lv = levels(&[size]);
    let block = promoted("Run-in lead", size, true, 0, body, &lv);
    match block.kind {
        BlockKind::Heading(h) => {
            assert_eq!(h.level, 1, "1.15× heading must not collapse to H6")
        }
        _ => panic!("a 1.15× line should be a heading"),
    }
}

#[test]
fn single_heading_size_is_one_consistent_level() {
    let lv = levels(&[16.0, 16.0, 16.0]);
    assert_eq!(lv.level_for(16.0), 1);
    assert_eq!(lv.level_for(15.8), 1);
}

#[test]
fn nearby_sizes_collapse_into_one_level() {
    let lv = levels(&[24.0, 23.5, 18.0]);
    assert_eq!(lv.level_for(24.0), 1);
    assert_eq!(lv.level_for(23.5), 1);
    assert_eq!(lv.level_for(18.0), 2);
}

#[test]
fn bold_run_in_subhead_lands_on_the_deepest_present_level() {
    let body = 12.0;
    let lv = levels(&[24.0, 12.0]);
    assert_eq!(lv.level_for(24.0), 1);
    assert_eq!(lv.level_for(12.0), 2);
    let block = promoted("Subsection", body, true, 0, body, &lv);
    match block.kind {
        BlockKind::Heading(h) => assert_eq!(h.level, 2),
        _ => panic!("expected heading for bold short line"),
    }
}

#[test]
fn lone_bold_body_size_subhead_is_a_single_level_heading() {
    let body = 12.0;
    let lv = levels(&[12.0]);
    let block = promoted("Subsection", body, true, 0, body, &lv);
    match block.kind {
        BlockKind::Heading(h) => assert_eq!(h.level, 1),
        _ => panic!("expected heading for lone bold short line"),
    }
}

#[test]
fn levels_are_capped_at_six() {
    let lv = levels(&[40.0, 34.0, 28.0, 24.0, 20.0, 17.0, 14.0, 12.5]);
    assert_eq!(lv.level_for(40.0), 1);
    assert_eq!(lv.level_for(17.0), 6);
    assert_eq!(lv.level_for(14.0), 6);
    assert_eq!(lv.level_for(12.5), 6);
}

#[test]
fn empty_hierarchy_is_harmless() {
    let lv = levels(&[]);
    assert_eq!(lv.level_for(20.0), 1);
}

#[test]
fn from_lines_ignores_body_prose() {

    let mk = |text: &str, size: f64, bold: bool| ReconLine {
        runs: vec![ReconRun {
            text: text.into(),
            x: 0.0,
            y: 0.0,
            w: text.len() as f64 * size * 0.5,
            h: size,
            size,
            style: TextStyle {
                bold,
                ..TextStyle::default()
            },
            rotation: 0.0,
            source_index: None,
            underline: false,
            strike: false,
        }],
        x: 0.0,
        y: 0.0,
        w: text.len() as f64 * size * 0.5,
        h: size,
    };
    let lines = vec![
        mk("Document Title", 24.0, false),
        mk("First body line", 12.0, false),
        mk("Second body line", 12.0, false),
    ];
    let lv = HeadingLevels::from_lines(&lines, 12.0);
    assert_eq!(lv.level_for(24.0), 1, "the lone title is H1");
    assert_eq!(lv.clusters.len(), 1);
}

// ── tables ──

fn cell_run(text: &str, x: f64, y: f64, w: f64) -> ReconRun {
    ReconRun {
        text: text.to_string(),
        x,
        y,
        w,
        h: 10.0,
        size: 10.0,
        style: TextStyle::default(),
        rotation: 0.0,
        source_index: None,
        underline: false,
        strike: false,
    }
}

fn run_src(text: &str, x: f64, y: f64, w: f64, source_index: usize) -> ReconRun {
    ReconRun {
        source_index: Some(source_index),
        ..cell_run(text, x, y, w)
    }
}

fn hrule(y: f64, x0: f64, x1: f64) -> VectorPath {
    rect_path(x0, y - 0.25, x1 - x0, 0.5)
}
fn vrule(x: f64, y0: f64, y1: f64) -> VectorPath {
    rect_path(x - 0.25, y0, 0.5, y1 - y0)
}
fn rect_path(x: f64, y: f64, w: f64, h: f64) -> VectorPath {
    VectorPath {
        index: 0,
        bounds: Some(Rect { x, y, w, h }),
        segments: vec![
            PathSeg::Move(x, y),
            PathSeg::Line(x + w, y),
            PathSeg::Line(x + w, y + h),
            PathSeg::Line(x, y + h),
            PathSeg::Close,
        ],
        fill: Some([0.0, 0.0, 0.0]),
        stroke: None,
        stroke_width: 0.5,
        dash: Vec::new(),
    }
}

#[test]
fn ruled_grid_builds_a_table_with_rows_and_cells() {
    let runs = vec![
        cell_run("Name", 60.0, 122.0, 40.0),
        cell_run("Age", 160.0, 122.0, 30.0),
        cell_run("Alice", 60.0, 102.0, 40.0),
        cell_run("30", 160.0, 102.0, 20.0),
    ];
    let lines = group_into_lines(&runs);
    let mut paths = vec![
        hrule(100.0, 50.0, 250.0),
        hrule(120.0, 50.0, 250.0),
        hrule(140.0, 50.0, 250.0),
        vrule(50.0, 100.0, 140.0),
        vrule(150.0, 100.0, 140.0),
        vrule(250.0, 100.0, 140.0),
    ];
    for (i, p) in paths.iter_mut().enumerate() {
        p.index = i;
    }
    let plan = plan_tables(&lines, &paths, &BTreeSet::new());
    let tbl = plan.plan.take_if_starts_at(0).expect("table at line 0");
    let mut ids = IdGen::default();
    let block = table_block(&plan, tbl, &lines, &mut ids).unwrap();
    let BlockKind::Table(t) = block.kind else {
        panic!("expected table");
    };
    assert_eq!(t.rows.len(), 2, "two rows");
    assert_eq!(t.rows[0].cells.len(), 2, "two columns");
    let cell_text = |c: &Cell| -> String {
        match &c.blocks[0].kind {
            BlockKind::Paragraph(p) => match p.runs.first() {
                Some(Inline::Run(r)) => r.text.clone(),
                _ => String::new(),
            },
            _ => String::new(),
        }
    };
    assert_eq!(cell_text(&t.rows[0].cells[0]), "Name");
    assert_eq!(cell_text(&t.rows[0].cells[1]), "Age");
    assert_eq!(cell_text(&t.rows[1].cells[0]), "Alice");
    assert_eq!(cell_text(&t.rows[1].cells[1]), "30");
    assert_eq!(t.border.width, ONE_POINT);
    assert!(plan.plan.uses_path(0) && plan.plan.uses_path(3));
}

#[test]
fn cell_runs_carry_the_first_source_index() {
    let runs = vec![
        run_src("Name", 60.0, 122.0, 40.0, 10),
        run_src("Age", 160.0, 122.0, 30.0, 11),
        run_src("Alice", 60.0, 102.0, 40.0, 12),
        run_src("30", 160.0, 102.0, 20.0, 13),
    ];
    let lines = group_into_lines(&runs);
    let mut paths = vec![
        hrule(100.0, 50.0, 250.0),
        hrule(120.0, 50.0, 250.0),
        hrule(140.0, 50.0, 250.0),
        vrule(50.0, 100.0, 140.0),
        vrule(150.0, 100.0, 140.0),
        vrule(250.0, 100.0, 140.0),
    ];
    for (i, p) in paths.iter_mut().enumerate() {
        p.index = i;
    }
    let plan = plan_tables(&lines, &paths, &BTreeSet::new());
    let tbl = plan.plan.take_if_starts_at(0).expect("table at line 0");
    let mut ids = IdGen::default();
    let block = table_block(&plan, tbl, &lines, &mut ids).unwrap();
    let BlockKind::Table(t) = block.kind else {
        panic!("expected table");
    };
    let cell_src = |c: &Cell| -> Option<usize> {
        match &c.blocks[0].kind {
            BlockKind::Paragraph(p) => match p.runs.first() {
                Some(Inline::Run(r)) => r.source_index,
                _ => None,
            },
            _ => None,
        }
    };
    assert_eq!(cell_src(&t.rows[0].cells[0]), Some(10), "Name cell index");
    assert_eq!(cell_src(&t.rows[0].cells[1]), Some(11), "Age cell index");
    assert_eq!(cell_src(&t.rows[1].cells[0]), Some(12), "Alice cell index");
    assert_eq!(cell_src(&t.rows[1].cells[1]), Some(13), "30 cell index");
}

#[test]
fn empty_cell_has_no_source_index() {
    let runs = vec![
        run_src("Name", 60.0, 122.0, 40.0, 10),
        run_src("Alice", 60.0, 102.0, 40.0, 12),
        run_src("30", 160.0, 102.0, 20.0, 13),
    ];
    let lines = group_into_lines(&runs);
    let mut paths = vec![
        hrule(100.0, 50.0, 250.0),
        hrule(120.0, 50.0, 250.0),
        hrule(140.0, 50.0, 250.0),
        vrule(50.0, 100.0, 140.0),
        vrule(150.0, 100.0, 140.0),
        vrule(250.0, 100.0, 140.0),
    ];
    for (i, p) in paths.iter_mut().enumerate() {
        p.index = i;
    }
    let plan = plan_tables(&lines, &paths, &BTreeSet::new());
    let tbl = plan.plan.take_if_starts_at(0).expect("table at line 0");
    let mut ids = IdGen::default();
    let block = table_block(&plan, tbl, &lines, &mut ids).unwrap();
    let BlockKind::Table(t) = block.kind else {
        panic!("expected table");
    };
    let empty = &t.rows[0].cells[1];
    match &empty.blocks[0].kind {
        BlockKind::Paragraph(p) => assert!(p.runs.is_empty(), "empty cell has no run"),
        _ => panic!("expected paragraph"),
    }
}

#[test]
fn prose_is_not_promoted_to_a_table() {
    let runs = vec![
        cell_run("First line of body text", 72.0, 700.0, 150.0),
        cell_run("Second line of body text", 72.0, 686.0, 150.0),
        cell_run("Third line of the body", 72.0, 672.0, 150.0),
    ];
    let lines = group_into_lines(&runs);
    let plan = plan_tables(&lines, &[], &BTreeSet::new());
    assert!(plan.plan.take_if_starts_at(0).is_none(), "prose stays prose");
}

#[test]
fn borderless_grid_with_two_aligned_columns_is_a_table() {
    let runs = vec![
        cell_run("Product", 72.0, 700.0, 50.0),
        cell_run("Price", 300.0, 700.0, 40.0),
        cell_run("Widget", 72.0, 684.0, 50.0),
        cell_run("9.99", 300.0, 684.0, 30.0),
    ];
    let lines = group_into_lines(&runs);
    let plan = plan_tables(&lines, &[], &BTreeSet::new());
    let tbl = plan.plan.take_if_starts_at(0).expect("borderless table");
    let mut ids = IdGen::default();
    let block = table_block(&plan, tbl, &lines, &mut ids).unwrap();
    let BlockKind::Table(t) = block.kind else {
        panic!("expected table");
    };
    assert_eq!(t.rows.len(), 2);
    assert_eq!(t.rows[0].cells.len(), 2);
    assert_eq!(t.border.width, NO_LENGTH);
}

#[test]
fn sparse_form_like_ruled_grid_is_rejected() {
    let mut paths: Vec<VectorPath> = Vec::new();
    let xs: Vec<f64> = (0..16).map(|i| 50.0 + i as f64 * 30.0).collect();
    for &x in &xs {
        paths.push(vrule(x, 100.0, 400.0));
    }
    let ys: Vec<f64> = (0..11).map(|i| 100.0 + i as f64 * 30.0).collect();
    for &y in &ys {
        paths.push(hrule(y, 50.0, 500.0));
    }
    for (i, p) in paths.iter_mut().enumerate() {
        p.index = i;
    }
    let runs: Vec<ReconRun> = (0..10)
        .map(|r| cell_run("x", 55.0, 105.0 + r as f64 * 30.0, 8.0))
        .collect();
    let lines = group_into_lines(&runs);
    let plan = plan_tables(&lines, &paths, &BTreeSet::new());
    assert!(
        plan.plan.take_if_starts_at(0).is_none(),
        "a sparse {}-column form grid must not become a table",
        xs.len() - 1
    );
}

#[test]
fn dense_compact_ruled_grid_is_kept() {
    let mut paths = vec![
        hrule(100.0, 50.0, 350.0),
        hrule(120.0, 50.0, 350.0),
        hrule(140.0, 50.0, 350.0),
        vrule(50.0, 100.0, 140.0),
        vrule(150.0, 100.0, 140.0),
        vrule(250.0, 100.0, 140.0),
        vrule(350.0, 100.0, 140.0),
    ];
    for (i, p) in paths.iter_mut().enumerate() {
        p.index = i;
    }
    let runs = vec![
        cell_run("A", 60.0, 122.0, 30.0),
        cell_run("B", 160.0, 122.0, 30.0),
        cell_run("C", 260.0, 122.0, 30.0),
        cell_run("D", 60.0, 102.0, 30.0),
        cell_run("E", 160.0, 102.0, 30.0),
        cell_run("F", 260.0, 102.0, 30.0),
    ];
    let lines = group_into_lines(&runs);
    let plan = plan_tables(&lines, &paths, &BTreeSet::new());
    let tbl = plan
        .plan
        .take_if_starts_at(0)
        .expect("a dense compact grid stays a table");
    assert!(is_table(&plan.grids[tbl], &lines));
}

#[test]
fn sanity_gate_thresholds() {
    let dense = PlannedTable {
        cols: vec![0.0, 10.0, 20.0],
        rows: vec![20.0, 10.0, 0.0],
        ruled: true,
        covered_lines: BTreeSet::new(),
        used_paths: BTreeSet::new(),
        h_segs: Vec::new(),
        v_segs: Vec::new(),
        col_align: vec![Align::Left, Align::Left],
    };
    let runs = vec![
        cell_run("a", 1.0, 11.0, 8.0),
        cell_run("b", 11.0, 11.0, 8.0),
        cell_run("c", 1.0, 1.0, 8.0),
        cell_run("d", 11.0, 1.0, 8.0),
    ];
    let lines = group_into_lines(&runs);
    let mut t = dense.clone();
    t.covered_lines = (0..lines.len()).collect();
    assert!(is_table(&t, &lines), "dense 2×2 passes");

    let mut wide = dense.clone();
    wide.cols = (0..=plan::MAX_TABLE_COLS as i32 + 2)
        .map(|i| i as f64 * 5.0)
        .collect();
    wide.covered_lines = (0..lines.len()).collect();
    assert!(
        !is_table(&wide, &lines),
        "over-wide grid rejected"
    );

    let mut empty = dense.clone();
    empty.covered_lines = BTreeSet::new();
    assert!(
        !is_table(&empty, &lines),
        "an empty grid is rejected (0% fill)"
    );
}

fn build_rows(paths: &[VectorPath], runs: &[ReconRun]) -> Vec<Row> {
    let lines = group_into_lines(runs);
    let mut paths = paths.to_vec();
    for (i, p) in paths.iter_mut().enumerate() {
        p.index = i;
    }
    let plan = plan_tables(&lines, &paths, &BTreeSet::new());
    let tbl = plan.plan.take_if_starts_at(0).expect("a table");
    let mut ids = IdGen::default();
    let BlockKind::Table(t) = table_block(&plan, tbl, &lines, &mut ids)
        .expect("table block")
        .kind
    else {
        panic!("expected table");
    };
    t.rows
}

fn cell_text(c: &Cell) -> String {
    match &c.blocks[0].kind {
        BlockKind::Paragraph(p) => match p.runs.first() {
            Some(Inline::Run(r)) => r.text.clone(),
            _ => String::new(),
        },
        _ => String::new(),
    }
}

#[test]
fn header_spanning_two_columns_gets_col_span_2() {
    let paths = vec![
        hrule(140.0, 50.0, 350.0),
        hrule(120.0, 50.0, 350.0),
        hrule(100.0, 50.0, 350.0),
        vrule(50.0, 100.0, 140.0),
        vrule(350.0, 100.0, 140.0),
        vrule(150.0, 100.0, 120.0),
        vrule(250.0, 100.0, 140.0),
    ];
    let runs = vec![
        cell_run("Billing address", 60.0, 126.0, 80.0),
        cell_run("Qty", 260.0, 126.0, 20.0),
        cell_run("Rue de Paris", 60.0, 106.0, 40.0),
        cell_run("75001", 160.0, 106.0, 30.0),
        cell_run("3", 260.0, 106.0, 10.0),
    ];
    let rows = build_rows(&paths, &runs);
    assert_eq!(rows.len(), 2, "two rows");

    assert_eq!(rows[0].cells.len(), 2, "header row merges to 2 cells");
    assert_eq!(
        rows[0].cells[0].col_span, 2,
        "header cell spans two columns"
    );
    assert_eq!(rows[0].cells[0].row_span, 1);
    assert_eq!(cell_text(&rows[0].cells[0]), "Billing address");
    assert_eq!(rows[0].cells[1].col_span, 1, "third column not merged");
    assert_eq!(cell_text(&rows[0].cells[1]), "Qty");

    assert_eq!(rows[1].cells.len(), 3, "body row keeps three cells");
    assert!(rows[1]
        .cells
        .iter()
        .all(|c| c.col_span == 1 && c.row_span == 1));
}

#[test]
fn cell_spanning_two_rows_gets_row_span_2() {
    let paths = vec![
        hrule(140.0, 50.0, 250.0),
        hrule(100.0, 50.0, 250.0),
        hrule(120.0, 150.0, 250.0),
        vrule(50.0, 100.0, 140.0),
        vrule(150.0, 100.0, 140.0),
        vrule(250.0, 100.0, 140.0),
    ];
    let runs = vec![
        cell_run("Logo", 60.0, 116.0, 40.0),
        cell_run("Name", 160.0, 126.0, 40.0),
        cell_run("Addr", 160.0, 106.0, 40.0),
    ];
    let rows = build_rows(&paths, &runs);
    assert_eq!(rows.len(), 2);

    assert_eq!(rows[0].cells.len(), 2);
    assert_eq!(rows[0].cells[0].row_span, 2, "left cell spans two rows");
    assert_eq!(rows[0].cells[0].col_span, 1, "left cell is one column");
    assert_eq!(cell_text(&rows[0].cells[0]), "Logo");

    assert_eq!(rows[1].cells.len(), 1, "left slot absorbed by the row span");
    assert_eq!(cell_text(&rows[1].cells[0]), "Addr");
}

#[test]
fn fully_ruled_grid_keeps_unit_cells() {
    let paths = vec![
        hrule(140.0, 50.0, 250.0),
        hrule(120.0, 50.0, 250.0),
        hrule(100.0, 50.0, 250.0),
        vrule(50.0, 100.0, 140.0),
        vrule(150.0, 100.0, 140.0),
        vrule(250.0, 100.0, 140.0),
    ];
    let runs = vec![
        cell_run("A", 60.0, 126.0, 30.0),
        cell_run("B", 160.0, 126.0, 30.0),
        cell_run("C", 60.0, 106.0, 30.0),
        cell_run("D", 160.0, 106.0, 30.0),
    ];
    let rows = build_rows(&paths, &runs);
    assert_eq!(rows.len(), 2);
    for row in &rows {
        assert_eq!(row.cells.len(), 2, "every row keeps both cells");
        assert!(
            row.cells.iter().all(|c| c.col_span == 1 && c.row_span == 1),
            "fully-ruled grid produces only 1×1 cells"
        );
    }
}

fn count_tables(lines: &[ReconLine], paths: &[VectorPath]) -> usize {
    let plan = plan_tables(lines, paths, &BTreeSet::new());
    let mut ids = IdGen::default();
    let mut n = 0;
    for li in 0..lines.len() {
        if let Some(tbl) = plan.plan.take_if_starts_at(li) {
            if let Some(block) = table_block(&plan, tbl, lines, &mut ids) {
                if matches!(block.kind, BlockKind::Table(_)) {
                    n += 1;
                }
            }
        }
    }
    n
}

#[test]
fn two_stacked_ruled_tables_yield_two_tables() {
    let mut paths = vec![
        hrule(300.0, 50.0, 250.0),
        hrule(320.0, 50.0, 250.0),
        hrule(340.0, 50.0, 250.0),
        vrule(50.0, 300.0, 340.0),
        vrule(150.0, 300.0, 340.0),
        vrule(250.0, 300.0, 340.0),
        hrule(100.0, 50.0, 250.0),
        hrule(120.0, 50.0, 250.0),
        hrule(140.0, 50.0, 250.0),
        vrule(50.0, 100.0, 140.0),
        vrule(150.0, 100.0, 140.0),
        vrule(250.0, 100.0, 140.0),
    ];
    for (i, p) in paths.iter_mut().enumerate() {
        p.index = i;
    }
    let runs = vec![
        cell_run("Name", 60.0, 322.0, 40.0),
        cell_run("Age", 160.0, 322.0, 30.0),
        cell_run("Alice", 60.0, 302.0, 40.0),
        cell_run("30", 160.0, 302.0, 20.0),
        cell_run("Item", 60.0, 122.0, 40.0),
        cell_run("Qty", 160.0, 122.0, 30.0),
        cell_run("Pen", 60.0, 102.0, 40.0),
        cell_run("5", 160.0, 102.0, 20.0),
    ];
    let lines = group_into_lines(&runs);

    assert_eq!(
        count_tables(&lines, &paths),
        2,
        "two stacked ruled tables must yield two Table blocks, not one fused (or zero)"
    );

    let plan = plan_tables(&lines, &paths, &BTreeSet::new());
    for i in 0..paths.len() {
        assert!(plan.plan.uses_path(i), "rule path {i} should be owned by a table");
    }
}

#[test]
fn single_ruled_grid_stays_one_table() {
    let mut paths = vec![
        hrule(100.0, 50.0, 250.0),
        hrule(130.0, 50.0, 250.0),
        hrule(160.0, 50.0, 250.0),
        hrule(190.0, 50.0, 250.0),
        vrule(50.0, 100.0, 190.0),
        vrule(150.0, 100.0, 190.0),
        vrule(250.0, 100.0, 190.0),
    ];
    for (i, p) in paths.iter_mut().enumerate() {
        p.index = i;
    }
    let runs = vec![
        cell_run("A", 60.0, 172.0, 30.0),
        cell_run("B", 160.0, 172.0, 30.0),
        cell_run("C", 60.0, 142.0, 30.0),
        cell_run("D", 160.0, 142.0, 30.0),
        cell_run("E", 60.0, 112.0, 30.0),
        cell_run("F", 160.0, 112.0, 30.0),
    ];
    let lines = group_into_lines(&runs);
    assert_eq!(
        count_tables(&lines, &paths),
        1,
        "a single (tall) ruled grid stays one table"
    );
}

#[test]
fn two_stacked_borderless_tables_yield_two_tables() {
    let runs = vec![
        cell_run("Product", 72.0, 700.0, 50.0),
        cell_run("Price", 300.0, 700.0, 40.0),
        cell_run("Widget", 72.0, 684.0, 50.0),
        cell_run("9.99", 300.0, 684.0, 30.0),
        cell_run("City", 72.0, 300.0, 50.0),
        cell_run("Pop", 320.0, 300.0, 40.0),
        cell_run("Paris", 72.0, 284.0, 50.0),
        cell_run("2M", 320.0, 284.0, 30.0),
    ];
    let lines = group_into_lines(&runs);
    assert_eq!(
        count_tables(&lines, &[]),
        2,
        "two stacked borderless tables must yield two Table blocks"
    );
}

#[test]
fn segment_rule_bands_splits_on_gap_not_on_row_pitch() {
    let h = |y: f64| HSeg {
        y,
        x0: 50.0,
        x1: 250.0,
        path: 0,
    };
    let v = |x: f64, y0: f64, y1: f64| VSeg {
        x,
        y0,
        y1,
        path: 0,
    };

    let h1 = vec![h(100.0), h(120.0), h(140.0)];
    let v1 = vec![v(50.0, 100.0, 140.0), v(250.0, 100.0, 140.0)];
    assert_eq!(
        segment_rule_bands(&h1, &v1).len(),
        1,
        "a single framed grid is one band"
    );

    let h2 = vec![
        h(100.0),
        h(120.0),
        h(140.0),
        h(300.0),
        h(320.0),
        h(340.0),
    ];
    let v2 = vec![
        v(50.0, 100.0, 140.0),
        v(250.0, 100.0, 140.0),
        v(50.0, 300.0, 340.0),
        v(250.0, 300.0, 340.0),
    ];
    assert_eq!(
        segment_rule_bands(&h2, &v2).len(),
        2,
        "two grids separated by a void are two bands"
    );
}

fn borderless_table(lines: &[ReconLine]) -> Option<Table> {
    let plan = plan_tables(lines, &[], &BTreeSet::new());
    let mut ids = IdGen::default();
    for li in 0..lines.len() {
        if let Some(tbl) = plan.plan.take_if_starts_at(li) {
            if let Some(block) = table_block(&plan, tbl, lines, &mut ids) {
                if let BlockKind::Table(t) = block.kind {
                    return Some(t);
                }
            }
        }
    }
    None
}

fn cell_align(c: &Cell) -> Align {
    match c.blocks.first().map(|b| &b.kind) {
        Some(BlockKind::Paragraph(p)) => p.style.align,
        _ => Align::Left,
    }
}

#[test]
fn detect_columns_separates_left_label_from_right_amount() {
    let edges = vec![
        (72.0, 112.0, None),
        (72.0, 192.0, None),
        (72.0, 132.0, None),
        (490.0, 540.0, None),
        (465.0, 540.0, None),
        (520.0, 540.0, None),
    ];
    let cols = detect_columns(&edges, 20.0);
    assert_eq!(cols.len(), 2, "label + amount = 2 columns, got {cols:?}");
    assert_eq!(cols[0].align, Align::Left, "label column is left-aligned");
    assert_eq!(cols[1].align, Align::Right, "amount column is right-aligned");
    assert!(
        (cols[1].anchor - 540.0).abs() < 1.0,
        "right anchor ≈ 540, got {}",
        cols[1].anchor
    );
}

#[test]
fn borderless_invoice_right_aligned_amounts_is_one_amount_column() {
    let runs = vec![
        cell_run("Libelle", 72.0, 700.0, 40.0),
        cell_run("Montant", 490.0, 700.0, 50.0),
        cell_run("Consulting services", 72.0, 684.0, 120.0),
        cell_run("1.234,00", 480.0, 684.0, 60.0),
        cell_run("Travel", 72.0, 668.0, 40.0),
        cell_run("99,50", 505.0, 668.0, 35.0),
        cell_run("Software license", 72.0, 652.0, 100.0),
        cell_run("12.345,67", 465.0, 652.0, 75.0),
    ];
    let lines = group_into_lines(&runs);
    let table = borderless_table(&lines).expect("invoice rows form a borderless table");
    assert_eq!(
        table.rows.len(),
        4,
        "four rows (header + 3 lines), got {}",
        table.rows.len()
    );
    for (ri, row) in table.rows.iter().enumerate() {
        assert_eq!(
            row.cells.len(),
            2,
            "row {ri} must have 2 cells (label + amount), got {}",
            row.cells.len()
        );
    }
    assert_eq!(cell_text(&table.rows[1].cells[0]), "Consulting services");
    assert_eq!(cell_text(&table.rows[1].cells[1]), "1.234,00");
    assert_eq!(cell_text(&table.rows[3].cells[1]), "12.345,67");
    assert_eq!(table.border.width, NO_LENGTH);
    assert_eq!(
        cell_align(&table.rows[1].cells[0]),
        Align::Left,
        "label cell is left-aligned"
    );
    assert_eq!(
        cell_align(&table.rows[1].cells[1]),
        Align::Right,
        "amount cell is right-aligned"
    );
}

#[test]
fn borderless_three_columns_mixed_alignment() {
    let runs = vec![
        cell_run("Item", 72.0, 700.0, 40.0),
        cell_run("Qty", 260.0, 700.0, 30.0),
        cell_run("Total", 490.0, 700.0, 50.0),
        cell_run("Apples", 72.0, 684.0, 60.0),
        cell_run("3", 260.0, 684.0, 12.0),
        cell_run("1.234,00", 480.0, 684.0, 60.0),
        cell_run("Pears", 72.0, 668.0, 50.0),
        cell_run("12", 260.0, 668.0, 22.0),
        cell_run("99,50", 505.0, 668.0, 35.0),
    ];
    let lines = group_into_lines(&runs);
    let table = borderless_table(&lines).expect("three-column mixed table");
    assert_eq!(table.rows.len(), 3, "three rows");
    for (ri, row) in table.rows.iter().enumerate() {
        assert_eq!(row.cells.len(), 3, "row {ri} has 3 columns");
    }
    let data = &table.rows[1];
    assert_eq!(cell_align(&data.cells[0]), Align::Left, "label left");
    assert_eq!(cell_align(&data.cells[1]), Align::Left, "qty left");
    assert_eq!(cell_align(&data.cells[2]), Align::Right, "amount right");
    assert_eq!(cell_text(&data.cells[0]), "Apples");
    assert_eq!(cell_text(&data.cells[2]), "1.234,00");
}

#[test]
fn borderless_left_aligned_table_still_detected_unchanged() {
    let runs = vec![
        cell_run("Name", 72.0, 700.0, 50.0),
        cell_run("Role", 300.0, 700.0, 50.0),
        cell_run("Alice", 72.0, 684.0, 50.0),
        cell_run("Engineer", 300.0, 684.0, 70.0),
        cell_run("Bob", 72.0, 668.0, 50.0),
        cell_run("Designer", 300.0, 668.0, 70.0),
    ];
    let lines = group_into_lines(&runs);
    let table = borderless_table(&lines).expect("left-aligned borderless table");
    assert_eq!(table.rows.len(), 3, "three rows");
    for row in &table.rows {
        assert_eq!(row.cells.len(), 2, "two columns");
        for cell in &row.cells {
            assert_eq!(
                cell_align(cell),
                Align::Left,
                "left-aligned columns stay left-aligned"
            );
        }
    }
    assert_eq!(cell_text(&table.rows[1].cells[0]), "Alice");
    assert_eq!(cell_text(&table.rows[1].cells[1]), "Engineer");
}

#[test]
fn right_ragged_prose_is_not_promoted_to_a_table() {
    let runs = vec![
        cell_run("The quick brown fox jumps over", 72.0, 700.0, 180.0),
        cell_run("the lazy dog while the sun sets", 72.0, 686.0, 188.0),
        cell_run("slowly behind the distant hills", 72.0, 672.0, 176.0),
        cell_run("and the evening grows quiet now", 72.0, 658.0, 184.0),
    ];
    let lines = group_into_lines(&runs);
    let plan = plan_tables(&lines, &[], &BTreeSet::new());
    assert!(
        plan.plan.take_if_starts_at(0).is_none(),
        "single-column ragged prose stays prose"
    );
    assert!(borderless_table(&lines).is_none());
}

#[test]
fn coincidental_shared_right_edge_in_prose_is_not_a_table() {
    let runs = vec![
        cell_run("First paragraph line ending here", 72.0, 700.0, 200.0),
        cell_run("A different second line ends too", 72.0, 686.0, 200.0),
        cell_run("Third line is a bit shorter ok", 72.0, 672.0, 170.0),
    ];
    let lines = group_into_lines(&runs);
    let plan = plan_tables(&lines, &[], &BTreeSet::new());
    assert!(
        plan.plan.take_if_starts_at(0).is_none(),
        "a shared right edge alone is not a column"
    );
}

#[test]
fn decimal_sep_x_locates_the_separator() {
    let x = decimal_sep_x("12,00", 400.0, 80.0).expect("comma is a decimal sep");
    assert!((x - 440.0).abs() < 1.0, "sep ≈ 440 (mid box), got {x}");
    let x2 = decimal_sep_x("1.234,00", 400.0, 80.0).expect("last sep is the comma");
    assert!(x2 > 440.0, "decimal sep is the comma (right of centre), got {x2}");
    assert!(decimal_sep_x("Total", 0.0, 50.0).is_none(), "word: no separator");
    assert!(decimal_sep_x("42", 0.0, 20.0).is_none(), "integer: no separator");
    assert!(
        decimal_sep_x("End of sentence.", 0.0, 90.0).is_none(),
        "trailing dot is not a decimal separator"
    );
    assert!(
        decimal_sep_x("1.234.567", 0.0, 60.0).is_none(),
        "grouped integer (no fractional part) is not a decimal value"
    );
}

#[test]
fn detect_columns_groups_varying_decimal_amounts_into_one_column() {
    let edges_with_dec: Vec<(f64, f64, Option<f64>)> = vec![
        (72.0, 110.0, None),
        (72.0, 190.0, None),
        (72.0, 130.0, None),
        (480.0, 510.0, Some(500.0)),
        (450.0, 525.0, Some(500.0)),
        (440.0, 545.0, Some(500.0)),
    ];
    let cols = detect_columns(&edges_with_dec, 20.0);
    assert_eq!(cols.len(), 2, "label + decimal amount = 2 columns, got {cols:?}");
    assert_eq!(cols[0].align, Align::Left, "label column is left-aligned");
    assert!(!cols[0].decimal, "label column is not a decimal column");
    assert!(cols[1].decimal, "amount column is detected as decimal");
    assert_eq!(cols[1].align, Align::Right, "decimal column reports as Right");
    assert!(
        (cols[1].anchor - 500.0).abs() < 1.0,
        "decimal anchor ≈ separator X 500, got {}",
        cols[1].anchor
    );

    let edges_no_dec: Vec<(f64, f64, Option<f64>)> =
        edges_with_dec.iter().map(|&(l, r, _)| (l, r, None)).collect();
    let r8_only = detect_columns(&edges_no_dec, 20.0);
    assert!(
        r8_only.len() < 2,
        "without the decimal family these amounts shatter (no 2nd column), got {r8_only:?}"
    );
}

#[test]
fn borderless_varying_decimal_amounts_is_one_amount_column() {
    let runs = vec![
        cell_run("Libelle", 72.0, 700.0, 56.0),
        cell_run("Montant", 440.0, 700.0, 56.0),
        cell_run("Service", 72.0, 684.0, 56.0),
        cell_run("5,5", 468.0, 684.0, 24.0),
        cell_run("Materiel divers", 72.0, 668.0, 120.0),
        cell_run("1.250,00", 436.0, 668.0, 64.0),
        cell_run("Quantite", 72.0, 652.0, 64.0),
        cell_run("99,750", 460.0, 652.0, 48.0),
    ];
    let lines = group_into_lines(&runs);
    let table = borderless_table(&lines).expect("decimal-aligned amounts form a table");
    assert_eq!(
        table.rows.len(),
        4,
        "four rows (header + 3 lines), got {}",
        table.rows.len()
    );
    for (ri, row) in table.rows.iter().enumerate() {
        assert_eq!(
            row.cells.len(),
            2,
            "row {ri} must have 2 cells (label + amount), got {}",
            row.cells.len()
        );
    }
    assert_eq!(cell_text(&table.rows[2].cells[1]), "1.250,00");
    assert_eq!(cell_text(&table.rows[3].cells[1]), "99,750");
    assert_eq!(
        cell_align(&table.rows[2].cells[1]),
        Align::Right,
        "amount cell is right-aligned"
    );
    assert_eq!(
        cell_align(&table.rows[1].cells[0]),
        Align::Left,
        "label cell is left-aligned"
    );
    assert_eq!(table.border.width, NO_LENGTH);
}

#[test]
fn decimals_scattered_in_prose_are_not_promoted_to_a_table() {
    let runs = vec![
        cell_run("The total was 12,50 last quarter", 72.0, 700.0, 190.0),
        cell_run("but only 3,7 in the prior period", 72.0, 686.0, 188.0),
        cell_run("and roughly 145,99 the year before", 72.0, 672.0, 196.0),
    ];
    let lines = group_into_lines(&runs);
    let plan = plan_tables(&lines, &[], &BTreeSet::new());
    assert!(
        plan.plan.take_if_starts_at(0).is_none(),
        "prose mentioning decimals stays prose"
    );
    assert!(
        borderless_table(&lines).is_none(),
        "no table is built from prose with stray decimals"
    );
}

// ── paragraphs ──

fn par_run(text: &str, x: f64, y: f64, w: f64) -> ReconRun {
    ReconRun {
        text: text.to_string(),
        x,
        y,
        w,
        h: 12.0,
        size: 12.0,
        style: TextStyle::default(),
        rotation: 0.0,
        source_index: None,
        underline: false,
        strike: false,
    }
}

fn lines_of(runs: &[ReconRun]) -> Vec<ReconLine> {
    group_into_lines(runs)
}

fn par_run_rot(text: &str, x: f64, y: f64, w: f64, rotation: f64) -> ReconRun {
    ReconRun {
        rotation,
        ..par_run(text, x, y, w)
    }
}

#[test]
fn upright_paragraph_stays_d0() {
    let block = paragraph_of(&[par_run("upright text", 72.0, 700.0, 110.0)]);
    assert_eq!(block.rotation, Rotation::D0);
}

#[test]
fn rotated_90_run_lowers_to_a_d90_block() {
    let block = paragraph_of(&[par_run_rot("Vertical", 72.0, 700.0, 80.0, 90.0)]);
    assert_eq!(block.rotation, Rotation::D90);
    match &block.kind {
        BlockKind::Paragraph(p) => assert!(p.runs.iter().any(|r| matches!(
            r,
            Inline::Run(InlineRun { text, .. }) if text == "Vertical"
        ))),
        other => panic!("expected paragraph, got {other:?}"),
    }
}

#[test]
fn rotated_180_run_lowers_to_a_d180_block() {
    let block = paragraph_of(&[par_run_rot("Upside down", 72.0, 700.0, 110.0, 180.0)]);
    assert_eq!(block.rotation, Rotation::D180);
}

#[test]
fn rotated_270_run_lowers_to_a_d270_block() {
    let block = paragraph_of(&[par_run_rot("Sideways", 72.0, 700.0, 80.0, -90.0)]);
    assert_eq!(block.rotation, Rotation::D270);
}

#[test]
fn arbitrary_angle_run_lowers_to_a_free_form_rotation() {
    let (block, tables) = paragraph_and_tables(&[par_run_rot("Diagonal", 72.0, 700.0, 90.0, 30.0)]);
    match block.rotation {
        Rotation::Deg(k) => {
            let d = tables.angles[k];
            assert!((d - 30.0).abs() < 1e-9, "got {d}")
        }
        other => panic!("expected Deg(30), got {other:?}"),
    }
}

#[test]
fn near_cardinal_angle_snaps_to_the_exact_variant() {
    let block = paragraph_of(&[par_run_rot("Almost 90", 72.0, 700.0, 80.0, 90.2)]);
    assert_eq!(block.rotation, Rotation::D90);
}

#[test]
fn tight_lines_are_one_paragraph() {
    let runs = vec![
        par_run("line one here", 72.0, 700.0, 120.0),
        par_run("line two here", 72.0, 686.0, 120.0),
        par_run("line three end", 72.0, 672.0, 110.0),
    ];
    let lines = lines_of(&runs);
    let refs: Vec<&ReconLine> = lines.iter().collect();
    let paras = split_paragraphs(&refs, 12.0);
    assert_eq!(paras.len(), 1, "tight lines = one paragraph");
    assert_eq!((paras.get(1).copied().unwrap_or(refs.len()) - paras[0]), 3);
}

#[test]
fn a_big_vertical_gap_breaks_paragraphs() {
    let runs = vec![
        par_run("para one a", 72.0, 700.0, 100.0),
        par_run("para one b", 72.0, 686.0, 100.0),
        par_run("para two a", 72.0, 640.0, 100.0),
        par_run("para two b", 72.0, 626.0, 100.0),
    ];
    let lines = lines_of(&runs);
    let refs: Vec<&ReconLine> = lines.iter().collect();
    let paras = split_paragraphs(&refs, 12.0);
    assert_eq!(paras.len(), 2, "blank-line gap splits into two paragraphs");
}

#[test]
fn first_line_indent_starts_a_new_paragraph() {
    let runs = vec![
        par_run("flush left line", 72.0, 700.0, 110.0),
        par_run("indented opener", 100.0, 686.0, 110.0),
    ];
    let lines = lines_of(&runs);
    let refs: Vec<&ReconLine> = lines.iter().collect();
    let paras = split_paragraphs(&refs, 12.0);
    assert_eq!(paras.len(), 2, "first-line indent breaks paragraph");
}

#[test]
fn centered_lines_yield_center_align() {
    let runs = vec![
        par_run("a wide centered heading line", 100.0, 700.0, 300.0),
        par_run("shorter centered line", 175.0, 686.0, 150.0),
    ];
    let lines = lines_of(&runs);
    let refs: Vec<&ReconLine> = lines.iter().collect();
    let mut ids = IdGen::default();
    let block = plain_paragraph(&refs, &mut ids);
    let BlockKind::Paragraph(p) = block.kind else {
        panic!("expected paragraph");
    };
    assert_eq!(p.style.align, Align::Center);
}

#[test]
fn full_width_inner_lines_yield_justify_align() {
    let runs = vec![
        par_run("inner line one stretched full", 72.0, 700.0, 300.0),
        par_run("inner line two stretched full", 72.0, 686.0, 300.0),
        par_run("inner line three stretch full", 72.0, 672.0, 300.0),
        par_run("last short tail", 72.0, 658.0, 120.0),
    ];
    let lines = lines_of(&runs);
    let refs: Vec<&ReconLine> = lines.iter().collect();
    let mut ids = IdGen::default();
    let block = plain_paragraph(&refs, &mut ids);
    let BlockKind::Paragraph(p) = block.kind else {
        panic!("expected paragraph");
    };
    assert_eq!(p.style.align, Align::Justify);
}

#[test]
fn paragraph_block_carries_runs_and_linebreaks() {
    let runs = vec![
        par_run("alpha", 72.0, 700.0, 60.0),
        par_run("beta", 72.0, 686.0, 60.0),
    ];
    let lines = lines_of(&runs);
    let refs: Vec<&ReconLine> = lines.iter().collect();
    let mut ids = IdGen::default();
    let block = plain_paragraph(&refs, &mut ids);
    let BlockKind::Paragraph(p) = block.kind else {
        panic!("expected paragraph");
    };
    assert_eq!(p.runs.len(), 3);
    assert!(matches!(p.runs[1], Inline::LineBreak));
}

fn sized(text: &str, x: f64, y: f64, w: f64, size: f64) -> ReconRun {
    ReconRun {
        text: text.to_string(),
        x,
        y,
        w,
        h: size,
        size,
        style: TextStyle::default(),
        rotation: 0.0,
        source_index: None,
        underline: false,
        strike: false,
    }
}

fn nth_run_valign(p: &Paragraph, n: usize) -> Option<VAlign> {
    p.runs
        .iter()
        .filter_map(|i| match i {
            Inline::Run(r) => Some(r.style.vertical_align),
            _ => None,
        })
        .nth(n)
}

#[test]
fn a_small_raised_run_is_superscript() {
    let body = sized("E = mc", 72.0, 700.0, 60.0, 12.0);
    let sup = sized("2", 132.0, 704.0, 6.0, 7.0);
    let lines = lines_of(&[body, sup]);
    assert_eq!(lines.len(), 1, "body + superscript group into one line");
    let refs: Vec<&ReconLine> = lines.iter().collect();
    let ctx = ParaContext {
        body: 12.0,
        ..no_context()
    };
    let mut ids = IdGen::default();
    let (block, _) = styled(&refs, &ctx, &[], &mut ids);
    let BlockKind::Paragraph(p) = block.kind else {
        panic!("expected paragraph");
    };
    assert_eq!(
        nth_run_valign(&p, 0),
        Some(VAlign::Baseline),
        "the body run stays on the baseline"
    );
    assert_eq!(
        nth_run_valign(&p, 1),
        Some(VAlign::Super),
        "the small raised run is a superscript"
    );
}

#[test]
fn a_small_lowered_run_is_subscript() {
    let h = sized("H", 72.0, 700.0, 10.0, 12.0);
    let two = sized("2", 82.0, 696.5, 6.0, 7.0);
    let o = sized("O", 88.0, 700.0, 10.0, 12.0);
    let lines = lines_of(&[h, two, o]);
    assert_eq!(lines.len(), 1, "subscript groups with its body run");
    let refs: Vec<&ReconLine> = lines.iter().collect();
    let ctx = ParaContext {
        body: 12.0,
        ..no_context()
    };
    let mut ids = IdGen::default();
    let (block, _) = styled(&refs, &ctx, &[], &mut ids);
    let BlockKind::Paragraph(p) = block.kind else {
        panic!("expected paragraph");
    };
    assert_eq!(nth_run_valign(&p, 0), Some(VAlign::Baseline));
    assert_eq!(
        nth_run_valign(&p, 1),
        Some(VAlign::Sub),
        "the small lowered run is a subscript"
    );
    assert_eq!(nth_run_valign(&p, 2), Some(VAlign::Baseline));
}

#[test]
fn same_size_baseline_jitter_is_not_super_sub() {
    let a = sized("normal", 72.0, 700.0, 60.0, 12.0);
    let b = sized("text", 134.0, 702.0, 30.0, 12.0);
    let lines = lines_of(&[a, b]);
    assert_eq!(lines.len(), 1);
    let refs: Vec<&ReconLine> = lines.iter().collect();
    let ctx = ParaContext {
        body: 12.0,
        ..no_context()
    };
    let mut ids = IdGen::default();
    let (block, _) = styled(&refs, &ctx, &[], &mut ids);
    let BlockKind::Paragraph(p) = block.kind else {
        panic!("expected paragraph");
    };
    assert_eq!(
        nth_run_valign(&p, 0),
        Some(VAlign::Baseline),
        "merged same-size run is not a super/subscript"
    );
    assert!(p.runs.iter().any(|r| match r {
        Inline::Run(ir) => ir.text.contains("normal") && ir.text.contains("text"),
        _ => false,
    }), "coalesced run carries both texts");
}

#[test]
fn indented_double_spaced_paragraph_populates_style() {
    let runs = vec![
        par_run("indented opening line here", 130.0, 700.0, 200.0),
        par_run("second line flush at block", 100.0, 676.0, 200.0),
        par_run("third line also flush left", 100.0, 652.0, 200.0),
    ];
    let lines = lines_of(&runs);
    let refs: Vec<&ReconLine> = lines.iter().collect();
    let body = 12.0;
    let leading = group_leading(&refs, body, 0.0);
    let group_left = block_left(&refs);
    let ctx = ParaContext {
        body,
        leading,
        group_left,
        page_left: 72.0,
        prev_bottom: None,
    };
    let mut ids = IdGen::default();
    let (block, tables) = styled(&refs, &ctx, &[], &mut ids);
    let BlockKind::Paragraph(p) = block.kind else {
        panic!("expected paragraph");
    };
    let st = &tables.spacings[p.style.spacing];
    match st.line_height {
        Some(m) => {
            assert!((m - 2.0).abs() < 0.1, "≈2.0× leading, got {m}")
        }
        other => panic!("expected Multiple leading, got {other:?}"),
    }
    assert!(
        (st.first_line - 30.0).abs() < 1.0,
        "first-line indent ≈ 30, got {}",
        st.first_line
    );
    assert!(
        (st.indent_left - 28.0).abs() < 1.0,
        "left indent ≈ 28, got {}",
        st.indent_left
    );
}

#[test]
fn gap_before_a_paragraph_recovers_space_before() {
    let runs = vec![par_run("a fresh paragraph body", 72.0, 600.0, 200.0)];
    let lines = lines_of(&runs);
    let refs: Vec<&ReconLine> = lines.iter().collect();
    let ctx = ParaContext {
        body: 12.0,
        leading: 14.0,
        group_left: 72.0,
        page_left: 72.0,
        prev_bottom: Some(612.0 + 40.0),
    };
    let mut ids = IdGen::default();
    let (block, tables) = styled(&refs, &ctx, &[], &mut ids);
    let BlockKind::Paragraph(p) = block.kind else {
        panic!("expected paragraph");
    };
    let space_before = tables.spacings[p.style.spacing].space_before;
    assert!(
        (space_before - 38.0).abs() < 1.0,
        "space_before ≈ 38, got {}",
        space_before
    );
}

#[test]
fn plain_single_spaced_paragraph_leaves_style_quiet() {
    let runs = vec![
        par_run("flush left line one", 72.0, 700.0, 150.0),
        par_run("flush left line two", 72.0, 688.0, 150.0),
    ];
    let lines = lines_of(&runs);
    let refs: Vec<&ReconLine> = lines.iter().collect();
    let body = 12.0;
    let ctx = ParaContext {
        body,
        leading: group_leading(&refs, body, 0.0),
        group_left: block_left(&refs),
        page_left: 72.0,
        prev_bottom: None,
    };
    let mut ids = IdGen::default();
    let (block, tables) = styled(&refs, &ctx, &[], &mut ids);
    let BlockKind::Paragraph(p) = block.kind else {
        panic!("expected paragraph");
    };
    let st = &tables.spacings[p.style.spacing];
    assert_eq!(st.line_height, None, "1.0× leading ⇒ Normal");
    assert_eq!(st.first_line, 0.0, "no first-line indent");
    assert_eq!(st.indent_left, 0.0, "at the page margin");
    assert_eq!(st.space_before, 0.0, "no preceding paragraph");
}

#[test]
fn a_run_under_a_link_rect_is_wrapped_in_link() {
    let runs = vec![par_run("click me", 72.0, 700.0, 80.0)];
    let lines = lines_of(&runs);
    let refs: Vec<&ReconLine> = lines.iter().collect();
    let links = [ParaLink {
        target: 3,
        rect: [70.0, 698.0, 156.0, 714.0],
    }];
    let ctx = ParaContext {
        body: 12.0,
        ..no_context()
    };
    let mut ids = IdGen::default();
    let (block, _) = styled(&refs, &ctx, &links, &mut ids);
    let BlockKind::Paragraph(p) = block.kind else {
        panic!("expected paragraph");
    };
    let link = p.runs.iter().find_map(|i| match i {
        Inline::Link { target, children } => Some((*target, children)),
        _ => None,
    });
    let (target, children) = link.expect("the covered run is wrapped in a Link");
    assert_eq!(target, 3);
    assert!(
        matches!(children.first(), Some(Inline::Run(r)) if r.text.trim() == "click me"),
        "the link wraps the run it covers"
    );
}

fn push_inlines(inls: &[Inline], out: &mut String) {
    for i in inls {
        match i {
            Inline::Run(r) => out.push_str(&r.text),
            Inline::LineBreak => out.push(' '),
            Inline::Link { children, .. } => push_inlines(children, out),
            Inline::Image(_) => {}
            Inline::CommentRef(_) => {}
        }
    }
}

fn flatten(p: &Paragraph) -> String {
    let mut s = String::new();
    push_inlines(&p.runs, &mut s);
    s
}

#[test]
fn split_word_runs_get_no_spurious_space_but_real_gaps_keep_theirs() {
    let rel = par_run("rel", 72.0, 700.0, 18.0);
    let at = par_run("at", 90.0, 700.0, 12.0);
    let iff = par_run("if", 102.0, 700.0, 12.0);
    let au = par_run("au", 130.0, 700.0, 12.0);
    let lines = lines_of(&[rel, at, iff, au]);
    assert_eq!(lines.len(), 1, "one baseline band → one line");
    let refs: Vec<&ReconLine> = lines.iter().collect();
    let ctx = ParaContext {
        body: 12.0,
        ..no_context()
    };
    let mut ids = IdGen::default();
    let (block, _) = styled(&refs, &ctx, &[], &mut ids);
    let BlockKind::Paragraph(p) = block.kind else {
        panic!("expected paragraph");
    };
    assert_eq!(flatten(&p), "relatif au");
}

#[test]
fn a_run_outside_every_link_rect_is_not_wrapped() {
    let runs = vec![par_run("plain text", 72.0, 700.0, 80.0)];
    let lines = lines_of(&runs);
    let refs: Vec<&ReconLine> = lines.iter().collect();
    let links = [ParaLink {
        target: 3,
        rect: [72.0, 498.0, 152.0, 512.0],
    }];
    let ctx = ParaContext {
        body: 12.0,
        ..no_context()
    };
    let mut ids = IdGen::default();
    let (block, _) = styled(&refs, &ctx, &links, &mut ids);
    let BlockKind::Paragraph(p) = block.kind else {
        panic!("expected paragraph");
    };
    assert!(
        !p.runs.iter().any(|i| matches!(i, Inline::Link { .. })),
        "a run outside every rect stays a plain Run"
    );
}

// ── pages ──

fn page_run(text: &str, x: f64, y: f64, size: f64) -> ReconRun {
    ReconRun {
        text: text.to_string(),
        x,
        y,
        w: text.len() as f64 * size * 0.5,
        h: size,
        size,
        style: TextStyle::default(),
        rotation: 0.0,
        source_index: None,
        underline: false,
        strike: false,
    }
}

#[test]
fn empty_page_reconstructs_to_no_blocks() {
    let mut ids = IdGen::default();
    let blocks = reconstruct_page(
        Vec::new(),
        &[],
        &[],
        PageBox { x0: 0.0, y0: 0.0, height: 800.0 },
        &mut ids,
        &[],
        None,
    );
    assert!(blocks.blocks.is_empty());
}

#[test]
fn tag_blocks_are_used_verbatim() {
    let mut ids = IdGen::default();
    let tagged = vec![make_pending(0)];
    let blocks = reconstruct_page(
        vec![page_run("ignored", 0.0, 0.0, 12.0)],
        &[],
        &[],
        PageBox { x0: 0.0, y0: 0.0, height: 800.0 },
        &mut ids,
        &[],
        Some(tagged),
    );
    assert_eq!(blocks.blocks.len(), 1);
}

#[test]
fn mark_underlines_flags_a_run_above_a_thin_horizontal_rule() {
    let mut runs = vec![page_run("underlined", 72.0, 700.0, 12.0)];
    runs[0].w = 100.0;
    let rule = VectorPath {
        index: 5,
        bounds: Some(Rect { x: 72.0, y: 698.4, w: 100.0, h: 0.6 }),
        segments: vec![PathSeg::Move(72.0, 698.7), PathSeg::Line(172.0, 698.7)],
        fill: None,
        stroke: Some([0.0, 0.0, 0.0]),
        stroke_width: 0.6,
        dash: Vec::new(),
    };
    let consumed = mark_underlines(&mut runs, &[rule]);
    assert!(runs[0].underline, "run over a thin rule is underlined");
    assert_eq!(
        consumed,
        vec![5],
        "the rule path is consumed, not drawn twice"
    );
}

#[test]
fn mark_underlines_ignores_unrelated_rules() {
    let mut runs = vec![page_run("plain", 72.0, 700.0, 12.0)];
    runs[0].w = 100.0;
    let rule = VectorPath {
        index: 1,
        bounds: Some(Rect { x: 72.0, y: 500.0, w: 100.0, h: 0.6 }),
        segments: vec![PathSeg::Move(72.0, 500.0), PathSeg::Line(172.0, 500.0)],
        fill: None,
        stroke: Some([0.0, 0.0, 0.0]),
        stroke_width: 0.6,
        dash: Vec::new(),
    };
    let consumed = mark_underlines(&mut runs, &[rule]);
    assert!(!runs[0].underline);
    assert!(consumed.is_empty());
}

#[test]
fn mark_strikes_flags_a_run_crossed_at_mid_glyph() {
    let mut runs = vec![page_run("struck", 72.0, 700.0, 12.0)];
    runs[0].w = 100.0;
    let rule = VectorPath {
        index: 7,
        bounds: Some(Rect { x: 72.0, y: 705.1, w: 100.0, h: 0.6 }),
        segments: vec![PathSeg::Move(72.0, 705.4), PathSeg::Line(172.0, 705.4)],
        fill: None,
        stroke: Some([0.0, 0.0, 0.0]),
        stroke_width: 0.6,
        dash: Vec::new(),
    };
    let consumed = mark_strikes(&mut runs, &[rule]);
    assert!(runs[0].strike, "run crossed at mid-glyph is struck through");
    assert!(
        !runs[0].underline,
        "a strike rule must not also flag underline"
    );
    assert_eq!(
        consumed,
        vec![7],
        "the rule path is consumed, not drawn twice"
    );
}

#[test]
fn underline_and_strike_bands_are_disjoint() {
    let thin = |index: usize, y: f64| VectorPath {
        index,
        bounds: Some(Rect { x: 72.0, y: y - 0.3, w: 100.0, h: 0.6 }),
        segments: vec![PathSeg::Move(72.0, y), PathSeg::Line(172.0, y)],
        fill: None,
        stroke: Some([0.0, 0.0, 0.0]),
        stroke_width: 0.6,
        dash: Vec::new(),
    };
    let mut r1 = vec![page_run("x", 72.0, 700.0, 12.0)];
    r1[0].w = 100.0;
    let under = thin(1, 700.1);
    assert!(
        mark_strikes(&mut r1, &[under]).is_empty(),
        "strike ignores the underline band"
    );
    assert!(!r1[0].strike);

    let mut r2 = vec![page_run("x", 72.0, 700.0, 12.0)];
    r2[0].w = 100.0;
    let strike = thin(2, 705.4);
    assert!(
        mark_underlines(&mut r2, &[strike]).is_empty(),
        "underline ignores the strike band"
    );
    assert!(!r2[0].underline);
}

#[test]
fn caption_directly_below_an_image_is_lifted_out() {
    let mut tables = Tables::new();
    let image_frame = Rect { x: 50.0, y: 100.0, w: 200.0, h: 100.0 };
    let mut blocks = vec![
        caption_para_block(&mut tables, "Body paragraph far above", Rect { x: 50.0, y: 10.0, w: 400.0, h: 12.0 }),
        caption_para_block(&mut tables, "Figure 1: the diagram", Rect { x: 55.0, y: 205.0, w: 190.0, h: 12.0 }),
    ];
    let alt = caption_for(&mut blocks, &image_frame, &tables);
    assert_eq!(alt.as_deref(), Some("Figure 1: the diagram"));
    assert_eq!(blocks.len(), 1, "the caption paragraph is removed");
    assert_eq!(
        match &blocks[0].kind {
            BlockKind::Paragraph(p) => paragraph_text(p),
            _ => String::new(),
        },
        "Body paragraph far above",
        "the unrelated body paragraph stays"
    );
}

#[test]
fn full_width_paragraph_starting_with_table_is_not_a_caption() {
    let mut tables = Tables::new();
    let image_frame = Rect { x: 50.0, y: 100.0, w: 120.0, h: 80.0 };
    let mut blocks = vec![caption_para_block(&mut tables, "Table of historical events from 1900", Rect { x: 50.0, y: 185.0, w: 500.0, h: 12.0 })];
    let alt = caption_for(&mut blocks, &image_frame, &tables);
    assert!(alt.is_none(), "a full-measure paragraph is not a caption");
    assert_eq!(blocks.len(), 1, "nothing removed");
}

#[test]
fn distant_caption_is_not_associated() {
    let mut tables = Tables::new();
    let image_frame = Rect { x: 50.0, y: 100.0, w: 200.0, h: 100.0 };
    let mut blocks = vec![caption_para_block(&mut tables, "Figure 9: detached", Rect { x: 55.0, y: 400.0, w: 190.0, h: 12.0 })];
    assert!(caption_for(&mut blocks, &image_frame, &tables).is_none());
    assert_eq!(blocks.len(), 1);
}

#[test]
fn a_shape_between_two_paragraphs_is_interleaved_by_y() {

    let runs = vec![
        page_run("First paragraph line one.", 72.0, 700.0, 12.0),
        page_run("First paragraph line two.", 72.0, 684.0, 12.0),
        page_run("Second paragraph way down.", 72.0, 560.0, 12.0),
        page_run("Second paragraph continues.", 72.0, 544.0, 12.0),
    ];
    let box_shape = VectorPath {
        index: 0,
        bounds: Some(Rect { x: 72.0, y: 600.0, w: 120.0, h: 60.0 }),
        segments: vec![
            PathSeg::Move(72.0, 600.0),
            PathSeg::Line(192.0, 600.0),
            PathSeg::Line(192.0, 660.0),
            PathSeg::Line(72.0, 660.0),
            PathSeg::Close,
        ],
        fill: Some([0.8, 0.8, 0.8]),
        stroke: None,
        stroke_width: 0.0,
        dash: Vec::new(),
    };

    let mut ids = IdGen::default();
    let blocks = reconstruct_page(
        runs,
        std::slice::from_ref(&box_shape),
        &[],
        PageBox { x0: 0.0, y0: 0.0, height: 792.0 },
        &mut ids,
        &[],
        None,
    );

    let kinds: Vec<&str> = blocks
        .blocks
        .iter()
        .map(|b| match &b.kind {
            BlockKind::Paragraph(_) => "para",
            BlockKind::Shape(_) => "shape",
            BlockKind::Heading(_) => "heading",
            BlockKind::Image(_) => "image",
            _ => "other",
        })
        .collect();
    let shape_pos = kinds.iter().position(|&k| k == "shape");
    let first_para = kinds.iter().position(|&k| k == "para");
    let last_para = kinds.iter().rposition(|&k| k == "para");
    assert!(
        shape_pos.is_some(),
        "the filled box survives as a Shape, got {kinds:?}"
    );
    let (shape_pos, first_para, last_para) =
        (shape_pos.unwrap(), first_para.unwrap(), last_para.unwrap());
    assert!(
        first_para < shape_pos && shape_pos < last_para,
        "the shape is read between the two paragraphs, got {kinds:?}"
    );
}
