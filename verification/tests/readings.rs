//! How neighbouring things are read: markers, runs, cells, rules and codes.
use pagecore::recon::decor::{mark_rules, rule_hits, Strip};
use pagecore::recon::flatten::paragraph_text;
use pagecore::recon::headings::{level_for, paragraph_bold};
use pagecore::recon::ids::IdGen;
use pagecore::recon::items::build_list;
use pagecore::recon::lines::{Line, LineRun};
use pagecore::recon::lists::{split_lists, Segment};
use pagecore::recon::markers::{
    classify_marker, marker_ordinal, read_markers, Marker, MarkerInfo,
};
use pagecore::recon::model::{
    plain_style, Align, BlockKind, BorderStyle, Frame, Inline, InlineRun, ListMarker, Paragraph,
    ParagraphStyle, Rotation, VAlign, BLACK, NO_LENGTH, ONE_POINT,
};
use pagecore::recon::paragraphs::{coalesce_runs, Fonts};
use pagecore::recon::select::{find_best, keep_apart};
use pagecore::recon::tables::{build_table, col_of, row_of, Grid, GridRun};
use pagecore::render::codes::codes;

fn infos(texts: &[&str]) -> Vec<Option<MarkerInfo>> {
    texts.iter().map(|t| classify_marker(t)).collect()
}

fn readings(texts: &[&str]) -> Vec<(Marker, Option<u32>)> {
    let levels = vec![0u8; texts.len()];
    read_markers(&infos(texts), &levels, 0, texts.len())
        .into_iter()
        .map(|i| i.expect("a marker"))
        .map(|i| (i.marker, i.ordinal))
        .collect()
}

fn frame() -> Frame {
    Frame { rect: 0, in_top_band: false, in_bottom_band: false, center_bucket: 0 }
}

fn line(text: &str) -> Line {
    Line {
        runs: vec![LineRun {
            text: text.to_string(),
            style: plain_style(),
            source_index: None,
            vertical_align: VAlign::Baseline,
            link: None,
            follows: Vec::new(),
        }],
        rotation: Rotation::D0,
    }
}

#[test]
fn a_first_letter_before_a_numeral_is_a_numeral() {
    assert_eq!(
        readings(&["i. one", "ii. two", "iii. three"]),
        vec![
            (Marker::LowerRoman, Some(1)),
            (Marker::LowerRoman, Some(2)),
            (Marker::LowerRoman, Some(3)),
        ]
    );
    assert_eq!(
        readings(&["iv. four", "v. five", "vi. six"]),
        vec![
            (Marker::LowerRoman, Some(4)),
            (Marker::LowerRoman, Some(5)),
            (Marker::LowerRoman, Some(6)),
        ]
    );
}

#[test]
fn letters_among_letters_stay_letters() {
    assert_eq!(
        readings(&["h. one", "i. two", "j. three"]),
        vec![
            (Marker::LowerAlpha, Some(8)),
            (Marker::LowerAlpha, Some(9)),
            (Marker::LowerAlpha, Some(10)),
        ]
    );
    assert_eq!(readings(&["i. alone"]), vec![(Marker::LowerAlpha, Some(9))]);
}

#[test]
fn a_letter_that_goes_on_stays_in_its_list() {
    let texts = ["a. one", "b. two", "c. three", "ii. four"];
    let hangs: Vec<Vec<bool>> = (0..4).map(|k| vec![false; k]).collect();
    let segments = split_lists(&infos(&texts), &hangs, &[0; 4]);
    assert_eq!(segments, vec![Segment::List(0, 3), Segment::Prose(3, 4)]);
    let alone = readings(&["c. one", "ii. two"]);
    assert_eq!(alone[0], (Marker::LowerAlpha, Some(3)));
    let other = readings(&["i) one", "ii. two"]);
    assert_eq!(other[0], (Marker::LowerAlpha, Some(9)));
    let after = readings(&["h. one", "i. two", "ii. three"]);
    assert_eq!(after[1], (Marker::LowerAlpha, Some(9)));
}

#[test]
fn labels_of_any_kind_are_valued() {
    let value = |m: Marker, s: &str| marker_ordinal(&m, &s.chars().collect());
    assert_eq!(value(Marker::Decimal, "012"), Some(12));
    assert_eq!(value(Marker::Decimal, "+12"), Some(12));
    assert_eq!(value(Marker::Decimal, "4294967295"), Some(u32::MAX));
    assert_eq!(value(Marker::Decimal, "4294967296"), None);
    assert_eq!(value(Marker::Decimal, "1a"), None);
    assert_eq!(value(Marker::Decimal, "+"), None);
    assert_eq!(value(Marker::Decimal, ""), None);
    assert_eq!(value(Marker::UpperAlpha, "C"), Some(3));
    assert_eq!(value(Marker::LowerAlpha, "7"), None);
    assert_eq!(value(Marker::LowerAlpha, ""), None);
    assert_eq!(value(Marker::UpperRoman, "IX"), Some(9));
    assert_eq!(value(Marker::Bullet('*'), "x"), None);
}

#[test]
fn roman_items_are_one_list() {
    let texts = ["i. one", "ii. two", "iii. three"];
    let hangs: Vec<Vec<bool>> = (0..3).map(|k| vec![false; k]).collect();
    let segments = split_lists(&infos(&texts), &hangs, &[0, 0, 0]);
    assert_eq!(segments, vec![Segment::List(0, 3)]);
    let lines: Vec<Line> = texts.iter().map(|t| line(t)).collect();
    let mut ids = IdGen::default();
    let block = build_list(&lines, &[0, 0, 0], frame(), Rotation::D0, &mut ids).expect("a list");
    let BlockKind::List(list) = block.kind else { panic!("a list") };
    assert_eq!(list.marker, ListMarker::LowerRoman);
    assert!(list.ordered);
    assert_eq!(list.items.len(), 3);
}

fn run(text: &str, source_index: Option<usize>) -> Inline {
    Inline::Run(InlineRun { text: text.to_string(), style: plain_style(), source_index })
}

#[test]
fn runs_of_one_style_join_whatever_their_sources() {
    let fonts = Fonts { close: vec![vec![true]] };
    let runs = vec![run("a", Some(3)), run(" ", None), run("b", Some(4))];
    assert_eq!(coalesce_runs(&fonts, runs), vec![run("a b", Some(3))]);
    let runs = vec![run("x", None), run("y", Some(7))];
    assert_eq!(coalesce_runs(&fonts, runs), vec![run("xy", Some(7))]);
}

#[test]
fn links_hold_text_too() {
    let mut bold = plain_style();
    bold.bold = true;
    let strong = |text: &str| {
        Inline::Run(InlineRun { text: text.to_string(), style: bold, source_index: None })
    };
    let link = |children: Vec<Inline>| Inline::Link { target: 1, children };
    let para = |runs: Vec<Inline>| Paragraph {
        style: ParagraphStyle { align: Align::Left, spacing: 0 },
        runs,
    };
    let inner = vec![run("b", None), Inline::LineBreak, link(vec![run("c", None)])];
    let p = para(vec![strong(" a "), link(inner), Inline::LineBreak]);
    assert_eq!(paragraph_text(&p), "a b c");
    assert!(!paragraph_bold(&p));
    assert!(paragraph_bold(&para(vec![strong("a"), link(vec![strong("b")])])));
    assert!(paragraph_bold(&para(vec![link(vec![strong("b")])])));
    assert!(!paragraph_bold(&para(vec![Inline::LineBreak])));
}

#[test]
fn col_and_row_lookup_are_correct() {
    let cols = vec![50, 150, 250];
    assert_eq!(col_of(&cols, 60), Some(0));
    assert_eq!(col_of(&cols, 160), Some(1));
    assert_eq!(col_of(&cols, 500), None);
    let rows = vec![140, 120, 100];
    assert_eq!(row_of(&rows, 130), Some(0));
    assert_eq!(row_of(&rows, 110), Some(1));
    assert_eq!(row_of(&rows, 10), None);
}

#[test]
fn an_edge_belongs_to_what_it_opens() {
    let cols = vec![50, 150, 250];
    assert_eq!(col_of(&cols, 150), Some(1));
    assert_eq!(col_of(&cols, 149), Some(0));
    assert_eq!(col_of(&cols, 250), None);
    assert_eq!(col_of(&cols, 49), None);
    let rows = vec![140, 120, 100];
    assert_eq!(row_of(&rows, 120), Some(1));
    assert_eq!(row_of(&rows, 140), Some(0));
    assert_eq!(row_of(&rows, 100), None);
    assert_eq!(col_of(&[7], 7), None);
    assert_eq!(row_of(&[], 7), None);
}

fn grid(ruled: bool) -> Grid {
    Grid {
        rows: 2,
        cols: 2,
        ruled,
        left_rules: vec![vec![true; 2]; 2],
        top_rules: vec![vec![true; 2]; 2],
        col_align: vec![Align::Left, Align::Right],
        col_widths: vec![5, 6],
        row_heights: vec![7, 8],
    }
}

#[test]
fn tables_keep_widths_heights_and_borders() {
    for (ruled, width) in [(true, ONE_POINT), (false, NO_LENGTH)] {
        let runs = vec![GridRun {
            text: "x".to_string(),
            style: plain_style(),
            source_index: Some(2),
            cell: Some((1, 0)),
        }];
        let mut ids = IdGen::default();
        let block = build_table(&grid(ruled), true, &runs, frame(), &mut ids).expect("a table");
        let BlockKind::Table(t) = block.kind else { panic!("a table") };
        assert_eq!(t.col_widths, vec![5, 6]);
        assert_eq!(t.rows[0].height, Some(7));
        assert_eq!(t.rows[1].height, Some(8));
        assert_eq!(t.border, BorderStyle { width, color: BLACK });
        assert_eq!(t.rows[1].cells.len(), 2);
    }
}

#[test]
fn a_rule_lies_in_one_strip_of_a_run() {
    let under = [Strip { lo: -30, hi: 22 }];
    let strike = [Strip { lo: 35, hi: 58 }];
    let covers = vec![vec![true, true, true, false]];
    let heights = [22, 35, 28, 40];
    let a = rule_hits(&under, &covers, &heights);
    let b = rule_hits(&strike, &covers, &heights);
    assert_eq!(a, vec![vec![true, false, false, false]]);
    assert_eq!(b, vec![vec![false, true, false, false]]);
    assert_eq!(mark_rules(&a, &[4, 5, 6, 7]), (vec![true], vec![4]));
}

#[test]
fn larger_sizes_have_no_higher_levels() {
    let present = [24i64, 18, 14];
    let mut last = 6u8;
    for size in 10i64..30 {
        let distances: Vec<i64> = present.iter().map(|p| (p - size).abs()).collect();
        let level = level_for(&distances);
        assert!(level <= last);
        last = level;
    }
    assert_eq!(last, 1);
}

#[test]
fn the_first_of_the_best_is_chosen() {
    assert_eq!(find_best(&[None, Some(4), Some(2), Some(2)], false), Some(2));
    assert_eq!(find_best(&[None, Some(4), Some(2), Some(4)], true), Some(1));
    assert_eq!(find_best(&[None, None], true), None);
}

#[test]
fn those_kept_stand_apart() {
    let at = [0i64, 3, 4, 9];
    let close: Vec<Vec<bool>> =
        at.iter().map(|a| at.iter().map(|b| (a - b).abs() < 4).collect()).collect();
    assert_eq!(keep_apart(&[0, 1, 2, 3], &close), vec![0, 2, 3]);
}

#[test]
fn codes_of_joined_strings_are_joined() {
    let whole = codes(&[1, 2, 3, 4, 5], true);
    let mut parts = codes(&[1, 2], true);
    parts.extend(codes(&[3, 4, 5], true));
    assert_eq!(whole.len(), 3);
    for (a, b) in whole.iter().zip(&parts) {
        assert_eq!((a.code, a.bytes), (b.code, b.bytes));
    }
}

#[test]
fn identities_are_counted_before_they_are_minted() {
    let mut ids = IdGen::default();
    assert!(ids.has_room(1000));
    let a = ids.mint();
    let b = ids.mint();
    assert_eq!((a.0, b.0), (0, 1));
}
