//! Outlines, captions, markers and identifiers.
use pagecore::recon::captions::is_caption_text;
use pagecore::recon::decor::mark_rules;
use pagecore::recon::detect::{
    cluster_1d, detect_columns, free_lines, order_columns, tabular_rows,
};
use pagecore::recon::headings::{clamp_level, level_for};
use pagecore::recon::ids::{make_pending, pending_line, IdGen};
use pagecore::recon::lines::host_line;
use pagecore::recon::markers::{
    classify_marker, detect_marker, is_marker_only_run, is_ordinal_sequence,
    marker_token_len_chars, strip_marker, Delim, Marker,
};
use pagecore::recon::model::BlockId;
use pagecore::recon::numerals::{roman_numeral, roman_value};
use pagecore::recon::order::{comes_before, stable_order, Rank};
use pagecore::recon::outline::{fold_outline, FlatOutline};
use pagecore::recon::page::{surviving_paths, walk, Placed, Step, TablePlan};
use pagecore::recon::model::Align;
use pagecore::recon::plan::{
    decimal_sep, passes_table_sanity, Candidate, Kind, Nearness, Views,
};
use pagecore::recon::sorted::distinct_of;
use pagecore::recon::text::trim_str;

fn flat(title: &str, level: usize, page: usize) -> FlatOutline {
    FlatOutline { title: title.to_string(), level, page }
}

#[test]
fn fold_outline_builds_a_nested_tree() {
    let tree = fold_outline(&[
        flat("Chapter 1", 0, 0),
        flat("Section 1.1", 1, 1),
        flat("Section 1.2", 1, 2),
        flat("Sub 1.2.1", 2, 2),
        flat("Chapter 2", 0, 5),
    ]);
    assert_eq!(tree.len(), 2, "two top-level chapters");
    assert_eq!(tree[0].title, "Chapter 1");
    assert_eq!(tree[0].page, 0);
    assert_eq!(tree[0].children.len(), 2, "chapter 1 has two sections");
    assert_eq!(tree[0].children[1].title, "Section 1.2");
    assert_eq!(tree[0].children[1].children.len(), 1, "section 1.2 nests a subsection");
    assert_eq!(tree[0].children[1].children[0].title, "Sub 1.2.1");
    assert_eq!(tree[1].title, "Chapter 2");
    assert_eq!(tree[1].page, 5);
    assert!(tree[1].children.is_empty());
}

#[test]
fn fold_outline_keeps_a_level_jump_instead_of_dropping_it() {
    let tree = fold_outline(&[flat("Top", 0, 0), flat("Way Deep", 5, 1)]);
    assert_eq!(tree.len(), 1);
    assert_eq!(tree[0].children.len(), 1, "deep entry attaches, not dropped");
    assert_eq!(tree[0].children[0].title, "Way Deep");
}

#[test]
fn fold_outline_empty_is_empty() {
    assert!(fold_outline(&[]).is_empty());
}

#[test]
fn titles_of_one_level_are_siblings_after_a_jump() {
    let tree = fold_outline(&[flat("Top", 0, 0), flat("First", 2, 1), flat("Second", 2, 2)]);
    assert_eq!(tree.len(), 1);
    let titles: Vec<&str> = tree[0].children.iter().map(|n| n.title.as_str()).collect();
    assert_eq!(titles, vec!["First", "Second"]);
}

#[test]
fn a_title_without_a_lower_one_before_it_goes_to_the_top() {
    let tree = fold_outline(&[flat("Deep", 2, 0), flat("Less deep", 1, 1), flat("Below", 3, 2)]);
    assert_eq!(tree.len(), 2);
    assert_eq!(tree[1].children[0].title, "Below");
}

#[test]
fn caption_cue_detection_is_conservative() {
    assert!(is_caption_text("Figure 3: a flowchart"));
    assert!(is_caption_text("  Fig. 2 \u{2014} overview"));
    assert!(is_caption_text("Table 1"));
    assert!(is_caption_text("Tableau 4 : r\u{e9}sultats"));
    assert!(is_caption_text("Illustration 7"));
    assert!(!is_caption_text("Imagery of the coast"));
    assert!(!is_caption_text("Tabletop layout"));
    assert!(!is_caption_text("Ordinary body sentence."));
    assert!(!is_caption_text(""));
}

#[test]
fn detects_bullets_and_ordinals() {
    assert_eq!(detect_marker("\u{2022} item"), Some(Marker::Bullet('\u{2022}')));
    assert_eq!(detect_marker("- item"), Some(Marker::Bullet('-')));
    assert_eq!(detect_marker("1. item"), Some(Marker::Decimal));
    assert_eq!(detect_marker("2) item"), Some(Marker::Decimal));
    assert_eq!(detect_marker("a. item"), Some(Marker::LowerAlpha));
    assert_eq!(detect_marker("IV. item"), Some(Marker::UpperRoman));
    assert_eq!(detect_marker("plain text"), None);
    assert_eq!(detect_marker("e-mail address"), None);
}

#[test]
fn strip_marker_removes_leading_token() {
    assert_eq!(strip_marker("\u{2022} First point"), "First point");
    assert_eq!(strip_marker("1. First point"), "First point");
    assert_eq!(strip_marker("plain"), "plain");
}

#[test]
fn markers_have_delimiters_and_values() {
    let info = classify_marker("12. twelve").expect("a marker");
    assert_eq!(info.delim, Some(Delim::Dot));
    assert_eq!(info.ordinal, Some(12));
    let info = classify_marker("c) third").expect("a marker");
    assert_eq!(info.marker, Marker::LowerAlpha);
    assert_eq!(info.delim, Some(Delim::Paren));
    assert_eq!(info.ordinal, Some(3));
    let info = classify_marker("xiv. fourteenth").expect("a marker");
    assert_eq!(info.marker, Marker::LowerRoman);
    assert_eq!(info.ordinal, Some(14));
    let info = classify_marker("- dash").expect("a marker");
    assert_eq!(info.delim, None);
    assert_eq!(info.ordinal, None);
    let big = classify_marker("99999999999. too big").expect("still a marker");
    assert_eq!(big.ordinal, None);
    assert_eq!(classify_marker("1.5 is a number"), None);
}

#[test]
fn roman_numerals() {
    assert_eq!(roman_value("mcmxciv"), Some(1994));
    assert_eq!(roman_value("iiii"), Some(4));
    assert_eq!(roman_value("abc"), None);
    assert_eq!(roman_value(""), None);
    for (v, s) in [(1, "i"), (4, "iv"), (49, "xlix"), (1994, "mcmxciv"), (3888, "mmmdccclxxxviii")] {
        let spelled: String = roman_numeral(v).into_iter().collect();
        assert_eq!(spelled, s);
        assert_eq!(roman_value(s), Some(v));
    }
}

#[test]
fn malformed_numerals_have_no_value() {
    for (text, ordinal) in
        [("iv. x", Some(4)), ("iiii. x", None), ("vx) x", None), ("MCM. x", Some(1900))]
    {
        assert_eq!(classify_marker(text).expect("a marker").ordinal, ordinal);
    }
}

#[test]
fn marker_tokens() {
    assert_eq!(marker_token_len_chars("12) item"), 3);
    assert_eq!(marker_token_len_chars("\u{2022}item"), 1);
    assert_eq!(marker_token_len_chars("item"), 0);
    assert!(is_marker_only_run("1."));
    assert!(is_marker_only_run("1.  "));
    assert!(!is_marker_only_run("1. text"));
    assert!(!is_marker_only_run("text"));
}

#[test]
fn ordinal_sequences() {
    assert!(is_ordinal_sequence(&[1, 2, 4], 3));
    assert!(!is_ordinal_sequence(&[1, 4], 2));
    assert!(!is_ordinal_sequence(&[5, 6], 2));
    assert!(is_ordinal_sequence(&[5, 6, 7], 3));
    assert!(!is_ordinal_sequence(&[5, 6, 8], 3));
    assert!(!is_ordinal_sequence(&[1, 1], 2));
    assert!(!is_ordinal_sequence(&[1], 1));
    assert!(!is_ordinal_sequence(&[1, 2], 1));
}

#[test]
fn identifiers_count_up_and_are_no_placeholders() {
    let mut ids = IdGen::default();
    assert_eq!(ids.mint(), BlockId(0));
    assert_eq!(ids.mint(), BlockId(1));
    let mut block = make_pending(41);
    assert_eq!(pending_line(&block), Some(41));
    block.id = ids.mint();
    assert_eq!(pending_line(&block), None);
}

#[test]
fn levels_follow_the_nearest_size() {
    assert_eq!(level_for(&[]), 1);
    assert_eq!(level_for(&[5, 0, 3]), 2);
    assert_eq!(level_for(&[4, 4]), 1, "the first of two");
    assert_eq!(level_for(&[9, 8, 7, 6, 5, 4, 3, 2]), 6);
    assert_eq!(clamp_level(0), 1);
    assert_eq!(clamp_level(6), 6);
    assert_eq!(clamp_level(7), 6);
}

#[test]
fn the_strongest_overlap_hosts_a_fragment() {
    assert_eq!(host_line(&[None, Some(3), Some(7), Some(7)]), Some(2));
    assert_eq!(host_line(&[None, None]), None);
    assert_eq!(host_line(&[]), None);
}

#[test]
fn rules_mark_runs_once() {
    let hits = vec![vec![false, true], vec![true, true], vec![false, false]];
    let (marks, used) = mark_rules(&hits, &[9, 4]);
    assert_eq!(marks, vec![true, true, false]);
    assert_eq!(used, vec![4, 9]);
}

#[test]
fn ordering_is_stable() {
    let at = |region: usize, band: usize, down: i64| Rank { last: false, region, band, down };
    let keys = [
        at(1, 0, 0),
        at(0, 1, 5),
        at(0, 0, 9),
        Rank { last: true, region: 0, band: 0, down: 0 },
        at(0, 1, 5),
        at(0, 0, 2),
    ];
    assert_eq!(stable_order(&keys), vec![5, 2, 1, 4, 0, 3]);
    assert!(comes_before(&keys[1], &keys[0]));
    assert!(!comes_before(&keys[1], &keys[4]));
}

#[test]
fn tables_stand_where_they_start() {
    let plan = TablePlan {
        tables: vec![Placed { start_line: 1, covered_lines: vec![1, 3], used_paths: vec![8] }],
    };
    assert_eq!(
        walk(&plan, &[0, 1, 2, 3]),
        vec![Step::Line(0), Step::Table(0), Step::Line(2)]
    );
    assert_eq!(plan.take_if_starts_at(1), Some(0));
    assert_eq!(plan.take_if_starts_at(3), None);
    assert!(plan.is_consumed(3));
    assert!(!plan.is_consumed(1));
    assert!(plan.uses_path(8));
    let paths = [(8, true), (5, true), (6, false), (7, true)];
    assert_eq!(surviving_paths(&plan, &vec![5], &paths), vec![3]);
}

#[test]
fn grids_of_forms_are_no_tables() {
    let filled: Vec<Option<(usize, usize)>> = (0..7).map(|k| Some((k / 5, k % 5))).collect();
    assert!(passes_table_sanity(5, 5, &filled), "28 of 100");
    assert!(!passes_table_sanity(5, 5, &filled[..6]));
    assert!(!passes_table_sanity(1, 15, &[Some((0, 0))]));
    assert!(!passes_table_sanity(0, 3, &[]));
    let all: Vec<Option<(usize, usize)>> = (0..168).map(|k| Some((k / 14, k % 14))).collect();
    assert!(!passes_table_sanity(12, 14, &all), "too many cells");
}

#[test]
fn decimal_separators() {
    assert_eq!(decimal_sep(" 12,00 \u{20ac}"), Some((2, 7)));
    assert_eq!(decimal_sep("1.234,5"), Some((5, 7)));
    assert_eq!(decimal_sep("3.14"), Some((1, 4)));
    assert_eq!(decimal_sep("1.234.567"), None);
    assert_eq!(decimal_sep(",50"), None);
    assert_eq!(decimal_sep("1,2345"), None);
    assert_eq!(decimal_sep("12"), None);
}

#[test]
fn distinct_numbers_increase() {
    assert_eq!(distinct_of(&vec![5, 1, 5, 3, 1]), vec![1, 3, 5]);
}

#[test]
fn trimming_takes_white_space_of_all_kinds() {
    assert_eq!(trim_str("\u{a0}\u{2003} a b\t\u{3000}"), "a b");
    assert_eq!(trim_str(" \n "), "");
}

#[test]
fn clusters_part_where_values_lie_apart() {
    assert!(cluster_1d(0, &[]).is_empty());
    assert_eq!(cluster_1d(1, &[]), [(0, 1)]);
    assert_eq!(cluster_1d(5, &[true, false, false, true]), [(0, 2), (2, 3), (3, 5)]);
}

/// A run at even distance of the candidates it reaches.
fn even_view(reach: Vec<bool>) -> Views {
    let n = reach.len();
    Views {
        reach,
        nearness: (0..n).map(|k| vec![Nearness::Even; k]).collect(),
        tighter: (0..n).map(|k| vec![false; k]).collect(),
    }
}

#[test]
fn runs_choose_one_column_each() {
    let cands = [
        Candidate { kind: Kind::Left, support: 2 },
        Candidate { kind: Kind::Right, support: 3 },
        Candidate { kind: Kind::Decimal, support: 2 },
    ];
    let views = vec![
        even_view(vec![true, false, false]),
        even_view(vec![true, true, false]),
        even_view(vec![false, true, true]),
        even_view(vec![true, true, true]),
        even_view(vec![true, false, false]),
        even_view(vec![false, true, false]),
    ];
    let won = detect_columns(&cands, &views, &[false, false, true, true, false, false]);
    let found: Vec<(usize, Align, Vec<usize>)> =
        won.into_iter().map(|w| (w.candidate, w.align, w.runs)).collect();
    assert_eq!(
        found,
        [
            (0, Align::Left, vec![0, 4]),
            (1, Align::Right, vec![1, 5]),
            (2, Align::Right, vec![2, 3]),
        ],
    );
    // A lone run anchors no column.
    assert!(detect_columns(&cands, &vec![even_view(vec![true, false, false])], &[false]).is_empty());
}

#[test]
fn columns_run_from_left_to_right_and_stand_apart() {
    let apart = vec![vec![false; 3]; 3];
    assert_eq!(order_columns(&[30, 10, 20], &apart), [1, 2, 0]);
    let mut close = apart;
    close[2][1] = true;
    assert_eq!(order_columns(&[30, 10, 20], &close), [1, 0]);
}

#[test]
fn rows_span_columns_and_tables_claim_lines() {
    let hits = vec![vec![Some(0), None], vec![Some(0), Some(1)], vec![Some(1), Some(1)]];
    assert_eq!(tabular_rows(&hits), [1]);
    let plan = TablePlan {
        tables: vec![Placed { start_line: 1, covered_lines: vec![1, 3], used_paths: Vec::new() }],
    };
    assert_eq!(free_lines(&plan, 5), [0, 2, 4]);
}
