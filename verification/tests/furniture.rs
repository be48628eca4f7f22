//! Running headers and footers.
use pagecore::recon::flatten::{block_image_resources, block_text, heading_title};
use pagecore::recon::furniture::{
    block_signature, fold_text, in_band, lift_band, normalize_text, strip_running_furniture, Edge,
};
use pagecore::recon::model::{
    plain_style, Align, Block, BlockId, BlockKind, Frame, Heading, ImageRef, Inline, InlineRun,
    Page, Paragraph, ParagraphStyle, Rotation, Section,
};

const PAGE_HEIGHT: f64 = 842.0;

fn framed(y: f64, h: f64) -> Option<Frame> {
    let band = PAGE_HEIGHT * 0.12;
    let (top, bottom) = (y, y + h);
    Some(Frame {
        rect: 0,
        in_top_band: top >= -0.5 && bottom <= band + 0.5,
        in_bottom_band: top >= PAGE_HEIGHT - band - 0.5 && bottom <= PAGE_HEIGHT + 0.5,
        center_bucket: ((y + h / 2.0) / 2.0).round() as i64,
    })
}

fn para(text: &str) -> Paragraph {
    Paragraph {
        style: ParagraphStyle { align: Align::Left, spacing: 0 },
        runs: vec![Inline::Run(InlineRun {
            text: text.to_string(),
            style: plain_style(),
            source_index: None,
        })],
    }
}

fn para_block(id: u64, text: &str, _x: f64, y: f64, _w: f64, h: f64) -> Block {
    Block {
        id: BlockId(id),
        frame: framed(y, h),
        rotation: Rotation::D0,
        kind: BlockKind::Paragraph(para(text)),
    }
}

fn heading_block(id: u64, text: &str, _x: f64, y: f64, _w: f64, h: f64) -> Block {
    Block {
        id: BlockId(id),
        frame: framed(y, h),
        rotation: Rotation::D0,
        kind: BlockKind::Heading(Heading { level: 1, para: para(text) }),
    }
}

fn section_of(pages: Vec<Page>) -> Section {
    Section { has_height: true, header: None, footer: None, pages }
}

fn block_texts(blocks: &[Block]) -> Vec<String> {
    blocks.iter().map(block_text).collect()
}

#[test]
fn strips_running_header_and_page_number_footer() {
    let mut pages = Vec::new();
    for n in 1..=4u64 {
        let blocks = vec![
            para_block(n * 10, "Annual Report", 60.0, 20.0, 200.0, 14.0),
            para_block(
                n * 10 + 1,
                &format!("Body paragraph on page {n} with unique prose."),
                60.0,
                400.0,
                470.0,
                14.0,
            ),
            para_block(n * 10 + 2, &format!("Page {n}"), 280.0, 815.0, 40.0, 12.0),
        ];
        pages.push(Page { blocks, absolute: false });
    }
    let mut section = section_of(pages);

    strip_running_furniture(std::slice::from_mut(&mut section));

    let header = section.header.expect("header detected");
    assert_eq!(block_texts(&header), vec!["Annual Report"]);
    let footer = section.footer.expect("footer detected");
    assert_eq!(footer.len(), 1);
    assert!(
        block_text(&footer[0]).starts_with("Page "),
        "footer is the page-number furniture, got {:?}",
        block_text(&footer[0])
    );
    for (i, page) in section.pages.iter().enumerate() {
        assert_eq!(page.blocks.len(), 1, "page {i} keeps only its body block");
        let txt = block_text(&page.blocks[0]);
        assert!(txt.contains("Body paragraph"), "page {i} body preserved, got {txt:?}");
        assert!(
            !txt.contains("Annual Report") && !txt.starts_with("Page "),
            "page {i} furniture stripped"
        );
    }
}

#[test]
fn strips_repeated_footer_rule_shape() {
    let rule = |id: u64| Block {
        id: BlockId(id),
        frame: framed(810.0, 1.0),
        rotation: Rotation::D0,
        kind: BlockKind::Shape(0),
    };
    let mut pages = Vec::new();
    for n in 1..=3u64 {
        pages.push(Page {
            blocks: vec![
                para_block(
                    n * 10,
                    &format!("Distinct body text number {n}."),
                    60.0,
                    400.0,
                    470.0,
                    14.0,
                ),
                rule(n * 10 + 1),
            ],
            absolute: false,
        });
    }
    let mut section = section_of(pages);

    strip_running_furniture(std::slice::from_mut(&mut section));

    let footer = section.footer.expect("footer rule detected");
    assert_eq!(footer.len(), 1);
    assert!(matches!(footer[0].kind, BlockKind::Shape(_)));
    for page in &section.pages {
        assert_eq!(page.blocks.len(), 1);
        assert!(matches!(page.blocks[0].kind, BlockKind::Paragraph(_)));
    }
}

#[test]
fn single_page_is_untouched() {
    let section_blocks = || {
        vec![
            heading_block(1, "Real First-Page Title", 60.0, 20.0, 300.0, 24.0),
            para_block(2, "The only body paragraph.", 60.0, 400.0, 470.0, 14.0),
            para_block(3, "Page 1", 280.0, 815.0, 40.0, 12.0),
        ]
    };
    let mut section = section_of(vec![Page { blocks: section_blocks(), absolute: false }]);

    strip_running_furniture(std::slice::from_mut(&mut section));

    assert!(section.header.is_none(), "no header on a single page");
    assert!(section.footer.is_none(), "no footer on a single page");
    assert_eq!(section.pages[0].blocks, section_blocks(), "single-page body is unchanged");
}

#[test]
fn no_repeated_furniture_leaves_body_unchanged() {
    let blocks = |n: u64| {
        vec![
            heading_block(n * 10, &format!("Chapter {n} Title"), 60.0, 20.0, 300.0, 24.0),
            para_block(n * 10 + 1, &format!("Body of chapter {n}."), 60.0, 400.0, 470.0, 14.0),
        ]
    };
    let pages = (1..=3u64).map(|n| Page { blocks: blocks(n), absolute: false }).collect();
    let original: Vec<_> = (1..=3u64).map(blocks).collect();
    let mut section = section_of(pages);

    strip_running_furniture(std::slice::from_mut(&mut section));

    assert!(section.header.is_none());
    assert!(section.footer.is_none());
    for (i, page) in section.pages.iter().enumerate() {
        assert_eq!(page.blocks, original[i], "page {i} body unchanged");
    }
}

#[test]
fn page_numbers_normalize_to_one_signature() {
    assert_eq!(normalize_text("Page 1"), normalize_text("Page 23"));
    assert_eq!(normalize_text("Page 1"), "page #");
    assert_eq!(normalize_text("  3 "), "#");
    assert_ne!(normalize_text("Chapter 1 Title"), normalize_text("Summary"));
}

#[test]
fn digit_fold_guard_keeps_long_numbers_verbatim() {
    assert_eq!(normalize_text("Page 4567"), "page #");
    assert_eq!(normalize_text("Page 4567"), normalize_text("Page 12"));
    assert_eq!(normalize_text("Ref 12345678"), "ref 12345678");
    assert_ne!(normalize_text("Ref 12345678"), normalize_text("Ref 87654321"));
}

#[test]
fn strips_running_logo_image() {
    let logo = |id: u64| Block {
        id: BlockId(id),
        frame: framed(20.0, 40.0),
        rotation: Rotation::D0,
        kind: BlockKind::Image(ImageRef { resource: 0xABCD, alt: None }),
    };
    let mut pages = Vec::new();
    for n in 1..=3u64 {
        pages.push(Page {
            blocks: vec![
                logo(n * 10),
                para_block(
                    n * 10 + 1,
                    &format!("Unique body prose on page {n}."),
                    60.0,
                    400.0,
                    470.0,
                    14.0,
                ),
            ],
            absolute: false,
        });
    }
    let mut section = section_of(pages);
    strip_running_furniture(std::slice::from_mut(&mut section));

    let header = section.header.expect("logo header detected");
    assert_eq!(header.len(), 1, "one representative logo lifted");
    assert!(
        matches!(header[0].kind, BlockKind::Image(_)),
        "the lifted header is the logo image"
    );
    for (i, page) in section.pages.iter().enumerate() {
        assert_eq!(page.blocks.len(), 1, "page {i} keeps only its body block");
        assert!(block_text(&page.blocks[0]).contains("Unique body prose"));
    }
}

#[test]
fn numbers_in_long_titles_are_kept() {
    assert_eq!(normalize_text("Chapter 1 Title"), "chapter 1 title");
    assert_eq!(normalize_text("Abcdef 12"), "abcdef #", "six letters are few");
    assert_eq!(normalize_text("Abcdefg 12"), "abcdefg 12", "seven are not");
    assert_eq!(normalize_text("\u{e9}\u{e8}\u{ea} 7"), "\u{e9}\u{e8}\u{ea} #");
    assert_eq!(
        normalize_text("\u{e9}\u{e8}\u{ea}\u{eb}\u{e0}\u{e2}\u{f4} 7"),
        "\u{e9}\u{e8}\u{ea}\u{eb}\u{e0}\u{e2}\u{f4} 7",
        "letters beyond ASCII count too"
    );
}

#[test]
fn white_space_is_folded() {
    assert_eq!(fold_text("  A \t\n b  ", false), "a b");
    assert_eq!(fold_text("1234 12345", true), "# 12345");
    assert_eq!(fold_text("", true), "");
}

#[test]
fn half_of_the_pages_is_not_enough() {
    let mut pages = Vec::new();
    for n in 1..=4u64 {
        let head = if n <= 2 { "Running".to_string() } else { "Other".to_string() + &"x".repeat(n as usize) };
        pages.push(Page {
            blocks: vec![para_block(n, &head, 60.0, 20.0, 200.0, 14.0)],
            absolute: false,
        });
    }
    assert!(lift_band(&mut pages, Edge::Top).is_none());
    assert!(pages.iter().all(|p| p.blocks.len() == 1));
}

#[test]
fn a_second_pass_lifts_nothing_more() {
    let mut pages: Vec<Page> = (1..=3u64)
        .map(|n| Page {
            blocks: vec![para_block(n, "Report", 60.0, 20.0, 200.0, 14.0)],
            absolute: false,
        })
        .collect();
    assert!(lift_band(&mut pages, Edge::Top).is_some());
    assert!(lift_band(&mut pages, Edge::Top).is_none());
}

#[test]
fn a_section_is_stripped_once() {
    let pages = (1..=3u64)
        .map(|n| Page {
            blocks: vec![
                para_block(n, "Report", 60.0, 20.0, 200.0, 14.0),
                para_block(10 + n, &format!("Body of {n}"), 60.0, 300.0, 200.0, 14.0),
                para_block(20 + n, &format!("Page {n}"), 60.0, 810.0, 200.0, 14.0),
            ],
            absolute: false,
        })
        .collect();
    let mut section = section_of(pages);
    strip_running_furniture(std::slice::from_mut(&mut section));
    let once: Vec<Vec<String>> =
        section.pages.iter().map(|p| block_texts(&p.blocks)).collect();
    assert!(once.iter().all(|p| p.len() == 1));
    strip_running_furniture(std::slice::from_mut(&mut section));
    let twice: Vec<Vec<String>> =
        section.pages.iter().map(|p| block_texts(&p.blocks)).collect();
    assert_eq!(once, twice);
    assert_eq!(block_texts(section.header.as_ref().unwrap()), vec!["Report"]);
    assert_eq!(block_texts(section.footer.as_ref().unwrap()), vec!["Page 1"]);
}

#[test]
fn sections_without_a_height_stay() {
    let pages = (1..=3u64)
        .map(|n| Page {
            blocks: vec![para_block(n, "Report", 60.0, 20.0, 200.0, 14.0)],
            absolute: false,
        })
        .collect();
    let mut section = Section { has_height: false, header: None, footer: None, pages };
    strip_running_furniture(std::slice::from_mut(&mut section));
    assert!(section.header.is_none());
    assert!(section.pages.iter().all(|p| p.blocks.len() == 1));
}

#[test]
fn bands_and_signatures() {
    let top = para_block(1, "x", 0.0, 20.0, 10.0, 10.0);
    assert!(in_band(&top, Edge::Top));
    assert!(!in_band(&top, Edge::Bottom));
    let image = Block {
        id: BlockId(2),
        frame: framed(20.0, 40.0),
        rotation: Rotation::D0,
        kind: BlockKind::Image(ImageRef { resource: 77, alt: None }),
    };
    let spelled: String = block_signature(&image).expect("an image has a signature").iter().collect();
    assert_eq!(spelled, "image:77@20");
    let unframed = Block { frame: None, ..image };
    assert!(block_signature(&unframed).is_none());
    assert!(!in_band(&unframed, Edge::Top));
}

#[test]
fn nested_blocks_give_their_text_and_images() {
    let image = |resource: u64| ImageRef { resource, alt: None };
    let mut p = para("caption");
    p.runs.push(Inline::Link { target: 0, children: vec![Inline::Image(image(7))] });
    let inner = |kind: BlockKind| Block { id: BlockId(1), frame: None, rotation: Rotation::D0, kind };
    let nested = inner(BlockKind::TextBox(vec![
        inner(BlockKind::Image(image(5))),
        inner(BlockKind::Blockquote(vec![inner(BlockKind::Paragraph(p))])),
    ]));
    assert_eq!(block_image_resources(&nested), [5, 7]);
    assert_eq!(block_text(&nested).trim(), "caption");
    assert!(block_image_resources(&para_block(1, "text", 0.0, 0.0, 1.0, 1.0)).is_empty());
}

#[test]
fn a_heading_is_titled_by_its_text() {
    assert_eq!(heading_title(&Heading { level: 2, para: para("Chapter One") }), "Chapter One");
}
