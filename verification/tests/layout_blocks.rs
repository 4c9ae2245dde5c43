use pdf_to_epub::layout::{blocks, classify, measure, Block, Kind, LayoutMetrics};
use pdf_to_epub::order::{percentile, rank};
use pdf_to_epub::pdf_model::{ExtractedDoc, FlowEvent, ImageAsset, PageFlow, TextRun};

/// A measure in points in the units of the library.
fn units(v: f64) -> i64 {
    (v * 1_000_000.0).round() as i64
}

/// A fraction of the page width in the parts of the library.
fn share(v: f64) -> i64 {
    (v * 1e15).round() as i64
}

/// Left edge of the text column used by the fixtures, as a page fraction.
const BODY_LEFT: f64 = 0.12;

/// A line starting at an explicit x, for exercising indent and right-alignment detection.
fn line_at(text: &str, y: f64, font_size: f64, x_start: f64) -> FlowEvent {
    FlowEvent::Line(TextRun {
        text: text.to_string(),
        y: units(y),
        font_size: units(font_size),
        x_start: share(x_start),
    })
}

/// An ordinary body line, starting flush at the column margin.
fn line(text: &str, y: f64, font_size: f64) -> FlowEvent {
    line_at(text, y, font_size, BODY_LEFT)
}

fn doc(pages: Vec<PageFlow>, images: Vec<ImageAsset>) -> ExtractedDoc {
    ExtractedDoc { pages, images }
}

/// A page whose events are keyed by the y that the line itself carries: the faithful shape for
/// anything that reasons about vertical spacing.
fn page_at(page_num: u32, events: Vec<FlowEvent>) -> PageFlow {
    let events = events
        .into_iter()
        .map(|e| {
            let y = match &e {
                FlowEvent::Line(run) => run.y,
                FlowEvent::Image(_) => 0,
            };
            (y, e)
        })
        .collect();
    PageFlow { page_num, events }
}

/// Geometry matching the reference book: margin at 0.126, indents at 0.155, a rock
/// steady 19.5pt between lines.
fn book_metrics() -> LayoutMetrics {
    LayoutMetrics {
        baseline_font: units(15.0),
        left_margin: share(BODY_LEFT),
        line_gap: units(19.5) as i128,
    }
}

const INDENT: f64 = BODY_LEFT + 0.03;

fn texts(blocks: &[Block]) -> Vec<String> {
    blocks
        .iter()
        .map(|b| match b {
            Block::Heading(t) => format!("h2:{t}"),
            Block::Paragraph(t) => format!("p:{t}"),
            Block::Caption(t) => format!("legenda:{t}"),
            Block::RightAligned(t) => format!("direita:{t}"),
            Block::Image(i) => format!("img:{i}"),
        })
        .collect()
}

/// Successive lines of one paragraph, 19.5pt apart at the left margin.
fn flowing(items: &[&str], first_y: f64) -> Vec<FlowEvent> {
    items
        .iter()
        .enumerate()
        .map(|(i, t)| line(t, first_y + i as f64 * 19.5, 15.0))
        .collect()
}

#[test]
fn the_baseline_font_is_the_median_line_size() {
    let d = doc(
        vec![page_at(1, vec![line("a", 0.0, 10.0), line("b", 20.0, 10.0), line("c", 40.0, 30.0)])],
        vec![],
    );
    assert_eq!(measure(&d).baseline_font, units(10.0));
}

#[test]
fn the_left_margin_is_read_off_the_lines() {
    let d = doc(
        vec![page_at(
            1,
            vec![
                line("na margem", 0.0, 15.0),
                line("na margem", 19.5, 15.0),
                line_at("recuada", 39.0, 15.0, INDENT),
            ],
        )],
        vec![],
    );
    assert_eq!(measure(&d).left_margin, share(BODY_LEFT));
}

#[test]
fn the_line_gap_is_the_usual_distance_between_lines() {
    let d = doc(vec![page_at(1, flowing(&["a", "b", "c", "d"], 0.0))], vec![]);
    assert_eq!(measure(&d).line_gap, units(19.5) as i128);
}

/// y restarts at the top of every page, so the jump across a page boundary is not a
/// line gap and must not drag the measurement around.
#[test]
fn gaps_across_a_page_boundary_are_not_counted() {
    let d = doc(
        vec![
            page_at(1, flowing(&["a", "b", "c"], 700.0)),
            page_at(2, flowing(&["d", "e", "f"], 60.0)),
        ],
        vec![],
    );
    assert_eq!(measure(&d).line_gap, units(19.5) as i128);
}

#[test]
fn measuring_an_empty_document_does_not_panic() {
    let m = measure(&doc(vec![], vec![]));
    assert!(m.baseline_font > 0 && m.line_gap > 0);
}

#[test]
fn lines_of_one_paragraph_are_joined_with_single_spaces() {
    let events = flowing(&["Primeira metade", "da frase."], 0.0);
    assert_eq!(texts(&blocks(&events, &book_metrics())), vec!["p:Primeira metade da frase."]);
}

#[test]
fn an_indented_line_opens_a_new_paragraph() {
    let events = vec![
        line("Fim do primeiro", 0.0, 15.0),
        line_at("Começo do segundo", 19.5, 15.0, INDENT),
        line("continuação dele.", 39.0, 15.0),
    ];
    assert_eq!(
        texts(&blocks(&events, &book_metrics())),
        vec!["p:Fim do primeiro", "p:Começo do segundo continuação dele."]
    );
}

/// The other convention: no indent, but extra air between paragraphs.
#[test]
fn extra_vertical_space_also_opens_a_new_paragraph() {
    let events = vec![
        line("Fim do primeiro", 0.0, 15.0),
        line("Começo do segundo", 19.5 * 2.0, 15.0),
        line("continuação dele.", 19.5 * 3.0, 15.0),
    ];
    assert_eq!(
        texts(&blocks(&events, &book_metrics())),
        vec!["p:Fim do primeiro", "p:Começo do segundo continuação dele."]
    );
}

/// A paragraph that runs across a page break must not be split just because y jumped
/// back to the top of the next page.
#[test]
fn a_paragraph_continues_across_a_page_break() {
    let events = vec![
        line("Fim da página um", 700.0, 15.0),
        line("topo da página dois", 60.0, 15.0),
    ];
    assert_eq!(
        texts(&blocks(&events, &book_metrics())),
        vec!["p:Fim da página um topo da página dois"]
    );
}

#[test]
fn a_bigger_short_line_becomes_a_subheading() {
    let events = vec![
        line("Fim do texto anterior", 0.0, 15.0),
        line("Um subtítulo", 19.5, 20.0),
        line("Texto seguinte.", 39.0, 15.0),
    ];
    assert_eq!(
        texts(&blocks(&events, &book_metrics())),
        vec!["p:Fim do texto anterior", "h2:Um subtítulo", "p:Texto seguinte."]
    );
}

/// Decorative separators are often set in a larger size than the body, but a run of
/// ornaments is not a heading — a heading has words in it.
#[test]
fn an_ornament_in_a_large_size_is_not_a_heading() {
    let events = vec![line("» » »", 0.0, 20.0)];
    assert_eq!(texts(&blocks(&events, &book_metrics())), vec!["p:» » »"]);
}

#[test]
fn a_subheading_wrapped_over_two_lines_stays_one_heading() {
    let events = vec![line("Um subtítulo que", 0.0, 20.0), line("continua aqui", 19.5, 20.0)];
    assert_eq!(
        texts(&blocks(&events, &book_metrics())),
        vec!["h2:Um subtítulo que continua aqui"]
    );
}

#[test]
fn a_smaller_line_right_after_an_image_is_a_caption() {
    let events = vec![
        FlowEvent::Image(3),
        line_at("Figura 5 — vendas por mês", 19.5, 12.0, 0.3),
        line("Texto normal seguindo.", 39.0, 15.0),
    ];
    assert_eq!(
        texts(&blocks(&events, &book_metrics())),
        vec!["img:3", "legenda:Figura 5 — vendas por mês", "p:Texto normal seguindo."]
    );
}

#[test]
fn a_smaller_line_far_from_any_image_stays_a_paragraph() {
    let events = vec![line("Uma nota de rodapé qualquer", 0.0, 12.0)];
    assert_eq!(
        texts(&blocks(&events, &book_metrics())),
        vec!["p:Uma nota de rodapé qualquer"]
    );
}

/// Epigraph attributions ("— Disraeli") sit flush right, far past any paragraph indent.
/// Rendering them as ordinary paragraphs loses the attribution entirely.
#[test]
fn a_line_starting_deep_into_the_page_is_flush_right() {
    let events = vec![
        line("Existem três tipos de mentiras.", 0.0, 15.0),
        line_at("— Disraeli", 19.5, 15.0, 0.62),
    ];
    assert_eq!(
        texts(&blocks(&events, &book_metrics())),
        vec!["p:Existem três tipos de mentiras.", "direita:— Disraeli"]
    );
}

#[test]
fn a_right_aligned_line_does_not_absorb_the_paragraph_after_it() {
    let events = vec![
        line_at("— Disraeli", 0.0, 15.0, 0.62),
        line("O pensamento estatístico um dia será", 19.5, 15.0),
    ];
    assert_eq!(
        texts(&blocks(&events, &book_metrics())),
        vec!["direita:— Disraeli", "p:O pensamento estatístico um dia será"]
    );
}

/// An ordinary paragraph indent is only a few percent of the page wide; it must never
/// be confused with a line genuinely set flush right.
#[test]
fn a_paragraph_indent_is_never_mistaken_for_right_alignment() {
    let events = vec![line_at("Começo de um parágrafo comum", 0.0, 15.0, INDENT)];
    assert_eq!(
        texts(&blocks(&events, &book_metrics())),
        vec!["p:Começo de um parágrafo comum"]
    );
}

#[test]
fn an_image_closes_the_paragraph_running_before_it() {
    let events = vec![
        line("Antes.", 0.0, 15.0),
        FlowEvent::Image(0),
        line("Depois.", 39.0, 15.0),
    ];
    assert_eq!(
        texts(&blocks(&events, &book_metrics())),
        vec!["p:Antes.", "img:0", "p:Depois."]
    );
}

#[test]
fn blank_lines_produce_no_block_at_all() {
    let events = vec![line("   ", 0.0, 15.0), line("\t", 19.5, 15.0)];
    assert!(blocks(&events, &book_metrics()).is_empty());
}

#[test]
fn reading_the_blocks_gives_back_the_lines_in_order() {
    let events = vec![
        line("  um ", 0.0, 15.0),
        line("dois", 19.5, 15.0),
        FlowEvent::Image(2),
        line("  ", 30.0, 15.0),
        line("Três", 39.0, 20.0),
        line_at("quatro", 58.5, 15.0, 0.5),
        FlowEvent::Image(0),
        line("cinco", 80.0, 12.0),
    ];
    assert_eq!(
        texts(&blocks(&events, &book_metrics())),
        vec!["p:um dois", "img:2", "h2:Três", "direita:quatro", "img:0", "legenda:cinco"]
    );
}

#[test]
fn the_thresholds_are_exact() {
    let m = book_metrics();
    let run = |size: f64, x: f64| TextRun {
        text: "palavras".to_string(),
        y: 0,
        font_size: units(size),
        x_start: share(x),
    };
    assert_eq!(classify(&run(16.5, 0.12), "palavras", &m, false), Kind::Heading);
    assert_eq!(classify(&run(16.499999, 0.12), "palavras", &m, false), Kind::Paragraph);
    assert_eq!(classify(&run(13.8, 0.12), "palavras", &m, true), Kind::Caption);
    assert_eq!(classify(&run(13.800001, 0.12), "palavras", &m, true), Kind::Paragraph);
    assert_eq!(classify(&run(15.0, 0.45), "palavras", &m, false), Kind::Paragraph);
    assert_eq!(classify(&run(15.0, 0.4500005), "palavras", &m, false), Kind::RightAligned);
}

#[test]
fn a_long_line_is_neither_a_heading_nor_flush_right() {
    let m = book_metrics();
    let long = "a".repeat(80);
    let run = |size: f64, x: f64| TextRun {
        text: long.clone(),
        y: 0,
        font_size: units(size),
        x_start: share(x),
    };
    assert_eq!(classify(&run(20.0, 0.12), &long, &m, false), Kind::Paragraph);
    assert_eq!(classify(&run(15.0, 0.6), &long, &m, false), Kind::Paragraph);
    assert_eq!(classify(&run(20.0, 0.12), &long[..79], &m, false), Kind::Heading);
    assert_eq!(classify(&run(15.0, 0.6), &long[..59], &m, false), Kind::RightAligned);
}

#[test]
fn a_document_without_lines_is_measured_by_the_default_ruler() {
    let m = measure(&doc(vec![page_at(1, vec![FlowEvent::Image(0), line(" ", 0.0, 9.0)])], vec![]));
    assert_eq!((m.baseline_font, m.left_margin, m.line_gap), (1_000_000, 0, 1_000_000));
}

#[test]
fn a_document_of_one_line_takes_its_size_for_the_gap() {
    let m = measure(&doc(vec![page_at(1, vec![line_at("só", 5.0, 11.5, 0.2)])], vec![]));
    assert_eq!((m.baseline_font, m.left_margin, m.line_gap), (11_500_000, share(0.2), 11_500_000));
    let flat = measure(&doc(vec![page_at(1, vec![line("x", 0.0, 0.0), line("y", 0.0, 0.0)])], vec![]));
    assert_eq!((flat.baseline_font, flat.line_gap), (1, 1));
}

#[test]
fn ranking_is_stable_and_percentiles_go_to_the_nearest_rank() {
    assert_eq!(rank(&vec![5, -2, 5, 1]), vec![(-2, 1), (1, 3), (5, 0), (5, 2)]);
    let values: Vec<i128> = vec![40, 10, 30, 20];
    assert_eq!(percentile(&values, 0), 10);
    assert_eq!(percentile(&values, 10), 10);
    assert_eq!(percentile(&values, 50), 30);
    assert_eq!(percentile(&values, 100), 40);
    assert_eq!(percentile(&Vec::new(), 50), 0);
}

#[test]
fn pictures_and_blank_lines_do_not_change_the_measures() {
    let text = || vec![line("um", 0.0, 12.0), line_at("dois", 20.0, 14.0, 0.3), line("três", 45.0, 12.0)];
    let mut more = text();
    more.insert(1, FlowEvent::Image(0));
    more.insert(2, line("  ", 500.0, 90.0));
    let plain = measure(&doc(vec![page_at(1, text())], vec![]));
    let mixed = measure(&doc(vec![page_at(1, more)], vec![]));
    assert_eq!(
        (plain.baseline_font, plain.left_margin, plain.line_gap),
        (mixed.baseline_font, mixed.left_margin, mixed.line_gap)
    );
}
