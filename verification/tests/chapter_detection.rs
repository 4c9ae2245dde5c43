use pdf_to_epub::chapters::{
    body_font_baseline, detect_chapters, find_numbered_titles, line_texts, split_into_chapters, Chapter,
};
use pdf_to_epub::pdf_model::{ExtractedDoc, FlowEvent, ImageAsset, PageFlow, TextRun};

/// A measure in points in the units of the library.
fn units(v: f64) -> i64 {
    (v * 1_000_000.0).round() as i64
}

/// A fraction of the page width in the parts of the library.
fn share(v: f64) -> i64 {
    (v * 1e15).round() as i64
}

/// Left edge of the text column used by the fixtures, as a page fraction.
const BODY_LEFT: f64 = 0.12;

/// A line starting at an explicit x, for exercising indent and right-alignment detection.
fn line_at(text: &str, y: f64, font_size: f64, x_start: f64) -> FlowEvent {
    FlowEvent::Line(TextRun {
        text: text.to_string(),
        y: units(y),
        font_size: units(font_size),
        x_start: share(x_start),
    })
}

/// An ordinary body line, starting flush at the column margin.
fn line(text: &str, y: f64, font_size: f64) -> FlowEvent {
    line_at(text, y, font_size, BODY_LEFT)
}

fn doc(pages: Vec<PageFlow>, images: Vec<ImageAsset>) -> ExtractedDoc {
    ExtractedDoc { pages, images }
}

/// A page whose events are laid out top-to-bottom in the order given.
fn page(page_num: u32, events: Vec<FlowEvent>) -> PageFlow {
    let events = events.into_iter().enumerate().map(|(i, e)| (units(i as f64 * 10.0), e)).collect();
    PageFlow { page_num, events }
}

fn detect(doc: &ExtractedDoc) -> Vec<Chapter> {
    let mut log = Vec::new();
    detect_chapters(doc, &mut log)
}

fn titles(chapters: &[Chapter]) -> Vec<&str> {
    chapters.iter().map(|c| c.title.as_str()).collect()
}

fn texts(chapter: &Chapter) -> Vec<&str> {
    chapter
        .events
        .iter()
        .filter_map(|e| match e {
            FlowEvent::Line(run) => Some(run.text.as_str()),
            FlowEvent::Image(_) => None,
        })
        .collect()
}

#[test]
fn text_with_no_heading_becomes_a_single_introduction() {
    let d = doc(
        vec![page(1, vec![line("Um parágrafo.", 0.0, 10.0), line("Outro.", 10.0, 10.0)])],
        vec![],
    );
    let chapters = detect(&d);

    assert_eq!(titles(&chapters), vec!["Introdução"]);
    assert_eq!(texts(&chapters[0]), vec!["Um parágrafo.", "Outro."]);
}

#[test]
fn a_chapter_pattern_starts_a_new_chapter() {
    let d = doc(
        vec![page(
            1,
            vec![
                line("Abertura.", 0.0, 10.0),
                line("Capítulo 1", 10.0, 10.0),
                line("Corpo do capítulo.", 20.0, 10.0),
            ],
        )],
        vec![],
    );
    let chapters = detect(&d);

    assert_eq!(titles(&chapters), vec!["Introdução", "Capítulo 1"]);
    assert_eq!(texts(&chapters[0]), vec!["Abertura."]);
    assert_eq!(texts(&chapters[1]), vec!["Corpo do capítulo."]);
}

#[test]
fn the_chapter_pattern_ignores_case_and_language() {
    for heading in ["CAPÍTULO 2", "capitulo 3", "Chapter 4", "PARTE 5", "part 6"] {
        let d = doc(
            vec![page(
                1,
                vec![
                    line("Antes.", 0.0, 10.0),
                    line(heading, 10.0, 10.0),
                    line("Depois.", 20.0, 10.0),
                ],
            )],
            vec![],
        );
        let chapters = detect(&d);
        assert_eq!(titles(&chapters), vec!["Introdução", heading], "falhou em {heading}");
    }
}

#[test]
fn a_jump_in_font_size_also_starts_a_chapter() {
    let d = doc(
        vec![page(
            1,
            vec![
                line("Corpo.", 0.0, 10.0),
                line("Um Título Sem Padrão", 10.0, 20.0),
                line("Mais corpo.", 20.0, 10.0),
            ],
        )],
        vec![],
    );
    assert_eq!(
        titles(&detect(&d)),
        vec!["Introdução", "Um Título Sem Padrão"]
    );
}

#[test]
fn a_long_line_in_a_big_font_is_a_paragraph_not_a_title() {
    let long = "a".repeat(120);
    let d = doc(
        vec![page(1, vec![line("Corpo.", 0.0, 10.0), line(&long, 10.0, 20.0)])],
        vec![],
    );
    assert_eq!(titles(&detect(&d)), vec!["Introdução"]);
}

#[test]
fn a_wrapped_title_is_merged_into_one_chapter() {
    let d = doc(
        vec![page(
            1,
            vec![
                line("Corpo antes.", 0.0, 10.0),
                line("Mais corpo antes.", 10.0, 10.0),
                line("CAPÍTULO 1", 20.0, 20.0),
                line("A amostra com", 30.0, 20.0),
                line("tendenciosidade embutida", 40.0, 20.0),
                line("Texto do capítulo.", 50.0, 10.0),
                line("Mais texto do capítulo.", 60.0, 10.0),
            ],
        )],
        vec![],
    );
    let chapters = detect(&d);

    assert_eq!(
        titles(&chapters),
        vec!["Introdução", "CAPÍTULO 1 A amostra com tendenciosidade embutida"]
    );
    assert_eq!(
        texts(&chapters[1]),
        vec!["Texto do capítulo.", "Mais texto do capítulo."]
    );
}

#[test]
fn images_stay_attached_to_the_chapter_they_appear_in() {
    let d = doc(
        vec![page(
            1,
            vec![
                line("Capítulo 1", 0.0, 10.0),
                FlowEvent::Image(0),
                line("Capítulo 2", 20.0, 10.0),
                FlowEvent::Image(1),
            ],
        )],
        vec![],
    );
    let chapters = detect(&d);

    assert_eq!(chapters[0].title, "Capítulo 1");
    assert!(matches!(chapters[0].events.as_slice(), [FlowEvent::Image(0)]));
}

#[test]
fn chapters_span_page_boundaries() {
    let d = doc(
        vec![
            page(1, vec![line("Capítulo 1", 0.0, 10.0), line("Começo.", 10.0, 10.0)]),
            page(2, vec![line("Continuação.", 0.0, 10.0)]),
        ],
        vec![],
    );
    let chapters = detect(&d);

    assert_eq!(titles(&chapters), vec!["Capítulo 1"]);
    assert_eq!(texts(&chapters[0]), vec!["Começo.", "Continuação."]);
}

/// A heading with nothing under it would show up in the ToC as a dead link, so the
/// last chapter is only kept when it actually has content.
#[test]
fn a_trailing_heading_with_no_body_is_dropped() {
    let d = doc(
        vec![page(1, vec![line("Corpo.", 0.0, 10.0), line("Capítulo 9", 10.0, 10.0)])],
        vec![],
    );
    assert_eq!(titles(&detect(&d)), vec!["Introdução"]);
}

#[test]
fn an_empty_document_yields_one_empty_chapter_instead_of_panicking() {
    let chapters = detect(&doc(vec![], vec![]));
    assert_eq!(titles(&chapters), vec!["Introdução"]);
    assert!(chapters[0].events.is_empty());
}

#[test]
fn every_detected_heading_is_logged_for_review() {
    let d = doc(
        vec![page(1, vec![line("Corpo.", 0.0, 10.0), line("Capítulo 1", 10.0, 10.0)])],
        vec![],
    );
    let mut logs = Vec::new();
    detect_chapters(&d, &mut logs);

    assert_eq!(logs.len(), 1, "{logs:?}");
    assert!(logs[0].contains("Capítulo 1"), "{logs:?}");
}

/// Some PDFs report no usable font size at all. The size heuristic has nothing to go
/// on there, so it must stay quiet instead of turning every single line into a title.
#[test]
fn a_document_with_no_font_sizes_produces_no_size_headings() {
    let d = doc(
        vec![page(
            1,
            vec![
                line("Primeira linha.", 0.0, 0.0),
                line("Segunda linha.", 10.0, 0.0),
                line("Terceira linha.", 20.0, 0.0),
            ],
        )],
        vec![],
    );
    let chapters = detect(&d);

    assert_eq!(titles(&chapters), vec!["Introdução"]);
    assert_eq!(chapters[0].events.len(), 3, "nenhuma linha deveria virar título");
}

#[test]
fn the_baseline_is_the_median_body_size() {
    let d = doc(
        vec![page(
            1,
            vec![
                line("a", 0.0, 10.0),
                line("b", 10.0, 10.0),
                line("c", 20.0, 10.0),
                line("d", 30.0, 40.0),
            ],
        )],
        vec![],
    );
    // Com mediana 10, o 40pt destoa e vira título; se a média fosse usada (17.5),
    // o limiar subiria e o título passaria batido.
    assert_eq!(body_font_baseline(&d), units(10.0));
}

#[test]
fn what_is_logged_of_a_heading_is_spelled_out() {
    let d = doc(
        vec![page(
            3,
            vec![
                line("Corpo.", 0.0, 10.0),
                line("Mais.", 5.0, 10.0),
                line(" Título Grande ", 10.0, 14.25),
            ],
        )],
        vec![],
    );
    let mut logs = vec!["antes".to_string()];
    detect_chapters(&d, &mut logs);
    assert_eq!(
        logs,
        vec![
            "antes",
            "capítulo detectado (pág. 3): \"Título Grande\" (fonte 14.2pt, baseline 10.0pt)",
        ]
    );
}

#[test]
fn the_size_of_a_title_is_compared_exactly() {
    let at = |size: f64| {
        let d = doc(
            vec![page(
                1,
                vec![line("a b", 0.0, 10.0), line("c d", 1.0, 10.0), line("Fim", 2.0, size), line("e", 3.0, 10.0)],
            )],
            vec![],
        );
        detect(&d).len()
    };
    assert_eq!(at(12.5), 2);
    assert_eq!(at(12.499999), 1);
}

#[test]
fn a_title_at_the_very_start_replaces_the_introduction() {
    let d = doc(
        vec![page(1, vec![line("Capítulo 1", 0.0, 10.0), line("Corpo.", 1.0, 10.0)])],
        vec![],
    );
    let chapters = detect(&d);
    assert_eq!(titles(&chapters), vec!["Capítulo 1"]);
    assert_eq!(chapters[0].events.len(), 1);
}

#[test]
fn no_event_is_lost_and_none_changes_its_place() {
    let d = doc(
        vec![
            page(1, vec![line("a", 0.0, 10.0), FlowEvent::Image(4), line("Capítulo 1", 2.0, 10.0)]),
            page(2, vec![line("b", 0.0, 10.0), line(" ", 1.0, 10.0), FlowEvent::Image(5)]),
            page(3, vec![line("Part 2", 0.0, 10.0), line("c", 1.0, 10.0)]),
        ],
        vec![],
    );
    let seen: Vec<String> = detect(&d)
        .iter()
        .flat_map(|c| c.events.iter())
        .map(|e| match e {
            FlowEvent::Line(run) => run.text.clone(),
            FlowEvent::Image(i) => format!("#{i}"),
        })
        .collect();
    assert_eq!(seen, vec!["a", "#4", "b", " ", "#5", "c"]);
}

#[test]
fn only_numbered_lines_match_the_patterns() {
    let lines: Vec<String> = ["Capítulo 12", "  chapter 3 foo", "Parte", "Capítulo", "no capítulo 1", "PART 7"]
        .iter()
        .map(|s| s.to_string())
        .collect();
    assert_eq!(find_numbered_titles(&lines), vec![true, true, false, false, false, true]);
}

#[test]
fn marked_lines_open_chapters_whatever_they_say() {
    let d = doc(
        vec![
            page(1, vec![line(" a ", 0.0, 10.0), FlowEvent::Image(0), line("b", 2.0, 10.0)]),
            page(2, vec![line("c", 0.0, 10.0), line("* *", 1.0, 10.0)]),
        ],
        vec![],
    );
    assert_eq!(line_texts(&d), vec!["a", "", "b", "c", "* *"]);
    let mut log = Vec::new();
    let chapters = split_into_chapters(&d, &vec![false, true, true, false, true], &mut log);
    assert_eq!(titles(&chapters), vec!["Introdução", "b"]);
    assert_eq!(chapters[0].events.len(), 2);
    assert_eq!(chapters[1].events.len(), 2, "uma linha sem letras nem números não é título");
    assert_eq!(log.len(), 1);

    let unmarked = split_into_chapters(&d, &vec![], &mut log);
    assert_eq!(titles(&unmarked), vec!["Introdução"]);
}
