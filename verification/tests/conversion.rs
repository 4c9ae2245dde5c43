use pdf_to_epub::chapters::detect_chapters;
use pdf_to_epub::cover::Cover;
use pdf_to_epub::epub_gen::{assemble_book, build_epub, check_names};
use pdf_to_epub::layout::{measure, LayoutMetrics};
use pdf_to_epub::pdf_model::{ExtractedDoc, FlowEvent, ImageAsset, PageFlow, TextRun};
use pdf_to_epub::pipeline::{
    advance, announce, make_book, report_done, report_extraction, report_full_layout, report_layout, Step,
};
use pdf_to_epub::rounding::nearest_multiple;
use pdf_to_epub::session::ProgressMsg;
use pdf_to_epub::text::{
    contains_alphanumeric, joined, push_decimal, push_decimal2, push_one_decimal, push_percent,
    push_signed_decimal, same_text, split_words,
};

const POINT: i64 = 1_000_000;

fn line(text: &str, y: i64, size: i64) -> (i64, FlowEvent) {
    let run = TextRun { text: text.to_string(), y: y * POINT, font_size: size * POINT, x_start: 120_000_000_000_000 };
    (y * POINT, FlowEvent::Line(run))
}

fn jpeg(filename: &str) -> ImageAsset {
    ImageAsset {
        filename: filename.to_string(),
        bytes: vec![0xFF, 0xD8, 0xFF, 0xD9],
        mime: "image/jpeg",
        width: 10,
        height: 10,
    }
}

fn some_cover() -> Cover {
    Cover {
        filename: "cover.jpg".to_string(),
        mime: "image/jpeg",
        bytes: vec![0xFF, 0xD8, 0xFF, 0xD9],
        width: 800,
        height: 1280,
        consumed_image: None,
    }
}

fn small_book() -> ExtractedDoc {
    ExtractedDoc {
        pages: vec![PageFlow {
            page_num: 1,
            events: vec![
                line("Abertura.", 0, 10),
                line("Capítulo 1", 20, 10),
                line("Corpo & alma.", 40, 10),
                (50 * POINT, FlowEvent::Image(0)),
            ],
        }],
        images: vec![jpeg("a.jpg")],
    }
}

/// Whether a name stands in an archive.
fn holds(bytes: &[u8], name: &str) -> bool {
    bytes.windows(name.len()).any(|w| w == name.as_bytes())
}

#[test]
fn a_book_holds_its_chapters_its_pictures_and_its_cover() {
    let doc = small_book();
    let mut log = Vec::new();
    let book = make_book(&doc, &some_cover(), "T", "A", "pt", &mut log).unwrap();
    assert_eq!((book.chapter_count, book.image_count), (2, 1));
    assert_eq!(&book.epub[..2], b"PK");
    for name in [
        "OEBPS/chap_01.xhtml",
        "OEBPS/chap_02.xhtml",
        "OEBPS/images/a.jpg",
        "OEBPS/cover.jpg",
        "OEBPS/stylesheet.css",
        "OEBPS/content.opf",
    ] {
        assert!(holds(&book.epub, name), "faltou {name}");
    }
    assert_eq!(log, vec!["capítulo detectado (pág. 1): \"Capítulo 1\" (fonte 10.0pt, baseline 10.0pt)"]);
    assert!(book.preview.contains("<p>Corpo &amp; alma.</p>\n"), "{}", book.preview);
    assert!(book.preview.contains("<h2 id=\"chap2\">Capítulo 1</h2>"));
    assert!(book.preview.contains("data:image/jpeg;base64,"));
    assert!(!book.preview.contains("images/a.jpg"));
}

#[test]
fn the_fragments_of_a_book_are_those_of_its_chapters() {
    let doc = small_book();
    let mut log = Vec::new();
    let chapters = detect_chapters(&doc, &mut log);
    let (epub, fragments) =
        build_epub(&chapters, &doc.images, &some_cover(), &measure(&doc), "T", "A", "pt").unwrap();
    assert!(!epub.is_empty());
    assert_eq!(fragments.len(), 2);
    assert_eq!(fragments[0], ("Introdução".to_string(), "<p>Abertura.</p>\n".to_string()));
    assert_eq!(fragments[1].0, "Capítulo 1");
    assert!(fragments[1].1.starts_with("<p>Corpo &amp; alma.</p>\n<img src=\"images/a.jpg\""), "{}", fragments[1].1);
}

#[test]
fn two_books_that_differ_are_written_differently() {
    let mut log = Vec::new();
    let one = make_book(&small_book(), &some_cover(), "T", "A", "pt", &mut log).unwrap();
    let mut doc = small_book();
    doc.images.push(jpeg("outra.jpg"));
    let two = make_book(&doc, &some_cover(), "T", "A", "pt", &mut log).unwrap();
    assert!(!holds(&one.epub, "OEBPS/images/outra.jpg"));
    assert!(holds(&two.epub, "OEBPS/images/outra.jpg"));
    assert_eq!(two.image_count, 2);
}

fn told(message: ProgressMsg) -> String {
    match message {
        ProgressMsg::Stage(s) => format!("etapa: {s}"),
        ProgressMsg::Log(s) => format!("log: {s}"),
        ProgressMsg::Done(o) => {
            format!("fim: {} {} {} {}", o.epub_path, o.preview_path, o.chapter_count, o.image_count)
        }
        ProgressMsg::Error(e) => format!("erro: {e}"),
    }
}

#[test]
fn the_steps_follow_one_another_to_the_end() {
    let mut step = Step::Extract;
    let mut seen = vec![told(announce(step))];
    while let (Some(next), message) = advance(step, Ok(())) {
        seen.push(told(message.unwrap()));
        step = next;
    }
    assert!(matches!(step, Step::BuildPreview));
    assert!(advance(step, Ok(())).1.is_none());
    assert_eq!(
        seen,
        vec![
            "etapa: Extraindo texto e imagens do PDF",
            "etapa: Escolhendo a capa",
            "etapa: Detectando capítulos",
            "etapa: Gerando EPUB",
            "etapa: Gerando preview HTML",
        ]
    );
}

#[test]
fn a_step_that_fails_ends_the_work_with_its_own_words() {
    let cases = [
        (Step::Extract, "erro: Falha ao ler o PDF: x"),
        (Step::BuildBook, "erro: Falha ao gerar o EPUB: x"),
        (Step::BuildPreview, "erro: Falha ao gerar o preview: x"),
    ];
    for (step, words) in cases {
        let (next, message) = advance(step, Err("x".to_string()));
        assert!(next.is_none());
        assert_eq!(told(message.unwrap()), words);
    }
}

#[test]
fn what_is_reported_is_spelled_out() {
    let m = LayoutMetrics { baseline_font: 15_000_000, left_margin: 123_000_000_000_000, line_gap: 19_550_000 };
    assert_eq!(report_layout(&m), "layout: corpo 15.0pt, entrelinha 19.6pt");
    assert_eq!(
        report_full_layout(&m),
        "layout: corpo 15.0pt, margem em 12% da página, entrelinha 19.6pt"
    );
    assert_eq!(report_extraction(&small_book()), "extração concluída: 1 páginas, 1 imagens");
    let mut log = Vec::new();
    let book = make_book(&small_book(), &some_cover(), "T", "A", "pt", &mut log).unwrap();
    assert_eq!(told(report_done("e".to_string(), "p".to_string(), &book)), "fim: e p 2 1");
}

#[test]
fn numbers_are_written_in_decimal() {
    let written = |f: &dyn Fn(&mut String)| {
        let mut s = "n=".to_string();
        f(&mut s);
        s
    };
    assert_eq!(written(&|s| push_decimal(s, 0)), "n=0");
    assert_eq!(written(&|s| push_decimal(s, u128::MAX)), format!("n={}", u128::MAX));
    assert_eq!(written(&|s| push_decimal2(s, 7)), "n=07");
    assert_eq!(written(&|s| push_decimal2(s, 123)), "n=123");
    assert_eq!(written(&|s| push_signed_decimal(s, i64::MIN)), format!("n={}", i64::MIN));
    assert_eq!(written(&|s| push_signed_decimal(s, -5)), "n=-5");
    assert_eq!(written(&|s| push_one_decimal(s, 10_250_000)), "n=10.2");
    assert_eq!(written(&|s| push_one_decimal(s, 12_350_000)), "n=12.3");
    assert_eq!(written(&|s| push_one_decimal(s, -750_000)), "n=-0.8");
    assert_eq!(written(&|s| push_one_decimal(s, 10_250_001)), "n=10.3");
    assert_eq!(written(&|s| push_percent(s, 125_000_000_000_000)), "n=12");
    assert_eq!(written(&|s| push_percent(s, 575_000_000_000_000)), "n=57");
    assert_eq!(nearest_multiple(25, 10), 2);
    assert_eq!(nearest_multiple(35, 10), 4);
    assert_eq!(nearest_multiple(26, 10), 3);
}

#[test]
fn texts_are_taken_apart_and_put_together() {
    assert_eq!(split_words("  um\tdois \u{a0}três\n"), vec!["um", "dois", "três"]);
    assert!(split_words(" \n").is_empty());
    assert_eq!(joined("a", "b"), "ab");
    assert!(same_text("ção", "ção") && !same_text("a", "b") && !same_text("a", "ab"));
    assert!(contains_alphanumeric("» 1") && contains_alphanumeric("é") && !contains_alphanumeric("» —"));
}

#[test]
fn white_space_and_basic_letters_are_those_of_unicode() {
    for c in '\0'..=char::MAX {
        let n = c as u32;
        let listed = (0x09..=0x0d).contains(&n)
            || (0x2000..=0x200a).contains(&n)
            || [0x20, 0x85, 0xa0, 0x1680, 0x2028, 0x2029, 0x202f, 0x205f, 0x3000].contains(&n);
        assert_eq!(split_words(&c.to_string()).is_empty(), listed, "{n:x}");
        if n < 128 {
            assert_eq!(contains_alphanumeric(&c.to_string()), c.is_ascii_alphanumeric(), "{n:x}");
        }
    }
}

fn named_cover(filename: &str) -> Cover {
    Cover { filename: filename.to_string(), ..some_cover() }
}

fn builds(cover: &Cover, author: &str) -> bool {
    let doc = small_book();
    let mut log = Vec::new();
    make_book(&doc, cover, "T", author, "pt", &mut log).is_ok()
}

#[test]
fn an_ordinary_book_is_written_with_or_without_an_author() {
    for author in ["A", "", "  ", "a & \"b\" <c>\n\n d"] {
        assert!(builds(&named_cover("cover.jpg"), author), "{author}");
        assert!(builds(&named_cover("cover.png"), author), "{author}");
    }
}

#[test]
fn two_parts_at_one_place_are_refused() {
    for taken in ["stylesheet.css", "cover.xhtml", "chap_01.xhtml", "images/a.jpg"] {
        let doc = small_book();
        let mut log = Vec::new();
        let chapters = detect_chapters(&doc, &mut log);
        let cover = named_cover(taken);
        let book = assemble_book(&chapters, &doc.images, &cover, &measure(&doc), "T", "A", "pt");
        assert!(book.is_err(), "{taken}");
        assert!(!builds(&cover, "A"), "{taken}");
    }
}

#[test]
fn the_places_of_the_builder_are_refused_in_the_end() {
    for taken in ["content.opf", "toc.ncx", "nav.xhtml", "toc.xhtml"] {
        let doc = small_book();
        let mut log = Vec::new();
        let chapters = detect_chapters(&doc, &mut log);
        let cover = named_cover(taken);
        let book = assemble_book(&chapters, &doc.images, &cover, &measure(&doc), "T", "A", "pt");
        assert!(book.is_ok(), "{taken}");
        assert!(!builds(&cover, "A"), "{taken}");
    }
    assert!(builds(&named_cover("capa.jpg"), "A"));
}

#[test]
fn the_longest_name_that_fits_is_written() {
    let cover = some_cover();
    let mut doc = small_book();
    doc.images = vec![jpeg(&"x".repeat(65_522))];
    assert!(check_names(&doc.images, &cover));
    let mut log = Vec::new();
    assert!(make_book(&doc, &cover, "T", "A", "pt", &mut log).is_ok());

    assert!(!check_names(&[jpeg(&"x".repeat(65_523))], &cover));
    assert!(!check_names(&[jpeg(&"é".repeat(32_762))], &cover));
    assert!(!check_names(&[], &named_cover(&"x".repeat(65_530))));
    assert!(check_names(&[], &named_cover(&"x".repeat(65_529))));
}

#[test]
fn ties_go_the_way_of_the_binary_number() {
    let mut v: i128 = 0;
    while v < 60_000_000 {
        for count in [v, v + 50_000, v + 50_001, 1_000_003 * v + 50_000] {
            let mut text = String::new();
            push_one_decimal(&mut text, count);
            assert_eq!(text, format!("{:.1}", count as f64 / 1e6), "{count}");
        }
        v += 100_000;
    }
    for thousandth in 0..=1000i64 {
        let mut text = String::new();
        push_percent(&mut text, thousandth * 1_000_000_000_000);
        assert_eq!(text, format!("{:.0}", thousandth as f64 / 1000.0 * 100.0), "{thousandth}");
    }
}

#[test]
fn a_title_with_line_breaks_is_written_all_the_same() {
    let mut log = Vec::new();
    for title in ["a\r\nb", "a\nb"] {
        assert!(make_book(&small_book(), &some_cover(), title, "A", "pt", &mut log).is_ok());
    }
}
