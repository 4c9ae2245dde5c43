use lopdf::content::{Content, Operation};
use lopdf::{Dictionary, Document, Object, Stream};
use pdf_to_epub::page_scan::{
    locate_images, patch_page_contents, sanitize_and_locate_images, set_page_contents, Draw, Step,
};
use pdf_to_epub::pdf_model::{FlowEvent, TextRun};
use pdf_to_epub::pdf_parse::{
    as_num, get_resources, parse_document, prepare_page, report_unextracted, Number, PagePlan, PageText,
};

fn name(text: &str) -> Object {
    Object::Name(text.as_bytes().to_vec())
}

fn op(operator: &str, operands: Vec<Object>) -> Operation {
    Operation::new(operator, operands)
}

fn cm(numbers: [i64; 6]) -> Operation {
    op("cm", numbers.iter().map(|n| Object::Integer(*n)).collect())
}

fn show(target: &str) -> Operation {
    op("Do", vec![name(target)])
}

fn operators(operations: &[Operation]) -> Vec<&str> {
    operations.iter().map(|o| o.operator.as_str()).collect()
}

fn frame() -> [Number; 4] {
    [0, 0, 612, 792].map(|n| as_num(&Object::Integer(n)))
}

fn places(draws: &[Draw]) -> Vec<(Option<usize>, usize)> {
    draws.iter().map(|d| (d.step, d.image)).collect()
}

fn parents(steps: &[Step]) -> Vec<Option<usize>> {
    steps.iter().map(|s| s.parent).collect()
}

/// A document without any objects.
fn none() -> Document {
    Document::with_version("1.5")
}

fn read(bytes: &[u8]) -> Result<Vec<Operation>, String> {
    Content::decode(bytes).map(|c| c.operations).map_err(|e| e.to_string())
}

#[test]
fn drawings_of_known_pictures_are_taken_out_and_all_else_stays() {
    let mut xobjects = Dictionary::new();
    xobjects.set("Im0", Object::Reference((5, 0)));
    xobjects.set("Fm0", Object::Reference((6, 0)));
    xobjects.set("Im1", Object::Reference((7, 0)));
    let operations = vec![
        op("q", vec![]),
        show("Im0"),
        show("Fm0"),
        show("Desconhecido"),
        op("Do", vec![]),
        op("Tj", vec![Object::string_literal("texto")]),
        show("Im1"),
        op("Q", vec![]),
    ];
    let scan = locate_images(operations, &none(), Some(&xobjects), &vec![(5, 0), (7, 0)], 10, frame());
    assert_eq!(operators(&scan.operations), vec!["q", "Do", "Do", "Do", "Tj", "Q"]);
    assert_eq!(places(&scan.draws), vec![(None, 10), (None, 11)]);
    assert!(scan.steps.is_empty());
}

#[test]
fn a_picture_that_stands_twice_in_the_list_is_shown_by_its_later_place() {
    let mut xobjects = Dictionary::new();
    xobjects.set("Im0", Object::Reference((5, 0)));
    let scan = locate_images(vec![show("Im0")], &none(), Some(&xobjects), &vec![(5, 0), (5, 0)], 3, frame());
    assert_eq!(places(&scan.draws), vec![(None, 4)]);
}

#[test]
fn without_resources_nothing_is_taken_out() {
    let scan = locate_images(vec![show("Im0")], &none(), None, &vec![(5, 0)], 0, frame());
    assert_eq!(operators(&scan.operations), vec!["Do"]);
    assert!(scan.draws.is_empty());
}

#[test]
fn restoring_ends_what_was_set_after_saving() {
    let mut xobjects = Dictionary::new();
    xobjects.set("A", Object::Reference((5, 0)));
    let operations = vec![
        cm([1, 0, 0, 1, 5, 6]),
        show("A"),
        op("q", vec![]),
        cm([2, 0, 0, 2, 0, 0]),
        op("cm", vec![Object::Integer(1)]),
        cm([3, 0, 0, 3, 0, 0]),
        show("A"),
        op("Q", vec![]),
        show("A"),
        op("Q", vec![]),
        show("A"),
    ];
    let scan = locate_images(operations, &none(), Some(&xobjects), &vec![(5, 0)], 0, frame());
    assert_eq!(parents(&scan.steps), vec![None, Some(0), Some(1)]);
    assert_eq!(places(&scan.draws), vec![(Some(0), 0), (Some(2), 0), (Some(0), 0), (Some(0), 0)]);
    assert_eq!(scan.operations.len(), 7);
    assert!(matches!(scan.steps[0].matrix[4], Number::Integer(5)));
    assert!(matches!(scan.steps[2].matrix[0], Number::Integer(3)));
}

/// A page with one gray picture of one sample, called Im0, and with the content given.
fn page_with(content: &[u8]) -> (Document, (u32, u16), (u32, u16)) {
    let mut doc = Document::with_version("1.5");
    let mut dict = Dictionary::new();
    dict.set("Subtype", name("Image"));
    dict.set("Width", Object::Integer(1));
    dict.set("Height", Object::Integer(1));
    dict.set("ColorSpace", name("DeviceGray"));
    dict.set("BitsPerComponent", Object::Integer(8));
    let picture = doc.add_object(Stream::new(dict, vec![77]));
    let mut xobjects = Dictionary::new();
    xobjects.set("Im0", Object::Reference(picture));
    let mut resources = Dictionary::new();
    resources.set("XObject", Object::Dictionary(xobjects));
    let content = doc.add_object(Stream::new(Dictionary::new(), content.to_vec()));
    let mut page = Dictionary::new();
    page.set("Type", name("Page"));
    page.set("Resources", Object::Dictionary(resources));
    page.set("Contents", Object::Reference(content));
    page.set(
        "MediaBox",
        Object::Array(vec![Object::Integer(0), Object::Integer(0), Object::Integer(612), Object::Integer(792)]),
    );
    let page = doc.add_object(Object::Dictionary(page));
    (doc, page, picture)
}

#[test]
fn the_content_of_a_page_is_read_and_its_pictures_found() {
    let (doc, page, picture) = page_with(b"q 100 0 0 50 10 20 cm /Im0 Do Q BT (oi) Tj ET");
    let scan = sanitize_and_locate_images(&doc, page, &vec![picture], 2, &read).unwrap();
    assert_eq!(operators(&scan.operations), vec!["q", "cm", "Q", "BT", "Tj", "ET"]);
    assert_eq!(places(&scan.draws), vec![(Some(0), 2)]);
    assert!(matches!(scan.frame, [Number::Integer(0), Number::Integer(0), Number::Integer(612), Number::Integer(792)]));
}

#[test]
fn content_with_a_picture_of_its_own_is_read_by_the_caller() {
    let (doc, page, picture) = page_with(b"q BI /W 1 /H 1 /CS /G /BPC 8 ID x EI /Im0 Do");
    let refused = |_: &[u8]| -> Result<Vec<Operation>, String> { Err("não lido".to_string()) };
    let outcome = sanitize_and_locate_images(&doc, page, &vec![picture], 0, &refused);
    assert_eq!(outcome.map(|_| ()).unwrap_err(), "não lido");

    let given = |_: &[u8]| -> Result<Vec<Operation>, String> { Ok(vec![show("Im0"), op("n", vec![])]) };
    let scan = sanitize_and_locate_images(&doc, page, &vec![picture], 0, &given).unwrap();
    assert_eq!(operators(&scan.operations), vec!["n"]);

    let scan = sanitize_and_locate_images(&doc, page, &vec![picture], 0, &read).unwrap();
    assert_eq!(operators(&scan.operations), vec!["q"], "a imagem embutida também sai");
    assert_eq!(places(&scan.draws), vec![(None, 0)]);
}

#[test]
fn a_page_that_is_not_there_cannot_be_read() {
    let (mut doc, page, picture) = page_with(b"q Q");
    assert!(sanitize_and_locate_images(&doc, (999, 0), &vec![picture], 0, &read).is_err());
    if let Ok(dict) = doc.get_dictionary_mut(page) {
        dict.remove(b"MediaBox");
    }
    let outcome = sanitize_and_locate_images(&doc, page, &vec![picture], 0, &read);
    assert_eq!(outcome.map(|_| ()).unwrap_err(), "MediaBox não encontrado");
}

#[test]
fn replaced_content_is_what_the_page_shows() {
    let (mut doc, page, _) = page_with(b"/Im0 Do");
    let before = doc.objects.len();
    let new = vec![op("BT", vec![]), op("Tj", vec![Object::string_literal("oi")]), op("ET", vec![])];
    assert_eq!(patch_page_contents(&mut doc, page, &new), Ok(()));
    assert_eq!(doc.objects.len(), before + 1);
    let shown = doc.get_and_decode_page_content(page).unwrap();
    assert_eq!(operators(&shown.operations), vec!["BT", "Tj", "ET"]);
}

#[test]
fn content_cannot_be_replaced_on_what_is_no_page() {
    let (mut doc, _, _) = page_with(b"");
    let number = doc.add_object(Object::Integer(1));
    assert!(patch_page_contents(&mut doc, number, &vec![]).is_err());
    assert!(patch_page_contents(&mut doc, (999, 0), &vec![]).is_err());

    let (mut doc, page, _) = page_with(b"");
    doc.max_id = u32::MAX;
    assert_eq!(
        patch_page_contents(&mut doc, page, &vec![]),
        Err("não há números livres para mais objetos".to_string())
    );
}

#[test]
fn resources_are_looked_for_up_the_page_tree() {
    let mut doc = Document::with_version("1.5");
    let mut fonts = Dictionary::new();
    fonts.set("Font", Object::Dictionary(Dictionary::new()));
    let fonts = doc.add_object(Object::Dictionary(fonts));
    let mut node = Dictionary::new();
    node.set("Resources", Object::Reference(fonts));
    let node = doc.add_object(Object::Dictionary(node));
    let mut page = Dictionary::new();
    page.set("Resources", Object::Integer(3));
    page.set("Parent", Object::Reference(node));
    let page = doc.add_object(Object::Dictionary(page));
    let found = get_resources(&doc, page).unwrap().unwrap();
    assert!(found.has(b"Font"));

    let lone = doc.add_object(Object::Dictionary(Dictionary::new()));
    assert!(get_resources(&doc, lone).unwrap().is_none());
    assert!(get_resources(&doc, (999, 0)).is_err());

    let mut ring = Dictionary::new();
    ring.set("Parent", Object::Reference(lone));
    doc.objects.insert(lone, Object::Dictionary(ring));
    assert!(get_resources(&doc, lone).unwrap().is_none());
}

#[test]
fn a_page_is_prepared_for_reading_its_text() {
    let (mut doc, page, picture) = page_with(b"q 100 0 0 50 10 20 cm /Im0 Do Q BT (oi) Tj ET");
    let mut images = Vec::new();
    let mut log = Vec::new();
    let plan = prepare_page(&mut doc, 4, page, &mut images, &read, &mut log);
    assert_eq!(places(&plan.draws), vec![(Some(0), 0)]);
    assert_eq!(plan.steps.len(), 1);
    assert!(plan.frame.is_some());
    assert_eq!(images.len(), 1);
    assert_eq!(images[0].filename, format!("img_{}_{}.png", picture.0, picture.1));
    assert!(log.is_empty());
    let shown = doc.get_and_decode_page_content(page).unwrap();
    assert_eq!(operators(&shown.operations), vec!["q", "cm", "Q", "BT", "Tj", "ET"]);

    let again = prepare_page(&mut doc, 5, page, &mut images, &read, &mut log);
    assert!(again.draws.is_empty());
    assert_eq!(images.len(), 2, "as imagens da página são lidas de novo");
}

#[test]
fn what_goes_wrong_with_a_page_is_reported_under_its_number() {
    let (mut doc, page, _) = page_with(b"q Q");
    if let Ok(dict) = doc.get_dictionary_mut(page) {
        dict.remove(b"MediaBox");
    }
    let mut images = Vec::new();
    let mut log = Vec::new();
    let plan = prepare_page(&mut doc, 4, page, &mut images, &read, &mut log);
    assert!(plan.frame.is_none() && plan.draws.is_empty());
    assert_eq!(
        log,
        vec![
            "página 4: falha ao ler stream de conteúdo (MediaBox não encontrado), texto desta página ficará vazio"
        ]
    );
    assert!(doc.get_and_decode_page_content(page).unwrap().operations.is_empty());
    assert_eq!(
        report_unextracted(9, "erro"),
        "página 9: pdf-extract falhou (erro), texto desta página ficará vazio"
    );
}

#[test]
fn the_bytes_of_a_page_are_set_as_they_are() {
    let (mut doc, page, _) = page_with(b"/Im0 Do");
    assert_eq!(set_page_contents(&mut doc, page, b"q Q".to_vec()), Ok(()));
    assert_eq!(doc.get_page_content(page).unwrap(), b"q Q\n".to_vec());
    assert!(set_page_contents(&mut doc, (999, 0), vec![]).is_err());
}

#[test]
fn saving_and_restoring_may_be_nested() {
    let mut xobjects = Dictionary::new();
    xobjects.set("A", Object::Reference((5, 0)));
    let operations = vec![
        op("q", vec![]),
        cm([1, 0, 0, 1, 5, 6]),
        op("q", vec![]),
        cm([2, 0, 0, 2, 0, 0]),
        op("Q", vec![]),
        show("A"),
        op("Q", vec![]),
        show("A"),
    ];
    let scan = locate_images(operations, &none(), Some(&xobjects), &vec![(5, 0)], 0, frame());
    assert_eq!(places(&scan.draws), vec![(Some(0), 0), (None, 0)]);
}

/// A document of pages that draw one picture each, by the content given.
fn book_with(contents: &[&[u8]]) -> Document {
    let mut doc = Document::with_version("1.5");
    let parent = doc.new_object_id();
    let mut kids = Vec::new();
    for content in contents {
        let mut dict = Dictionary::new();
        dict.set("Subtype", name("Image"));
        dict.set("Width", Object::Integer(1));
        dict.set("Height", Object::Integer(1));
        dict.set("ColorSpace", name("DeviceGray"));
        dict.set("BitsPerComponent", Object::Integer(8));
        let picture = doc.add_object(Stream::new(dict, vec![77]));
        let mut xobjects = Dictionary::new();
        xobjects.set("Im0", Object::Reference(picture));
        let mut resources = Dictionary::new();
        resources.set("XObject", Object::Dictionary(xobjects));
        let content = doc.add_object(Stream::new(Dictionary::new(), content.to_vec()));
        let mut page = Dictionary::new();
        page.set("Type", name("Page"));
        page.set("Parent", Object::Reference(parent));
        page.set("Resources", Object::Dictionary(resources));
        page.set("Contents", Object::Reference(content));
        kids.push(Object::Reference(doc.add_object(Object::Dictionary(page))));
    }
    let mut node = Dictionary::new();
    node.set("Type", name("Pages"));
    node.set("Count", Object::Integer(kids.len() as i64));
    node.set("Kids", Object::Array(kids));
    let sides = [0, 0, 612, 792].map(Object::Integer);
    node.set("MediaBox", Object::Array(sides.to_vec()));
    doc.objects.insert(parent, Object::Dictionary(node));
    let mut catalog = Dictionary::new();
    catalog.set("Type", name("Catalog"));
    catalog.set("Pages", Object::Reference(parent));
    let catalog = doc.add_object(Object::Dictionary(catalog));
    doc.trailer.set("Root", Object::Reference(catalog));
    doc
}

fn run(text: &str, y: i64) -> TextRun {
    TextRun { text: text.to_string(), y, font_size: 1, x_start: 0 }
}

#[test]
fn every_page_is_read_and_its_pictures_stand_between_its_lines() {
    let mut doc = book_with(&[b"/Im0 Do BT ET", b"BT ET", b"/Im0 Do /Im0 Do"]);
    let extract = |doc: &Document, page_num: u32| {
        let page = doc.get_pages()[&page_num];
        let shown = doc.get_and_decode_page_content(page).unwrap();
        assert!(!operators(&shown.operations).contains(&"Do"), "sobrou um desenho na página {page_num}");
        PageText {
            lines: vec![run("em cima", 10), run("embaixo", 30)],
            failure: if page_num == 2 { Some("quebrado".to_string()) } else { None },
        }
    };
    let height_of = |_: &PagePlan, k: usize| 20 + 20 * k as i64;
    let shown = std::cell::Cell::new(0);
    let tell = |notes: &Vec<String>| shown.set(shown.get() + notes.len());
    let mut log = vec!["antes".to_string()];
    let book = parse_document(&mut doc, &read, &extract, &height_of, &tell, &mut log);

    let seen: Vec<Vec<String>> = book
        .pages
        .iter()
        .map(|p| {
            p.events
                .iter()
                .map(|(_, e)| match e {
                    FlowEvent::Line(run) => run.text.clone(),
                    FlowEvent::Image(i) => format!("#{i}"),
                })
                .collect()
        })
        .collect();
    assert_eq!(
        seen,
        vec![
            vec!["em cima", "#0", "embaixo"],
            vec!["em cima", "embaixo"],
            vec!["em cima", "#2", "embaixo", "#2"],
        ]
    );
    assert_eq!(book.pages.iter().map(|p| p.page_num).collect::<Vec<u32>>(), vec![1, 2, 3]);
    assert_eq!(book.images.len(), 3);
    assert_eq!(
        log,
        vec![
            "antes",
            "página 1: 2 linhas, 1 imagens",
            "página 2: pdf-extract falhou (quebrado), texto desta página ficará vazio",
            "página 2: 2 linhas, 0 imagens",
            "página 3: 2 linhas, 2 imagens",
        ]
    );
    assert_eq!(shown.get(), 4, "cada mensagem é mostrada uma vez");
}

#[test]
fn a_document_without_pages_has_no_flow() {
    let mut doc = Document::with_version("1.5");
    let extract = |_: &Document, _: u32| PageText { lines: vec![], failure: None };
    let height_of = |_: &PagePlan, _: usize| 0i64;
    let tell = |_: &Vec<String>| ();
    let mut log = Vec::new();
    let book = parse_document(&mut doc, &read, &extract, &height_of, &tell, &mut log);
    assert!(book.pages.is_empty() && book.images.is_empty() && log.is_empty());
}

#[test]
fn a_picture_that_was_not_extracted_is_taken_out_too() {
    let mut doc = none();
    let mut image = Dictionary::new();
    image.set("Subtype", name("Image"));
    let image = doc.add_object(Stream::new(image, vec![]));
    let mut form = Dictionary::new();
    form.set("Subtype", name("Form"));
    let form = doc.add_object(Stream::new(form, b"q Q".to_vec()));
    let mut xobjects = Dictionary::new();
    xobjects.set("Im0", Object::Reference(image));
    xobjects.set("Fm0", Object::Reference(form));
    let operations = vec![op("q", vec![]), show("Im0"), show("Fm0"), op("Q", vec![])];
    let scan = locate_images(operations, &doc, Some(&xobjects), &vec![], 0, frame());
    assert_eq!(operators(&scan.operations), vec!["q", "Do", "Q"]);
    assert!(matches!(&scan.operations[1].operands[0], Object::Name(n) if n == b"Fm0"));
    assert!(scan.draws.is_empty());
}

#[test]
fn only_an_operator_counts_as_the_start_of_an_inline_picture() {
    let refused = |_: &[u8]| -> Result<Vec<Operation>, String> { Err("não lido".to_string()) };
    let sure: [&[u8]; 7] = [
        b"BT (BI /W 1) Tj ET",
        b"BT (a \\( BI /W 1 \\) b (BI /W)) Tj ET",
        b"/BI Do",
        b"% BI /W 1\nq Q",
        b"q BIS Q",
        b"1 BI",
        b"q Q BI",
    ];
    for content in sure {
        let (doc, page, picture) = page_with(content);
        let outcome = sanitize_and_locate_images(&doc, page, &vec![picture], 0, &refused);
        assert_ne!(outcome.map(|_| ()).err().as_deref(), Some("não lido"), "{content:?}");
    }
    let unsure: [&[u8]; 4] = [b"BI/W 1", b"q\nBI /W 1", b"(a) Tj BI ID", b"% x\nBI /W 1"];
    for content in unsure {
        let (doc, page, picture) = page_with(content);
        let outcome = sanitize_and_locate_images(&doc, page, &vec![picture], 0, &refused);
        assert_eq!(outcome.map(|_| ()).unwrap_err(), "não lido", "{content:?}");
    }
}

#[test]
fn the_streams_of_a_page_are_strung_together() {
    let (mut doc, page, picture) = page_with(b"q");
    let mut ascii = Dictionary::new();
    ascii.set("Filter", name("ASCII85Decode"));
    let first = doc.add_object(Stream::new(ascii, b"E<~>".to_vec()));
    let mut odd = Dictionary::new();
    odd.set("Filter", name("Desconhecido"));
    let second = doc.add_object(Stream::new(odd, b"Q".to_vec()));
    let mut empty = Dictionary::new();
    empty.set("Filter", Object::Array(vec![]));
    let third = doc.add_object(Stream::new(empty, b"S".to_vec()));
    let list = [first, (999, 0), second, third].map(Object::Reference);
    if let Ok(dict) = doc.get_dictionary_mut(page) {
        dict.set("Contents", Object::Array(list.to_vec()));
    }
    let scan = sanitize_and_locate_images(&doc, page, &vec![picture], 0, &read).unwrap();
    assert_eq!(operators(&scan.operations), vec!["q", "Q"]);
}

/// Bytes in ASCII85. Their number is a multiple of four.
fn ascii85(bytes: &[u8]) -> Vec<u8> {
    let mut out = Vec::new();
    for group in bytes.chunks_exact(4) {
        let mut value = u32::from_be_bytes([group[0], group[1], group[2], group[3]]);
        let mut digits = [0u8; 5];
        for digit in digits.iter_mut().rev() {
            *digit = 33 + (value % 85) as u8;
            value /= 85;
        }
        out.extend_from_slice(&digits);
    }
    out.extend_from_slice(b"~>");
    out
}

/// A stream of these bytes in ASCII85, which are then compressed.
fn twice_encoded(mut dict: Dictionary, bytes: &[u8]) -> Stream {
    let mut stream = Stream::new(Dictionary::new(), ascii85(bytes));
    stream.compress().unwrap();
    assert!(stream.is_compressed());
    dict.set("Filter", Object::Array(vec![name("FlateDecode"), name("ASCII85Decode")]));
    Stream::new(dict, stream.content)
}

/// The operators of a page with one content stream, and those that lopdf makes of it.
fn operators_of(stream: Stream) -> (Vec<String>, Vec<String>) {
    let (mut doc, page, picture) = page_with(b"");
    let stream = doc.add_object(stream);
    if let Ok(dict) = doc.get_dictionary_mut(page) {
        dict.set("Contents", Object::Reference(stream));
    }
    let names = |ops: &[Operation]| ops.iter().map(|o| o.operator.clone()).collect();
    let scan = sanitize_and_locate_images(&doc, page, &vec![picture], 0, &read).unwrap();
    (names(&scan.operations), names(&read(&doc.get_page_content(page).unwrap()).unwrap()))
}

#[test]
fn filters_are_undone_one_after_the_other() {
    let (mine, theirs) = operators_of(twice_encoded(Dictionary::new(), &b"q n Q n ".repeat(60)));
    assert_eq!(mine.len(), 240);
    assert_eq!(mine, theirs);

    let filtered = |filter: Object, bytes: &[u8]| {
        let mut dict = Dictionary::new();
        dict.set("Filter", filter);
        Stream::new(dict, bytes.to_vec())
    };
    let lists = [
        name("ASCII85Decode"),
        name("Desconhecido"),
        Object::Array(vec![]),
        Object::Array(vec![name("ASCII85Decode"), name("ASCII85Decode")]),
        Object::Array(vec![name("ASCII85Decode"), name("Desconhecido")]),
        Object::Array(vec![name("ASCII85Decode"), Object::Integer(1)]),
        Object::Integer(1),
    ];
    for list in lists {
        for bytes in [&b"q Q"[..], &ascii85(b"q Q "), &ascii85(&ascii85(b"q Q n n ")[..8]), b"uuuuu~>"] {
            let (mine, theirs) = operators_of(filtered(list.clone(), bytes));
            assert_eq!(mine, theirs, "{list:?} {bytes:?}");
        }
    }
}

#[test]
fn a_filter_beyond_the_integers_of_the_machine_counts_as_failed() {
    let content = |filter: &str, parms: Option<Dictionary>, bytes: &[u8]| {
        let (mut doc, page, picture) = page_with(b"");
        let mut dict = Dictionary::new();
        dict.set("Filter", name(filter));
        if let Some(parms) = parms {
            dict.set("DecodeParms", Object::Dictionary(parms));
        }
        let stream = doc.add_object(Stream::new(dict, bytes.to_vec()));
        if let Ok(dict) = doc.get_dictionary_mut(page) {
            dict.set("Contents", Object::Reference(stream));
        }
        let scan = sanitize_and_locate_images(&doc, page, &vec![picture], 0, &read).unwrap();
        scan.operations.iter().map(|o| o.operator.clone()).collect::<Vec<String>>()
    };
    assert!(content("ASCII85Decode", None, b"s8W-!~>").is_empty());
    assert_eq!(content("ASCII85Decode", None, b"s8W-\"~>"), vec!["s", "W"]);
    assert_eq!(content("ASCII85Decode", None, b"s8 W-~>"), vec!["s", "W"]);
    let wide = |columns: i64, colors: i64| {
        let mut parms = Dictionary::new();
        parms.set("Predictor", Object::Integer(12));
        parms.set("Columns", Object::Integer(columns));
        parms.set("Colors", Object::Integer(colors));
        Some(parms)
    };
    assert!(content("FlateDecode", wide(5, 3), b"q Q").is_empty());
    assert_eq!(content("FlateDecode", wide(i64::MAX, 9), b"q Q"), vec!["q", "Q"]);
    assert_eq!(content("LZWDecode", wide(1, i64::MAX), b"q Q"), vec!["q", "Q"]);
}
