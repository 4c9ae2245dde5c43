use lopdf::{Dictionary, Document, Object, StringFormat};
use pdf_to_epub::pdf_parse::{
    as_num, decode_pdf_string, get_media_box, info_language, info_metadata, list_pages, Number,
};

fn doc_with_info(entries: &[(&str, Object)]) -> Document {
    let mut doc = Document::with_version("1.5");
    let mut info = Dictionary::new();
    for (key, value) in entries {
        info.set(*key, value.clone());
    }
    let id = doc.add_object(Object::Dictionary(info));
    doc.trailer.set("Info", Object::Reference(id));
    doc
}

fn literal(bytes: &[u8]) -> Object {
    Object::String(bytes.to_vec(), StringFormat::Literal)
}

/// What a number of a PDF measures.
fn value(n: Number) -> f64 {
    match n {
        Number::Integer(i) => i as f32 as f64,
        Number::Real(bits) => f32::from_bits(bits) as f64,
        Number::Zero => 0.0,
    }
}

/// PDF text strings are UTF-16BE when they carry a byte-order mark, and an 8-bit
/// encoding otherwise — getting this backwards is what turns "Coração" into mojibake.
#[test]
fn utf16_strings_are_decoded_through_their_byte_order_mark() {
    let mut bytes = vec![0xFE, 0xFF];
    for unit in "Coração".encode_utf16() {
        bytes.extend_from_slice(&unit.to_be_bytes());
    }
    assert_eq!(decode_pdf_string(&bytes), "Coração");
}

#[test]
fn strings_without_a_bom_are_read_as_latin1() {
    assert_eq!(decode_pdf_string(&[0x43, 0x6F, 0x72, 0x61, 0xE7, 0xE3, 0x6F]), "Coração");
}

#[test]
fn a_lone_bom_decodes_to_nothing_rather_than_panicking() {
    assert_eq!(decode_pdf_string(&[0xFE, 0xFF]), "");
}

#[test]
fn an_odd_trailing_byte_after_the_bom_is_ignored() {
    let bytes = vec![0xFE, 0xFF, 0x00, 0x41, 0x00];
    assert_eq!(decode_pdf_string(&bytes), "A");
}

#[test]
fn title_and_author_come_from_the_info_dictionary() {
    let doc = doc_with_info(&[("Title", literal(b"Meu Livro")), ("Author", literal(b"Fulano"))]);
    assert_eq!(
        info_metadata(&doc),
        (Some("Meu Livro".to_string()), Some("Fulano".to_string()))
    );
}

#[test]
fn surrounding_whitespace_is_trimmed_off_the_metadata() {
    let doc = doc_with_info(&[("Title", literal(b"  Meu Livro  "))]);
    assert_eq!(info_metadata(&doc).0, Some("Meu Livro".to_string()));
}

#[test]
fn a_blank_title_counts_as_absent_so_the_filename_can_take_over() {
    let doc = doc_with_info(&[("Title", literal(b"   "))]);
    assert_eq!(info_metadata(&doc), (None, None));
}

#[test]
fn a_non_string_title_is_ignored() {
    let doc = doc_with_info(&[("Title", Object::Integer(42))]);
    assert_eq!(info_metadata(&doc).0, None);
}

#[test]
fn a_document_with_no_info_dictionary_reports_nothing() {
    assert_eq!(info_metadata(&Document::with_version("1.5")), (None, None));
}

#[test]
fn numbers_are_read_from_either_pdf_representation() {
    assert_eq!(value(as_num(&Object::Integer(72))), 72.0);
    assert_eq!(value(as_num(&Object::Real(72.5))), 72.5);
    assert_eq!(value(as_num(&Object::Null)), 0.0, "valor não numérico vira zero");
}

#[test]
fn utf16_strings_agree_with_the_standard_decoder() {
    let cases: [&[u16]; 8] = [
        &[0x0041, 0xD83D, 0xDE00, 0x0042],
        &[0xD83D],
        &[0xDE00, 0x0041],
        &[0xD83D, 0xD83D, 0xDE00],
        &[0xD83D, 0x0041],
        &[0xDBFF, 0xDFFF],
        &[0xD800, 0xDC00],
        &[],
    ];
    for units in cases {
        let mut bytes = vec![0xFE, 0xFF];
        for unit in units {
            bytes.extend_from_slice(&unit.to_be_bytes());
        }
        assert_eq!(decode_pdf_string(&bytes), String::from_utf16_lossy(units), "{units:x?}");
    }
}

#[test]
fn every_byte_is_a_latin1_letter_without_a_byte_order_mark() {
    let bytes: Vec<u8> = (0..=255).collect();
    let text = decode_pdf_string(&bytes);
    assert_eq!(text.chars().map(|c| c as u32).collect::<Vec<u32>>(), (0..=255).collect::<Vec<u32>>());
    assert_eq!(decode_pdf_string(&[0xFE]), "\u{fe}");
    assert_eq!(decode_pdf_string(&[0xFF, 0xFE, 0x41]), "\u{ff}\u{fe}A");
}

#[test]
fn the_info_dictionary_may_stand_in_the_trailer_itself() {
    let mut doc = Document::with_version("1.5");
    let mut info = Dictionary::new();
    info.set("Author", literal(b" Fulano "));
    doc.trailer.set("Info", Object::Dictionary(info));
    assert_eq!(info_metadata(&doc), (None, Some("Fulano".to_string())));
}

/// A document of empty pages, each with the entries given, under one node with a media box.
fn doc_with_pages(pages: Vec<Dictionary>) -> (Document, Vec<(u32, u16)>) {
    let mut doc = Document::with_version("1.5");
    let parent = doc.new_object_id();
    let mut kids = Vec::new();
    let count = pages.len() as i64;
    for mut page in pages {
        page.set("Type", Object::Name(b"Page".to_vec()));
        page.set("Parent", Object::Reference(parent));
        kids.push(doc.add_object(Object::Dictionary(page)));
    }
    let mut node = Dictionary::new();
    node.set("Type", Object::Name(b"Pages".to_vec()));
    node.set("Kids", Object::Array(kids.iter().map(|id| Object::Reference(*id)).collect()));
    node.set("Count", Object::Integer(count));
    node.set(
        "MediaBox",
        Object::Array(vec![Object::Integer(0), Object::Real(0.5), Object::Integer(612), Object::Integer(792)]),
    );
    doc.objects.insert(parent, Object::Dictionary(node));
    let mut catalog = Dictionary::new();
    catalog.set("Type", Object::Name(b"Catalog".to_vec()));
    catalog.set("Pages", Object::Reference(parent));
    let catalog = doc.add_object(Object::Dictionary(catalog));
    doc.trailer.set("Root", Object::Reference(catalog));
    (doc, kids)
}

#[test]
fn pages_are_numbered_in_the_order_of_the_tree() {
    let (doc, kids) = doc_with_pages(vec![Dictionary::new(), Dictionary::new(), Dictionary::new()]);
    assert_eq!(list_pages(&doc), vec![(1, kids[0]), (2, kids[1]), (3, kids[2])]);
    assert_eq!(list_pages(&Document::with_version("1.5")), vec![]);
}

#[test]
fn a_page_without_a_media_box_takes_that_of_its_parent() {
    let mut own = Dictionary::new();
    own.set(
        "MediaBox",
        Object::Array(vec![Object::Integer(1), Object::Integer(2), Object::Integer(3), Object::Null]),
    );
    let mut short = Dictionary::new();
    short.set("MediaBox", Object::Array(vec![Object::Integer(1)]));
    let (doc, kids) = doc_with_pages(vec![Dictionary::new(), own, short]);

    let inherited = get_media_box(&doc, kids[0]).unwrap().map(value);
    assert_eq!(inherited, [0.0, 0.5, 612.0, 792.0]);
    assert_eq!(get_media_box(&doc, kids[1]).unwrap().map(value), [1.0, 2.0, 3.0, 0.0]);
    assert_eq!(get_media_box(&doc, kids[2]).unwrap().map(value), [0.0, 0.5, 612.0, 792.0]);
}

#[test]
fn a_page_tree_without_a_media_box_is_an_error() {
    let mut doc = Document::with_version("1.5");
    let page = doc.add_object(Object::Dictionary(Dictionary::new()));
    assert_eq!(get_media_box(&doc, page).map(|_| ()), Err("MediaBox não encontrado".to_string()));
    assert!(get_media_box(&doc, (99, 0)).is_err());

    let mut ring = Dictionary::new();
    ring.set("Parent", Object::Reference(page));
    doc.objects.insert(page, Object::Dictionary(ring));
    assert_eq!(get_media_box(&doc, page).map(|_| ()), Err("MediaBox não encontrado".to_string()));
}

/// A document whose catalog has this entry for its language.
fn doc_in(language: Object) -> Document {
    let mut doc = Document::with_version("1.5");
    let mut catalog = Dictionary::new();
    catalog.set("Lang", language);
    let catalog = doc.add_object(Object::Dictionary(catalog));
    doc.trailer.set("Root", Object::Reference(catalog));
    doc
}

#[test]
fn the_language_comes_from_the_catalog() {
    assert_eq!(info_language(&doc_in(literal(b" en-US "))), Some("en-US".to_string()));
    assert_eq!(info_language(&doc_in(literal(b"  "))), None);
    assert_eq!(info_language(&doc_in(Object::Integer(1))), None);
    assert_eq!(info_language(&Document::with_version("1.5")), None);
    let mut doc = doc_in(Object::Reference((90, 0)));
    assert_eq!(info_language(&doc), None);
    doc.objects.insert((90, 0), literal(b"fr"));
    assert_eq!(info_language(&doc), Some("fr".to_string()));
}

#[test]
fn a_count_of_pages_that_is_not_true_does_no_harm() {
    let (mut doc, ids) = doc_with_pages(vec![Dictionary::new(), Dictionary::new()]);
    let mut node = Dictionary::new();
    node.set("Type", Object::Name(b"Pages".to_vec()));
    node.set("Count", Object::Integer(i64::MAX));
    node.set("Kids", Object::Array(ids.iter().map(|id| Object::Reference(*id)).collect()));
    let node = doc.add_object(Object::Dictionary(node));
    let mut root = Dictionary::new();
    root.set("Type", Object::Name(b"Pages".to_vec()));
    root.set("Kids", Object::Array(vec![Object::Reference(node), Object::Reference(node)]));
    let root = doc.add_object(Object::Dictionary(root));
    let mut catalog = Dictionary::new();
    catalog.set("Pages", Object::Reference(root));
    let catalog = doc.add_object(Object::Dictionary(catalog));
    doc.trailer.set("Root", Object::Reference(catalog));
    let pages = list_pages(&doc);
    assert_eq!(pages, vec![(1, ids[0]), (2, ids[1]), (3, ids[0]), (4, ids[1])]);
}
