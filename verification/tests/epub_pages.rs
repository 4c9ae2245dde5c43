use pdf_to_epub::cover::{cover_xhtml, Cover};
use pdf_to_epub::epub_gen::{
    blocks_to_html, escape_html, resources_to_write, xhtml_document, STYLESHEET,
};
use pdf_to_epub::layout::Block;
use pdf_to_epub::pdf_model::ImageAsset;

fn jpeg(filename: &str, width: u32, height: u32) -> ImageAsset {
    ImageAsset {
        filename: filename.to_string(),
        bytes: vec![0xFF, 0xD8, 0xFF, 0xD9],
        mime: "image/jpeg",
        width,
        height,
    }
}

fn some_cover() -> Cover {
    Cover {
        filename: "cover.jpg".to_string(),
        mime: "image/jpeg",
        bytes: vec![0xFF, 0xD8, 0xFF, 0xD9],
        width: 800,
        height: 1280,
        consumed_image: None,
    }
}

fn render(blocks: Vec<Block>, images: &[ImageAsset]) -> String {
    blocks_to_html(&blocks, images)
}

#[test]
fn the_cover_page_declares_the_real_dimensions() {
    let cover = Cover {
        filename: "cover.png".to_string(),
        mime: "image/png",
        bytes: vec![],
        width: 640,
        height: 960,
        consumed_image: None,
    };
    let xhtml = cover_xhtml(&cover);

    assert!(xhtml.contains(r#"viewBox="0 0 640 960""#), "{xhtml}");
    assert!(xhtml.contains(r#"xlink:href="cover.png""#), "{xhtml}");
    assert!(xhtml.contains(r#"epub:type="cover""#), "{xhtml}");
}

#[test]
fn the_cover_page_is_well_formed_xml() {
    // The cover page is hand-built rather than templated, so a stray character here
    // would break the whole EPUB for strict readers.
    let xhtml = cover_xhtml(&some_cover());
    let mut depth = 0i32;
    for (i, _) in xhtml.match_indices("<svg") {
        assert!(xhtml[i..].contains("</svg>"));
        depth += 1;
    }
    assert_eq!(depth, 1);
    assert_eq!(xhtml.matches("<body").count(), xhtml.matches("</body>").count());
}

#[test]
fn the_cover_page_is_written_out_in_full() {
    let expected = "<?xml version=\"1.0\" encoding=\"UTF-8\"?>\n\
<!DOCTYPE html>\n\
<html xmlns=\"http://www.w3.org/1999/xhtml\" xmlns:epub=\"http://www.idpf.org/2007/ops\">\n\
<head><title>Capa</title><meta charset=\"utf-8\"/>\n\
<style>body{margin:0;padding:0;}</style></head>\n\
<body epub:type=\"cover\">\n\
<div style=\"text-align:center;page-break-after:always;\">\n\
<svg xmlns=\"http://www.w3.org/2000/svg\" xmlns:xlink=\"http://www.w3.org/1999/xlink\" \
version=\"1.1\" width=\"100%\" height=\"100%\" viewBox=\"0 0 800 1280\" \
preserveAspectRatio=\"xMidYMid meet\">\n  <image width=\"800\" height=\"1280\" \
xlink:href=\"cover.jpg\"/>\n</svg>\n</div>\n</body>\n</html>\n";
    assert_eq!(cover_xhtml(&some_cover()), expected);
}

#[test]
fn escapes_xml_text_markers() {
    assert_eq!(escape_html("a & b < c > d"), "a &amp; b &lt; c &gt; d");
}

#[test]
fn escapes_double_quotes_for_attribute_use() {
    // `escape_html` is what guards the `xlink:href` attribute of the cover page, so an
    // unescaped double quote there would break out of the attribute.
    assert_eq!(escape_html(r#"a"b"#), "a&quot;b");
}

#[test]
fn escaped_text_is_told_apart_from_text_that_looks_escaped() {
    assert_eq!(escape_html("&lt;"), "&amp;lt;");
    assert_eq!(escape_html("<"), "&lt;");
    assert_eq!(escape_html(""), "");
    assert_eq!(escape_html("ção '"), "ção '");
}

#[test]
fn each_kind_of_block_gets_its_own_markup() {
    let images = [jpeg("foto.jpg", 100, 100)];
    let html = render(
        vec![
            Block::Heading("Um subtítulo".into()),
            Block::Paragraph("Um parágrafo.".into()),
            Block::Image(0),
            Block::Caption("Figura 1".into()),
            Block::RightAligned("— Disraeli".into()),
        ],
        &images,
    );
    assert_eq!(
        html,
        "<h2>Um subtítulo</h2>\n\
         <p>Um parágrafo.</p>\n\
         <img src=\"images/foto.jpg\" alt=\"\"/>\n\
         <p class=\"legenda\">Figura 1</p>\n\
         <p class=\"direita\">— Disraeli</p>\n"
    );
}

#[test]
fn block_text_is_escaped() {
    let html = render(vec![Block::Paragraph("a & b < c".into())], &[]);
    assert_eq!(html, "<p>a &amp; b &lt; c</p>\n");
}

#[test]
fn an_image_index_with_no_asset_is_skipped_silently() {
    let html = render(vec![Block::Paragraph("Texto.".into()), Block::Image(7)], &[]);
    assert_eq!(html, "<p>Texto.</p>\n");
}

#[test]
fn the_stylesheet_styles_every_class_the_body_can_emit() {
    let css = STYLESHEET;
    for needed in ["h1", "h2", "p.legenda", "p.direita", "img"] {
        assert!(css.contains(needed), "faltou regra para {needed} em:\n{css}");
    }
}

fn written(images: &[ImageAsset], skip: Option<usize>) -> Vec<String> {
    resources_to_write(images, skip)
        .into_iter()
        .map(|(_, a)| a.filename.clone())
        .collect()
}

/// The same picture drawn on several pages is extracted once per page, so it arrives here as
/// several assets sharing one filename. Writing it repeatedly would put duplicate entries in
/// the zip and duplicate ids in the manifest.
#[test]
fn a_picture_repeated_across_pages_is_written_to_the_epub_once() {
    let images = [
        jpeg("img_9_0.jpg", 500, 500),
        jpeg("outra.jpg", 100, 100),
        jpeg("img_9_0.jpg", 500, 500),
    ];
    assert_eq!(written(&images, None), vec!["img_9_0.jpg", "outra.jpg"]);
}

#[test]
fn the_image_promoted_to_cover_is_not_written_twice() {
    let images = [jpeg("capa.jpg", 900, 1400), jpeg("foto.jpg", 100, 100)];
    assert_eq!(written(&images, Some(0)), vec!["foto.jpg"]);
}

#[test]
fn a_second_use_of_the_cover_picture_is_still_written() {
    let images = [jpeg("a.jpg", 900, 1400), jpeg("a.jpg", 900, 1400)];
    assert_eq!(written(&images, Some(0)), vec!["a.jpg"]);
}

#[test]
fn resources_keep_their_original_indices_for_body_references() {
    let images = [jpeg("a.jpg", 10, 10), jpeg("b.jpg", 10, 10)];
    let indices: Vec<usize> = resources_to_write(&images, Some(0))
        .into_iter()
        .map(|(i, _)| i)
        .collect();
    assert_eq!(indices, vec![1]);
}

#[test]
fn chapter_title_is_escaped_in_both_head_and_heading() {
    let doc = xhtml_document("Fome & Sede", "<p>oi</p>");
    assert!(doc.contains("<title>Fome &amp; Sede</title>"), "{doc}");
    assert!(doc.contains("<h1>Fome &amp; Sede</h1>"), "{doc}");
}

#[test]
fn a_page_is_written_out_in_full() {
    assert_eq!(
        xhtml_document("T", "<p>oi</p>"),
        "<?xml version=\"1.0\" encoding=\"UTF-8\"?>\n<!DOCTYPE html>\n\
<html xmlns=\"http://www.w3.org/1999/xhtml\" xmlns:epub=\"http://www.idpf.org/2007/ops\">\n\
<head><title>T</title><meta charset=\"utf-8\"/></head>\n\
<body>\n<h1>T</h1>\n<p>oi</p>\n</body>\n</html>\n"
    );
}

#[test]
fn replacing_the_entities_gives_the_text_back() {
    for text in ["a < b & \"c\" > d", "&lt;", "&amp;lt;", "&&;<<>>\"", ""] {
        let written = escape_html(text);
        let back =
            written.replace("&lt;", "<").replace("&gt;", ">").replace("&quot;", "\"").replace("&amp;", "&");
        assert_eq!(back, text);
        for (at, _) in written.match_indices('&') {
            let rest = &written[at..];
            assert!(["&amp;", "&lt;", "&gt;", "&quot;"].iter().any(|entity| rest.starts_with(entity)));
        }
    }
}
