use pdf_to_epub::cover::Cover;
use pdf_to_epub::pdf_model::ImageAsset;
use pdf_to_epub::preview::{data_uri, inline_images, preview_page, replace_all};

fn jpeg(filename: &str, width: u32, height: u32) -> ImageAsset {
    ImageAsset {
        filename: filename.to_string(),
        bytes: vec![0xFF, 0xD8, 0xFF, 0xD9],
        mime: "image/jpeg",
        width,
        height,
    }
}

fn png(filename: &str, width: u32, height: u32) -> ImageAsset {
    ImageAsset {
        filename: filename.to_string(),
        bytes: vec![0x89, b'P', b'N', b'G'],
        mime: "image/png",
        width,
        height,
    }
}

#[test]
fn a_data_uri_carries_the_declared_mime_type() {
    assert_eq!(data_uri(b"abc", "image/png"), "data:image/png;base64,YWJj");
}

#[test]
fn every_image_reference_is_replaced_by_its_data_uri() {
    let images = [jpeg("a.jpg", 10, 10), png("b.png", 10, 10)];
    let html = r#"<img src="images/a.jpg"/><img src="images/b.png"/>"#;
    let out = inline_images(html, &images);

    assert!(!out.contains("images/"), "sobrou caminho relativo: {out}");
    assert_eq!(out.matches("data:image/jpeg;base64,").count(), 1);
    assert_eq!(out.matches("data:image/png;base64,").count(), 1);
}

#[test]
fn the_same_image_used_twice_is_inlined_in_both_places() {
    let images = [jpeg("a.jpg", 10, 10)];
    let out = inline_images(r#"<img src="images/a.jpg"/><img src="images/a.jpg"/>"#, &images);
    assert_eq!(out.matches("data:image/jpeg").count(), 2);
}

#[test]
fn an_image_the_html_never_references_changes_nothing() {
    let images = [jpeg("orfa.jpg", 10, 10)];
    assert_eq!(inline_images("<p>oi</p>", &images), "<p>oi</p>");
}

#[test]
fn bytes_of_every_length_are_padded_to_whole_quartets() {
    assert_eq!(data_uri(b"", "m"), "data:m;base64,");
    assert_eq!(data_uri(b"f", "m"), "data:m;base64,Zg==");
    assert_eq!(data_uri(b"fo", "m"), "data:m;base64,Zm8=");
    assert_eq!(data_uri(b"foob", "m"), "data:m;base64,Zm9vYg==");
    assert_eq!(data_uri(&[0xFB, 0xEF, 0xBE, 0xFF, 0xFF, 0xFF], "m"), "data:m;base64,++++////");
    assert_eq!(data_uri(&[0, 0, 0, 61, 247], "m"), "data:m;base64,AAAAPfc=");
}

#[test]
fn occurrences_are_replaced_from_the_left_and_do_not_overlap() {
    let cases = [
        ("aaaa", "aa", "b"),
        ("aaaaa", "aa", "b"),
        ("abcabc", "abc", ""),
        ("nada", "x", "y"),
        ("", "x", "y"),
        ("ção", "ç", "c,"),
        ("xaxax", "x", "xx"),
    ];
    for (text, needle, with) in cases {
        assert_eq!(replace_all(text, needle, with), text.replace(needle, with), "{text}");
    }
}

#[test]
fn the_preview_shows_the_cover_and_then_every_chapter() {
    let cover = Cover {
        filename: "cover.jpg".to_string(),
        mime: "image/jpeg",
        bytes: vec![1, 2, 3],
        width: 1,
        height: 1,
        consumed_image: None,
    };
    let chapters = vec![
        ("Um".to_string(), "<p>a</p>\n".to_string()),
        ("Dois & Três".to_string(), "<img src=\"images/a.jpg\"/>".to_string()),
    ];
    let page = preview_page(&chapters, &[jpeg("a.jpg", 1, 1)], &cover, "T < 1", "A");
    let expected = concat(&[
        "<!doctype html><html><head><meta charset=\"utf-8\"><title>Preview: T &lt; 1</title>",
        "<style>body{max-width:700px;margin:2rem auto;font-family:Georgia,serif;line-height:1.5;padding:0 1rem}",
        "img{max-width:100%;display:block;margin:1rem auto}",
        "img.cover{max-height:80vh;box-shadow:0 2px 12px rgba(0,0,0,.3)}h2{border-top:1px solid #ccc;padding-top:1rem}</style>",
        "</head><body>",
        "<img class=\"cover\" src=\"data:image/jpeg;base64,AQID\" alt=\"Capa\"/>\n<h1>T &lt; 1</h1>\n<p><em>A</em></p>\n",
        "<h2 id=\"chap1\">Um</h2>\n<p>a</p>\n\n<hr/>\n",
        "<h2 id=\"chap2\">Dois &amp; Três</h2>\n<img src=\"data:image/jpeg;base64,/9j/2Q==\"/>\n<hr/>\n",
        "</body></html>",
    ]);
    assert_eq!(page, expected);
}

fn concat(parts: &[&str]) -> String {
    parts.concat()
}

#[test]
fn no_path_of_a_picture_is_left_in_the_preview() {
    let images = [png("img_1_0.png", 1, 1), jpeg("img_11_0.jpg", 1, 1), png("img_1_0.png", 1, 1)];
    let html = "<p>images/img_1_0.png</p><img src=\"images/img_11_0.jpg\"/>images/img_1_0.pngimages/img_1_0.png";
    let out = inline_images(html, &images);
    assert!(images.iter().all(|image| !out.contains(&format!("images/{}", image.filename))), "{out}");

    let mut odd = png("img_1_0.png", 1, 1);
    odd.bytes = vec![0, 0, 34];
    let out = inline_images("images/img_1_0.pngmages/img_1_0.png", &[odd]);
    assert!(out.ends_with("AAAimages/img_1_0.png"), "o fim dos dados completa um caminho: {out}");
}
