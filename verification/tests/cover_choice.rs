use image::{DynamicImage, ImageFormat, Rgb, RgbImage};
use pdf_to_epub::cover::{
    cover_from_bytes, cover_from_canvas, cover_from_decoded, detect_in_pdf, generate, select_cover, set_cover_lines,
    Cover, CoverLine, ExplicitCover, PictureFormat, GEN_HEIGHT, GEN_MARGIN, GEN_WIDTH,
};
use pdf_to_epub::pdf_model::{ExtractedDoc, FlowEvent, ImageAsset, PageFlow, TextRun};
use pdf_to_epub::typeset::{break_to_fit, wrap_text, Face};

/// A measure in points in the units of the library.
fn units(v: f64) -> i64 {
    (v * 1_000_000.0).round() as i64
}

/// A fraction of the page width in the parts of the library.
fn share(v: f64) -> i64 {
    (v * 1e15).round() as i64
}

fn line(text: &str, y: f64, font_size: f64) -> FlowEvent {
    FlowEvent::Line(TextRun {
        text: text.to_string(),
        y: units(y),
        font_size: units(font_size),
        x_start: share(0.12),
    })
}

fn page(page_num: u32, events: Vec<FlowEvent>) -> PageFlow {
    let events = events.into_iter().enumerate().map(|(i, e)| (units(i as f64 * 10.0), e)).collect();
    PageFlow { page_num, events }
}

fn doc(pages: Vec<PageFlow>, images: Vec<ImageAsset>) -> ExtractedDoc {
    ExtractedDoc { pages, images }
}

fn jpeg(filename: &str, width: u32, height: u32) -> ImageAsset {
    ImageAsset {
        filename: filename.to_string(),
        bytes: vec![0xFF, 0xD8, 0xFF, 0xD9],
        mime: "image/jpeg",
        width,
        height,
    }
}

fn png(filename: &str, width: u32, height: u32) -> ImageAsset {
    ImageAsset {
        filename: filename.to_string(),
        bytes: vec![0x89, b'P', b'N', b'G'],
        mime: "image/png",
        width,
        height,
    }
}

fn real_bytes(width: u32, height: u32, format: ImageFormat) -> Vec<u8> {
    let img = RgbImage::from_pixel(width, height, Rgb([10, 20, 30]));
    let mut buf = Vec::new();
    DynamicImage::ImageRgb8(img)
        .write_to(&mut std::io::Cursor::new(&mut buf), format)
        .expect("imagem de teste");
    buf
}

/// A ruler for a face whose letters are all six tenths as wide as they are tall.
fn width_of(text: &str, size: u32) -> u32 {
    text.chars().count() as u32 * size * 6 / 10
}

fn fits_cover(_face: Face, text: &str, size: u32) -> bool {
    width_of(text, size) <= GEN_WIDTH - 2 * GEN_MARGIN
}

/// A painter that shows every line as a light bar, as wide as the ruler says, on a dark ground.
fn paint_bars(lines: &Vec<CoverLine>) -> Vec<u8> {
    let mut canvas: Vec<u8> = Vec::new();
    for _ in 0..GEN_WIDTH * GEN_HEIGHT {
        canvas.extend_from_slice(&[0x1c, 0x24, 0x33]);
    }
    for line in lines {
        let width = width_of(&line.text, line.size).min(GEN_WIDTH);
        let left = (GEN_WIDTH - width) / 2;
        let top = (line.top / 400) as u32;
        for y in top..(top + line.size).min(GEN_HEIGHT) {
            for x in left..left + width {
                let at = ((y * GEN_WIDTH + x) * 3) as usize;
                canvas[at..at + 3].copy_from_slice(&[0xf5, 0xf7, 0xfa]);
            }
        }
    }
    canvas
}

fn decode(bytes: &[u8]) -> Result<(u32, u32, Vec<u8>), String> {
    let picture = image::load_from_memory(bytes).map_err(|e| e.to_string())?.to_rgb8();
    Ok((picture.width(), picture.height(), picture.into_raw()))
}

fn pick_cover(doc: &ExtractedDoc, explicit: Option<ExplicitCover>, title: &str, author: &str) -> Cover {
    let mut log = Vec::new();
    select_cover(doc, explicit, title, author, &decode, &fits_cover, &paint_bars, &mut log)
}

#[test]
fn an_explicit_file_wins_over_anything_in_the_pdf() {
    let given = ExplicitCover {
        name: "capa.png".to_string(),
        content: Ok(real_bytes(700, 1100, ImageFormat::Png)),
    };
    let d = doc(vec![page(1, vec![FlowEvent::Image(0)])], vec![jpeg("p1.jpg", 900, 1400)]);
    let cover = pick_cover(&d, Some(given), "T", "A");

    assert_eq!((cover.width, cover.height), (700, 1100));
    assert_eq!(cover.mime, "image/png");
    assert_eq!(cover.consumed_image, None, "arquivo externo não consome imagem do PDF");
}

#[test]
fn an_unreadable_explicit_file_falls_back_to_detection_instead_of_failing() {
    let given = ExplicitCover {
        name: "/nao/existe/capa.jpg".to_string(),
        content: Err("No such file or directory (os error 2)".to_string()),
    };
    let d = doc(vec![page(1, vec![FlowEvent::Image(0)])], vec![jpeg("p1.jpg", 900, 1400)]);
    let cover = pick_cover(&d, Some(given), "T", "A");

    assert_eq!((cover.width, cover.height), (900, 1400));
    assert_eq!(cover.consumed_image, Some(0));
}

#[test]
fn detection_takes_the_largest_image_on_the_opening_page() {
    let d = doc(
        vec![page(1, vec![FlowEvent::Image(0), FlowEvent::Image(1), FlowEvent::Image(2)])],
        vec![jpeg("a.jpg", 400, 600), jpeg("b.jpg", 900, 1400), jpeg("c.jpg", 500, 800)],
    );
    let cover = pick_cover(&d, None, "T", "A");

    assert_eq!(cover.consumed_image, Some(1));
    assert_eq!(cover.filename, "cover.jpg");
}

#[test]
fn a_png_cover_keeps_its_extension_and_mime() {
    let d = doc(vec![page(1, vec![FlowEvent::Image(0)])], vec![png("a.png", 900, 1400)]);
    let cover = pick_cover(&d, None, "T", "A");

    assert_eq!(cover.filename, "cover.png");
    assert_eq!(cover.mime, "image/png");
}

#[test]
fn an_ornament_sized_image_is_not_mistaken_for_cover_art() {
    let d = doc(vec![page(1, vec![FlowEvent::Image(0)])], vec![jpeg("logo.jpg", 120, 60)]);
    let cover = pick_cover(&d, None, "Título", "Autor");

    assert_eq!(cover.consumed_image, None, "deve gerar a capa, não usar o logo");
    assert_eq!((cover.width, cover.height), (GEN_WIDTH, GEN_HEIGHT));
}

#[test]
fn detection_falls_through_to_the_second_page() {
    let d = doc(
        vec![
            page(1, vec![line("Folha de rosto", 0.0, 12.0)]),
            page(2, vec![FlowEvent::Image(0)]),
        ],
        vec![jpeg("capa.jpg", 900, 1400)],
    );
    let cover = pick_cover(&d, None, "T", "A");

    assert_eq!(cover.consumed_image, Some(0));
}

#[test]
fn an_image_deeper_in_the_book_is_never_used_as_cover() {
    let d = doc(
        vec![
            page(1, vec![line("Rosto", 0.0, 12.0)]),
            page(2, vec![line("Sumário", 0.0, 12.0)]),
            page(3, vec![FlowEvent::Image(0)]),
        ],
        vec![jpeg("meio.jpg", 900, 1400)],
    );
    let cover = pick_cover(&d, None, "Título", "Autor");

    assert_eq!(cover.consumed_image, None);
    assert_eq!((cover.width, cover.height), (GEN_WIDTH, GEN_HEIGHT));
}

#[test]
fn a_document_with_no_images_at_all_still_gets_a_cover() {
    let d = doc(vec![page(1, vec![line("Só texto", 0.0, 12.0)])], vec![]);
    let cover = pick_cover(&d, None, "Título", "Autor");

    assert_eq!(cover.mime, "image/jpeg");
    assert!(!cover.bytes.is_empty());
    assert_eq!((cover.width, cover.height), (GEN_WIDTH, GEN_HEIGHT));
}

#[test]
fn an_empty_document_does_not_panic() {
    let cover = pick_cover(&doc(vec![], vec![]), None, "Título", "");
    assert_eq!((cover.width, cover.height), (GEN_WIDTH, GEN_HEIGHT));
}

/// A title made of one unbreakable word can't be wrapped, so the only way to keep it
/// inside the art is to shrink it until it fits the width.
#[test]
fn a_single_very_long_word_stays_inside_the_generated_cover() {
    let cover = generate(
        "Pneumoultramicroscopicossilicovulcanoconiotico",
        "Autor",
        &fits_cover,
        &paint_bars,
    );
    let img = image::load_from_memory(&cover.bytes).unwrap().to_rgb8();

    let margin = GEN_WIDTH / 16; // metade da margem de layout, para tolerar o JPEG
    let mut leftmost = GEN_WIDTH;
    let mut rightmost = 0;
    for (x, _y, px) in img.enumerate_pixels() {
        // fundo é escuro (0x1c2433); qualquer coisa clara é texto
        if px.0[0] > 90 && px.0[1] > 90 && px.0[2] > 90 {
            leftmost = leftmost.min(x);
            rightmost = rightmost.max(x);
        }
    }
    assert!(leftmost >= margin, "texto encosta na borda esquerda (x={leftmost})");
    assert!(
        rightmost <= GEN_WIDTH - margin,
        "texto vaza pela borda direita (x={rightmost}, largura={GEN_WIDTH})"
    );
    assert!(leftmost < rightmost, "nada foi desenhado");
}

#[test]
fn wrapping_breaks_on_words_and_keeps_them_whole() {
    let fits = |_face: Face, text: &str, size: u32| width_of(text, size) <= 800;
    let lines = wrap_text("um dois tres quatro cinco seis sete oito", Face::Title, 140, &fits);

    assert!(lines.len() > 1, "esperava quebra em várias linhas: {lines:?}");
    assert_eq!(lines.join(" "), "um dois tres quatro cinco seis sete oito");
}

#[test]
fn wrapping_collapses_runs_of_whitespace() {
    let fits = |_face: Face, text: &str, size: u32| width_of(text, size) <= 4000;
    assert_eq!(wrap_text("  a \n\t b  ", Face::Title, 40, &fits), vec!["a b".to_string()]);
}

#[test]
fn lines_are_filled_as_far_as_they_fit() {
    let ten = |_face: Face, text: &str, _size: u32| text.chars().count() <= 10;
    assert_eq!(
        wrap_text("um dois tres quatro cinco", Face::Body, 1, &ten),
        vec!["um dois", "tres", "quatro", "cinco"]
    );
    assert_eq!(
        wrap_text("dez letras", Face::Body, 1, &ten),
        vec!["dez letras"]
    );
    assert!(wrap_text(" \n ", Face::Body, 1, &ten).is_empty());
}

#[test]
fn a_word_too_long_for_a_line_is_broken_into_pieces_that_fit() {
    let five = |_face: Face, text: &str, _size: u32| text.chars().count() <= 5;
    let pieces = break_to_fit("inconstitucional", Face::Title, 1, &five);
    assert_eq!(pieces, vec!["incon", "stitu", "ciona", "l"]);
    assert_eq!(break_to_fit("curto", Face::Title, 1, &five), vec!["curto"]);

    let never = |_face: Face, _text: &str, _size: u32| false;
    assert_eq!(break_to_fit("abc", Face::Title, 1, &never), vec!["a", "b", "c"]);
}

#[test]
fn a_second_picture_of_the_same_area_takes_the_place_of_the_first() {
    let d = doc(
        vec![page(1, vec![FlowEvent::Image(0), FlowEvent::Image(1)])],
        vec![jpeg("a.jpg", 800, 1000), png("b.png", 1000, 800)],
    );
    let cover = pick_cover(&d, None, "T", "A");
    assert_eq!(cover.consumed_image, Some(1));
    assert_eq!(cover.filename, "cover.png");
}

#[test]
fn what_the_detection_decided_is_logged() {
    let d = doc(
        vec![page(1, vec![FlowEvent::Image(0)]), page(2, vec![FlowEvent::Image(1), FlowEvent::Image(7)])],
        vec![jpeg("logo.jpg", 120, 60), jpeg("capa.jpg", 400, 600)],
    );
    let mut log = Vec::new();
    let cover = detect_in_pdf(&d, &mut log).unwrap();
    assert_eq!(cover.consumed_image, Some(1));
    assert_eq!(
        log,
        vec![
            "capa: maior imagem da página 1 é pequena demais (120x60), ignorando",
            "capa: usando a imagem capa.jpg da página 2 (400x600)",
            "capa: atenção — abaixo de 625x1000, a miniatura no Kindle pode sair borrada (use --cover para uma imagem maior)",
        ]
    );
}

#[test]
fn what_came_of_the_file_that_was_given_is_logged() {
    let d = doc(vec![], vec![]);
    let mut log = Vec::new();
    let given = ExplicitCover { name: "capa.bmp".to_string(), content: Ok(real_bytes(30, 20, ImageFormat::Bmp)) };
    select_cover(&d, Some(given), "T", "A", &decode, &fits_cover, &paint_bars, &mut log);
    assert_eq!(log, vec!["capa: arquivo informado capa.bmp (30x20)"]);

    let mut log = Vec::new();
    let given = ExplicitCover { name: "x".to_string(), content: Err("negado".to_string()) };
    select_cover(&d, Some(given), "T", "A", &decode, &fits_cover, &paint_bars, &mut log);
    assert_eq!(
        log,
        vec![
            "capa: não consegui usar x (negado), tentando detectar no PDF",
            "capa: nenhuma imagem adequada no PDF, gerando capa com título e autor (1600x2560)",
        ]
    );
}

#[test]
fn jpeg_and_png_files_are_kept_as_they_are_and_others_become_jpeg() {
    let given = real_bytes(9, 7, ImageFormat::Jpeg);
    let cover = cover_from_bytes(given.clone(), &decode).unwrap();
    assert_eq!((cover.filename.as_str(), cover.mime, cover.width, cover.height), ("cover.jpg", "image/jpeg", 9, 7));
    assert_eq!(cover.bytes, given);
    assert_eq!(cover.consumed_image, None);

    let given = real_bytes(9, 7, ImageFormat::Png);
    let cover = cover_from_bytes(given.clone(), &decode).unwrap();
    assert_eq!((cover.filename.as_str(), cover.mime), ("cover.png", "image/png"));
    assert_eq!(cover.bytes, given);

    let given = real_bytes(9, 7, ImageFormat::Bmp);
    let cover = cover_from_bytes(given.clone(), &decode).unwrap();
    assert_eq!((cover.filename.as_str(), cover.mime, cover.width, cover.height), ("cover.jpg", "image/jpeg", 9, 7));
    assert_eq!(&cover.bytes[..3], &[0xFF, 0xD8, 0xFF]);
}

#[test]
fn bytes_that_are_no_picture_are_refused() {
    assert!(cover_from_bytes(b"isto nao e uma imagem".to_vec(), &decode).is_err());
    assert!(cover_from_bytes(vec![0x89, b'P', b'N', b'G', 13, 10, 26, 10], &decode).is_err());
    assert!(cover_from_bytes(vec![], &decode).is_err());
}

#[test]
fn a_painted_canvas_becomes_a_jpeg_of_its_size() {
    let canvas = vec![200u8; (GEN_WIDTH * GEN_HEIGHT * 3) as usize];
    let cover = cover_from_canvas(canvas);
    assert_eq!((cover.width, cover.height), (1600, 2560));
    assert_eq!((cover.filename.as_str(), cover.mime), ("cover.jpg", "image/jpeg"));
    let img = image::load_from_memory(&cover.bytes).unwrap().to_rgb8();
    assert_eq!(img.dimensions(), (1600, 2560));
    let px = img.get_pixel(800, 1280).0;
    assert!(px.iter().all(|v| (*v as i32 - 200).abs() < 4), "{px:?}");
}

#[test]
fn every_line_of_the_cover_fits_and_the_author_stands_below_the_title() {
    let lines = set_cover_lines("Como Mentir com Estatística", "Darrell Huff", &fits_cover);
    let title: Vec<&CoverLine> = lines.iter().filter(|l| matches!(l.face, Face::Title)).collect();
    let author: Vec<&CoverLine> = lines.iter().filter(|l| matches!(l.face, Face::Body)).collect();
    let words: Vec<&str> = title.iter().map(|l| l.text.as_str()).collect();
    assert_eq!(words.join(" "), "Como Mentir com Estatística");
    assert_eq!(author.len(), 1);
    assert_eq!(author[0].text, "Darrell Huff");
    for l in &lines {
        assert!(fits_cover(Face::Title, &l.text, l.size), "{}", l.text);
    }
    for pair in lines.windows(2) {
        assert!(pair[0].top < pair[1].top);
    }
}

#[test]
fn a_short_title_and_author_stand_a_little_above_the_middle() {
    let lines = set_cover_lines("Curto", " Autor ", &fits_cover);
    assert_eq!(lines.len(), 2);
    // In 400ths of a pixel: 893.52 and 1257.52 pixels from the top.
    assert_eq!((lines[0].text.as_str(), lines[0].size, lines[0].top), ("Curto", 140, 357_408));
    assert_eq!((lines[1].text.as_str(), lines[1].size, lines[1].top), ("Autor", 72, 503_008));

    let alone = set_cover_lines("Curto", "  ", &fits_cover);
    // One line of 182 pixels: (2560 - 182) / 2 * 0.85 is 1010.65.
    assert_eq!(alone.len(), 1);
    assert_eq!(alone[0].top, 404_260);
}

#[test]
fn a_long_title_is_set_smaller_until_its_words_fit() {
    // Sixteen letters of six tenths of the size fit 1200 pixels from 125 down; sizes go down
    // from 140 by eights.
    let lines = set_cover_lines("constitucionales", "", &fits_cover);
    assert_eq!((lines.len(), lines[0].size), (1, 124));

    // Forty-six letters would need a size of 43, and 36 is the first size tried at or below 40.
    let lines = set_cover_lines("Pneumoultramicroscopicossilicovulcanoconiotico", "", &fits_cover);
    assert_eq!((lines.len(), lines[0].size), (1, 36));
}

#[test]
fn a_decoded_file_is_kept_or_encoded_by_its_format() {
    let pixel = || Ok((1u32, 1u32, vec![200u8, 100, 50]));
    let cover = cover_from_decoded(vec![1, 2], pixel(), Ok(PictureFormat::Png)).unwrap();
    assert_eq!((cover.filename.as_str(), cover.mime, cover.bytes), ("cover.png", "image/png", vec![1, 2]));
    let cover = cover_from_decoded(vec![1, 2], pixel(), Ok(PictureFormat::Jpeg)).unwrap();
    assert_eq!((cover.filename.as_str(), cover.mime, cover.bytes), ("cover.jpg", "image/jpeg", vec![1, 2]));
    let cover = cover_from_decoded(vec![1, 2], pixel(), Ok(PictureFormat::Other)).unwrap();
    assert_eq!(image::guess_format(&cover.bytes).unwrap(), ImageFormat::Jpeg);

    let unreadable = cover_from_decoded(vec![], Err("a".to_string()), Err("b".to_string()));
    assert_eq!(unreadable.unwrap_err(), "a");
    let unknown = cover_from_decoded(vec![], pixel(), Err("b".to_string()));
    assert_eq!(unknown.unwrap_err(), "b");
    let empty = cover_from_decoded(vec![], Ok((0, 0, vec![])), Ok(PictureFormat::Other));
    assert!(empty.is_err(), "uma imagem sem pixels não vira JPEG");
}

#[test]
fn what_the_decoder_says_of_a_file_decides() {
    let refuse = |_: &[u8]| -> Result<(u32, u32, Vec<u8>), String> { Err("não decodifico".to_string()) };
    for format in [ImageFormat::Png, ImageFormat::Jpeg, ImageFormat::Bmp, ImageFormat::Gif] {
        let outcome = cover_from_bytes(real_bytes(9, 7, format), &refuse);
        assert_eq!(outcome.map(|_| ()).unwrap_err(), "não decodifico");
    }
    let outcome = cover_from_bytes(b"nada".to_vec(), &refuse);
    assert_ne!(outcome.map(|_| ()).unwrap_err(), "não decodifico", "nem chega ao decodificador");
}

#[test]
fn a_decoded_picture_without_all_its_samples_is_refused() {
    let cut = |_: &[u8]| -> Result<(u32, u32, Vec<u8>), String> { Ok((2, 2, vec![0; 11])) };
    let outcome = cover_from_bytes(real_bytes(2, 2, ImageFormat::Bmp), &cut);
    assert_eq!(outcome.map(|_| ()).unwrap_err(), "imagem incompleta");
}

#[test]
fn a_drawn_cover_has_bytes_whatever_was_painted() {
    for samples in [vec![], vec![7; 5]] {
        assert!(!cover_from_canvas(samples).bytes.is_empty());
    }
}
