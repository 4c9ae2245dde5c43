use image::ImageFormat;
use lopdf::{Dictionary, Document, Object, Stream, StringFormat};
use pdf_to_epub::color::cmyk_to_rgb;
use pdf_to_epub::images::{
    build_asset, build_assets, decode_indexed, decode_raster, extract_page_images, png_asset, unpack_bits, PdfPicture,
};

fn name(text: &str) -> Object {
    Object::Name(text.as_bytes().to_vec())
}

fn empty() -> (Dictionary, Document) {
    (Dictionary::new(), Document::with_version("1.5"))
}

fn raster(raw: &[u8], width: u32, height: u32, bpc: i64, space: &str) -> Result<(bool, Vec<u8>), String> {
    let (dict, doc) = empty();
    decode_raster(raw, width, height, bpc, space, &dict, &doc).map(|r| (r.is_gray, r.samples))
}

#[test]
fn every_mix_of_an_ink_and_black_is_rounded_as_single_floats_are() {
    let mut raw = Vec::new();
    for c in 0..=255u8 {
        for k in 0..=255u8 {
            raw.extend_from_slice(&[c, 255 - c, c ^ 0x55, k]);
        }
    }
    let mut expected = Vec::new();
    for px in raw.chunks_exact(4) {
        let k = px[3] as f32 / 255.;
        for ink in &px[..3] {
            let ink = *ink as f32 / 255.;
            expected.push((255. * (1. - ink) * (1. - k)) as u8);
        }
    }
    assert_eq!(cmyk_to_rgb(&raw), expected);
}

#[test]
fn full_black_leaves_no_light_and_no_ink_leaves_it_all() {
    assert_eq!(cmyk_to_rgb(&[0, 100, 200, 255]), vec![0, 0, 0]);
    assert_eq!(cmyk_to_rgb(&[0, 0, 0, 0]), vec![255, 255, 255]);
    assert_eq!(cmyk_to_rgb(&[255, 0, 255, 0, 9, 9, 9]), vec![0, 255, 0], "sobras são ignoradas");
}

#[test]
fn rows_of_bits_start_on_byte_boundaries() {
    let raw = [0b1010_0000, 0b0100_0000, 0b1111_1111];
    assert_eq!(unpack_bits(&raw, 3, 3, 1), vec![1, 0, 1, 0, 1, 0, 1, 1, 1]);
    assert_eq!(unpack_bits(&raw, 10, 1, 1), vec![1, 0, 1, 0, 0, 0, 0, 0, 0, 1]);
}

#[test]
fn missing_bits_are_read_as_zeros() {
    assert_eq!(unpack_bits(&[0xFF], 10, 2, 1), [vec![1; 8], vec![0; 12]].concat());
    assert_eq!(unpack_bits(&[], 2, 2, 1), vec![0; 4]);
    assert_eq!(unpack_bits(&[1, 2], 0, 5, 1), Vec::<u8>::new());
}

#[test]
fn gray_and_rgb_samples_are_taken_as_they_are() {
    assert_eq!(raster(&[1, 2, 3, 4], 2, 2, 8, "DeviceGray"), Ok((true, vec![1, 2, 3, 4])));
    assert_eq!(raster(&[1, 2, 3, 4], 2, 2, 8, "CalGray"), Ok((true, vec![1, 2, 3, 4])));
    assert_eq!(raster(&[1, 2, 3], 1, 1, 8, "DeviceRGB"), Ok((false, vec![1, 2, 3])));
    assert_eq!(raster(&[1, 2, 3], 1, 1, 8, "CalRGB"), Ok((false, vec![1, 2, 3])));
    assert_eq!(raster(&[0b1000_0000], 2, 1, 1, "DeviceGray"), Ok((true, vec![255, 0])));
    assert_eq!(raster(&[0, 0, 0, 0], 1, 1, 8, "DeviceCMYK"), Ok((false, vec![255, 255, 255])));
}

#[test]
fn each_raster_that_cannot_be_read_says_why() {
    let refusal = |raw: &[u8], w: u32, h: u32, bpc: i64, space: &str| raster(raw, w, h, bpc, space).unwrap_err();
    assert_eq!(refusal(&[1], 0, 1, 8, "DeviceGray"), "dimensões zero");
    assert_eq!(refusal(&[1], 1, 0, 8, "Estranho"), "dimensões zero");
    assert_eq!(refusal(&[1], 2, 1, 8, "DeviceGray"), "tamanho de buffer incompatível (gray8)");
    assert_eq!(refusal(&[1, 2], 1, 1, 8, "DeviceRGB"), "tamanho de buffer incompatível (rgb8)");
    assert_eq!(refusal(&[1, 2, 3], 1, 1, 8, "DeviceCMYK"), "tamanho de buffer incompatível (cmyk)");
    assert_eq!(refusal(&[1], 1, 1, 4, "DeviceGray"), "DeviceGray com 4 bits não suportado");
    assert_eq!(refusal(&[1], 1, 1, -1, "CalRGB"), "DeviceRGB com -1 bits não suportado");
    assert_eq!(refusal(&[1], 1, 1, 16, "DeviceCMYK"), "DeviceCMYK com 16 bits não suportado");
    assert_eq!(refusal(&[1], 1, 1, 8, "Lab"), "espaço de cor não suportado: Lab");
    assert_eq!(refusal(&[1], 1, 1, 2, "Indexed"), "Indexed com 2 bits não suportado");
}

fn indexed(raw: &[u8], width: u32, space: Option<Object>) -> Result<Vec<u8>, String> {
    let (mut dict, doc) = empty();
    if let Some(space) = space {
        dict.set("ColorSpace", space);
    }
    decode_indexed(raw, width, 1, 8, &dict, &doc).map(|r| r.samples)
}

fn palette(base: Object, bytes: &[u8]) -> Object {
    let table = Object::String(bytes.to_vec(), StringFormat::Literal);
    Object::Array(vec![name("Indexed"), base, Object::Integer(1), table])
}

#[test]
fn indexed_samples_are_looked_up_in_the_palette() {
    let rgb = palette(name("DeviceRGB"), &[1, 2, 3, 4, 5]);
    assert_eq!(indexed(&[1, 0, 9], 3, Some(rgb)), Ok(vec![4, 5, 0, 1, 2, 3, 0, 0, 0]));
    let gray = palette(name("CalGray"), &[7, 8]);
    assert_eq!(indexed(&[1, 0], 2, Some(gray)), Ok(vec![8, 8, 8, 7, 7, 7]));
    let cmyk = palette(name("DeviceCMYK"), &[0, 0, 0, 0, 0, 0, 0, 255]);
    assert_eq!(indexed(&[1, 0], 2, Some(cmyk)), Ok(vec![0, 0, 0, 255, 255, 255]));
    let nested = palette(Object::Array(vec![name("CalRGB"), Object::Null]), &[1, 2, 3]);
    assert_eq!(indexed(&[0], 1, Some(nested)), Ok(vec![1, 2, 3]));
}

#[test]
fn a_palette_may_stand_in_a_stream_of_its_own() {
    let mut doc = Document::with_version("1.5");
    let table = doc.add_object(Stream::new(Dictionary::new(), vec![9, 8, 7]));
    let space = Object::Array(vec![
        name("Indexed"),
        name("DeviceRGB"),
        Object::Integer(0),
        Object::Reference(table),
    ]);
    let space = doc.add_object(space);
    let mut dict = Dictionary::new();
    dict.set("ColorSpace", Object::Reference(space));
    let decoded = decode_indexed(&[0], 1, 1, 8, &dict, &doc).map(|r| r.samples);
    assert_eq!(decoded, Ok(vec![9, 8, 7]));
}

#[test]
fn each_palette_that_cannot_be_read_says_why() {
    let short = Object::Array(vec![name("Indexed"), name("DeviceRGB"), Object::Integer(0)]);
    assert_eq!(indexed(&[0], 1, Some(short)).unwrap_err(), "Indexed ColorSpace malformado");
    let odd = palette(Object::Integer(3), &[]);
    assert_eq!(indexed(&[0], 1, Some(odd)).unwrap_err(), "base do Indexed não reconhecida");
    let lab = palette(name("Lab"), &[]);
    assert_eq!(indexed(&[0], 1, Some(lab)).unwrap_err(), "base do Indexed não suportada: Lab");
    let nameless = palette(Object::Array(vec![]), &[]);
    assert_eq!(indexed(&[0], 1, Some(nameless)).unwrap_err(), "base do Indexed não suportada: ");
    let table = Object::Array(vec![name("Indexed"), name("DeviceRGB"), Object::Integer(0), Object::Null]);
    assert_eq!(
        indexed(&[0], 1, Some(table)).unwrap_err(),
        "tabela de paleta (lookup) não reconhecida"
    );
    let rgb = palette(name("DeviceRGB"), &[1, 2, 3]);
    assert_eq!(
        indexed(&[0], 2, Some(rgb)).unwrap_err(),
        "tamanho de buffer incompatível (indexed)"
    );
    let missing = indexed(&[0], 1, None).unwrap_err();
    let (dict, _) = empty();
    assert_eq!(missing, dict.get(b"ColorSpace").unwrap_err().to_string());
    let number = indexed(&[0], 1, Some(Object::Integer(1))).unwrap_err();
    assert_eq!(number, Object::Integer(1).as_array().unwrap_err().to_string());
}

fn picture<'a>(id: (u32, u16), filters: &[&str], content: &'a [u8], dict: &'a Dictionary) -> PdfPicture<'a> {
    PdfPicture {
        id,
        width: 2,
        height: 1,
        color_space: None,
        filters: if filters.is_empty() {
            None
        } else {
            Some(filters.iter().map(|f| f.to_string()).collect())
        },
        bits_per_component: None,
        content,
        dict,
    }
}

#[test]
fn jpeg_data_is_passed_through_untouched() {
    let (dict, doc) = empty();
    let asset = build_asset(&doc, &picture((12, 3), &["DCTDecode"], &[1, 2, 3], &dict)).unwrap();
    assert_eq!((asset.filename.as_str(), asset.mime), ("img_12_3.jpg", "image/jpeg"));
    assert_eq!(asset.bytes, vec![1, 2, 3]);
    assert_eq!((asset.width, asset.height), (2, 1));
}

#[test]
fn codecs_that_cannot_be_read_are_named() {
    let (dict, doc) = empty();
    let refusal = |filters: &[&str]| build_asset(&doc, &picture((1, 0), filters, &[], &dict)).unwrap_err();
    assert_eq!(
        refusal(&["FlateDecode", "DCTDecode"]),
        "DCTDecode combinado com outros filtros ([\"FlateDecode\", \"DCTDecode\"])"
    );
    for codec in ["JPXDecode", "CCITTFaxDecode", "JBIG2Decode"] {
        assert_eq!(refusal(&[codec]), format!("codec não suportado: [\"{codec}\"]"));
    }
    let absent = doc.get_object((1, 0)).map(|_| ()).unwrap_err().to_string();
    assert_eq!(refusal(&[]), absent);
}

#[test]
fn a_raster_becomes_a_png_with_the_same_samples() {
    let mut doc = Document::with_version("1.5");
    let id = doc.add_object(Stream::new(Dictionary::new(), vec![10, 200]));
    let dict = Dictionary::new();
    let asset = build_asset(&doc, &picture(id, &[], &[], &dict)).unwrap();
    assert_eq!(asset.filename, format!("img_{}_{}.png", id.0, id.1));
    assert_eq!(asset.mime, "image/png");
    let img = image::load_from_memory_with_format(&asset.bytes, ImageFormat::Png).unwrap();
    assert_eq!(img.to_luma8().into_raw(), vec![10, 200]);
    assert_eq!((img.width(), img.height()), (2, 1));

    let number = doc.add_object(Object::Integer(3));
    let refusal = build_asset(&doc, &picture(number, &[], &[], &dict)).unwrap_err();
    assert_eq!(refusal, Object::Integer(3).as_stream().map(|_| ()).unwrap_err().to_string());
}

/// A page that shows the pictures given, under the names X0, X1 and so on.
fn page_with(pictures: Vec<(Dictionary, Vec<u8>)>) -> (Document, (u32, u16), Vec<(u32, u16)>) {
    let mut doc = Document::with_version("1.5");
    let mut xobjects = Dictionary::new();
    let mut ids = Vec::new();
    for (i, (mut dict, bytes)) in pictures.into_iter().enumerate() {
        dict.set("Type", name("XObject"));
        dict.set("Subtype", name("Image"));
        let id = doc.add_object(Stream::new(dict, bytes));
        xobjects.set(format!("X{i}"), Object::Reference(id));
        ids.push(id);
    }
    let mut resources = Dictionary::new();
    resources.set("XObject", Object::Dictionary(xobjects));
    let mut page = Dictionary::new();
    page.set("Type", name("Page"));
    page.set("Resources", Object::Dictionary(resources));
    let page = doc.add_object(Object::Dictionary(page));
    (doc, page, ids)
}

fn picture_dict(width: i64, height: i64, space: Object) -> Dictionary {
    let mut dict = Dictionary::new();
    dict.set("Width", Object::Integer(width));
    dict.set("Height", Object::Integer(height));
    dict.set("ColorSpace", space);
    dict.set("BitsPerComponent", Object::Integer(8));
    dict
}

#[test]
fn pictures_of_a_page_are_taken_or_reported() {
    let (doc, page, ids) = page_with(vec![
        (picture_dict(1, 2, name("DeviceGray")), vec![5, 6]),
        (picture_dict(1, 1, name("DeviceRGB")), vec![1, 2]),
        (picture_dict(1, 1, name("DeviceRGB")), vec![1, 2, 3]),
    ]);
    let mut log = vec!["antes".to_string()];
    let taken = extract_page_images(&doc, page, &mut log);
    let seen: Vec<(u32, u16)> = taken.iter().map(|(id, _)| *id).collect();
    assert_eq!(seen, vec![ids[0], ids[2]]);
    assert_eq!((taken[0].1.width, taken[0].1.height), (1, 2));
    assert_eq!(
        log,
        vec![
            "antes".to_string(),
            format!("imagem {}:{} ignorada (tamanho de buffer incompatível (rgb8))", ids[1].0, ids[1].1),
        ]
    );
}

#[test]
fn a_page_without_pictures_has_none() {
    let (doc, page, _) = page_with(vec![]);
    let mut log = Vec::new();
    assert!(extract_page_images(&doc, page, &mut log).is_empty());
    assert!(extract_page_images(&doc, (999, 0), &mut log).is_empty());
    assert!(log.is_empty());
}

#[test]
fn a_page_with_an_empty_color_space_has_no_pictures() {
    let (doc, page, _) = page_with(vec![
        (picture_dict(1, 1, name("DeviceGray")), vec![5]),
        (picture_dict(1, 1, Object::Array(vec![])), vec![5]),
    ]);
    let mut log = Vec::new();
    assert!(extract_page_images(&doc, page, &mut log).is_empty());
}

#[test]
fn the_png_of_a_picture_is_kept_under_its_number() {
    let dict = Dictionary::new();
    let shown = picture((7, 1), &[], &[], &dict);
    let asset = png_asset(&shown, Ok(vec![1, 2])).unwrap();
    assert_eq!((asset.filename.as_str(), asset.mime, asset.width, asset.height), ("img_7_1.png", "image/png", 2, 1));
    assert_eq!(asset.bytes, vec![1, 2]);
    assert_eq!(png_asset(&shown, Err("x".to_string())).unwrap_err(), "x");

    let negative = PdfPicture { width: -3, ..picture((7, 1), &[], &[], &dict) };
    assert_eq!(png_asset(&negative, Ok(vec![])).unwrap().width, 0);
}

#[test]
fn a_list_of_pictures_is_taken_or_reported_in_its_order() {
    let (dict, doc) = empty();
    let pictures = vec![
        picture((1, 0), &["JPXDecode"], &[], &dict),
        picture((2, 0), &["DCTDecode"], &[9], &dict),
        picture((3, 0), &["DCTDecode"], &[8], &dict),
    ];
    let mut log = Vec::new();
    let taken = build_assets(&doc, &pictures, &mut log);
    let seen: Vec<(u32, u16)> = taken.iter().map(|(id, _)| *id).collect();
    assert_eq!(seen, vec![(2, 0), (3, 0)]);
    assert_eq!(log, vec!["imagem 1:0 ignorada (codec não suportado: [\"JPXDecode\"])"]);
}

#[test]
fn more_ink_never_makes_a_pixel_brighter() {
    for k in 0..=255u8 {
        let mut before = [255u8; 3];
        for c in 0..=255u8 {
            let rgb = cmyk_to_rgb(&[c, c, c, k]);
            assert!(rgb.iter().zip(before).all(|(now, then)| *now <= then));
            before = [rgb[0], rgb[1], rgb[2]];
        }
    }
}

#[test]
fn a_damaged_entry_leaves_a_page_without_pictures() {
    let bytes = || (picture_dict(1, 1, name("DeviceGray")), vec![9]);
    let mut log = Vec::new();
    let (doc, page, _) = page_with(vec![bytes()]);
    assert_eq!(extract_page_images(&doc, page, &mut log).len(), 1);
    for key in ["Width", "Height", "BitsPerComponent", "Filter"] {
        let (mut dict, content) = bytes();
        dict.set(key, Object::Array(vec![Object::Integer(1)]));
        let (doc, page, _) = page_with(vec![bytes(), (dict, content)]);
        assert!(extract_page_images(&doc, page, &mut log).is_empty(), "{key}");
    }
    assert!(log.is_empty());
}

/// Bytes in ASCII85. Their number is a multiple of four.
fn ascii85(bytes: &[u8]) -> Vec<u8> {
    let mut out = Vec::new();
    for group in bytes.chunks_exact(4) {
        let mut value = u32::from_be_bytes([group[0], group[1], group[2], group[3]]);
        let mut digits = [0u8; 5];
        for digit in digits.iter_mut().rev() {
            *digit = 33 + (value % 85) as u8;
            value /= 85;
        }
        out.extend_from_slice(&digits);
    }
    out.extend_from_slice(b"~>");
    out
}

/// A stream of these bytes in ASCII85, which are then compressed.
fn twice_encoded(mut dict: Dictionary, bytes: &[u8]) -> Stream {
    let mut stream = Stream::new(Dictionary::new(), ascii85(bytes));
    stream.compress().unwrap();
    assert!(stream.is_compressed());
    dict.set("Filter", Object::Array(vec![name("FlateDecode"), name("ASCII85Decode")]));
    Stream::new(dict, stream.content)
}

#[test]
fn a_picture_behind_two_filters_is_taken() {
    let mut dict = picture_dict(16, 16, name("DeviceGray"));
    dict.set("Subtype", name("Image"));
    let samples = [7u8; 256];
    let stream = twice_encoded(dict, &samples);
    let (doc, page, _) = page_with(vec![(stream.dict, stream.content)]);
    let mut log = Vec::new();
    let assets = extract_page_images(&doc, page, &mut log);
    assert_eq!((assets.len(), log.len()), (1, 0));
    let shown = image::load_from_memory_with_format(&assets[0].1.bytes, ImageFormat::Png).unwrap();
    assert_eq!(shown.to_luma8().into_raw(), samples.to_vec());
}
