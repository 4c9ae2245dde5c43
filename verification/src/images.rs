//! Takes the pictures out of a PDF.
use vstd::prelude::*;

use crate::color::{cmyk_to_rgb, every_pixel_is_mixed_by_itself, mixed, rgb_of};
use crate::pdf_model::{ImageAsset, ImageView};
use crate::pdf_source::{
    as_array, as_name, as_reference, as_stream, as_string, decode_stream, decoded_content,
    dictionary_of, dictionary_under, document_objects, entries, entry_values, get_dictionary,
    get_dictionary_under, get_entry, get_object, lookup, lossy_text, missing_key, names_of,
    object_at, object_model, object_models, resolve, resolved, same_bytes, stream_dictionary,
    utf8_lossy, wrong_type, ObjectModel,
};
use crate::text::{
    decimal, joined, push_decimal, push_signed_decimal, same_text, signed_decimal, texts,
};

verus! {

// ---------------------------------------------------------------------------------------
// Bits
// ---------------------------------------------------------------------------------------

/// The number of bytes that a row of samples takes. A row ends at the end of a byte.
pub open spec fn row_bytes(width: nat, bpc: nat) -> nat {
    (width * bpc + 7) / 8
}

/// The bit at an index, the highest bit of a byte first.
pub open spec fn bit_of(byte: u8, i: nat) -> u8 {
    (byte >> ((7 - i) as u8)) & 1u8
}

/// The first bit of the sample in a row and a column, and zero past the end of the bytes.
pub open spec fn sample_bit(raw: Seq<u8>, width: nat, bpc: nat, row: nat, col: nat) -> u8 {
    let at = row * row_bytes(width, bpc) + col * bpc / 8;
    if at < raw.len() {
        bit_of(raw[at as int], col * bpc % 8)
    } else {
        0
    }
}

/// The first bits of all samples, row after row.
pub open spec fn unpacked(raw: Seq<u8>, width: nat, height: nat, bpc: nat) -> Seq<u8> {
    Seq::new(
        width * height,
        |i: int| sample_bit(raw, width, bpc, i as nat / width, i as nat % width),
    )
}

/// Unpacks samples of less than a byte. Rows are byte-aligned in a PDF, so that each row is
/// unpacked by itself rather than as a part of one long stream of bits.
pub fn unpack_bits(raw: &[u8], width: u32, height: u32, bpc: u32) -> (r: Vec<u8>)
    ensures
        r@ == unpacked(raw@, width as nat, height as nat, bpc as nat),
{
    let mut out: Vec<u8> = Vec::new();
    let length: u128 = raw.len() as u128;
    let ghost all = unpacked(raw@, width as nat, height as nat, bpc as nat);
    assert(width * bpc <= 0xffff_ffff * 0xffff_ffff) by (nonlinear_arith)
        requires
            width <= 0xffff_ffff,
            bpc <= 0xffff_ffff,
    ;
    let stride: u128 = (width as u128 * bpc as u128 + 7) / 8;
    assert(width * 0 == 0) by (nonlinear_arith);
    for row in 0..height
        invariant
            stride == row_bytes(width as nat, bpc as nat),
            stride <= 0x4000_0000_0000_0000,
            length == raw@.len() <= usize::MAX,
            all == unpacked(raw@, width as nat, height as nat, bpc as nat),
            out@ == all.take(width * row),
            width * row <= all.len(),
    {
        assert(row * stride <= 0xffff_ffff * 0x4000_0000_0000_0000) by (nonlinear_arith)
            requires
                row <= 0xffff_ffff,
                stride <= 0x4000_0000_0000_0000,
        ;
        let start: u128 = row as u128 * stride;
        assert(width * (row + 1) == width * row + width) by (nonlinear_arith);
        assert(width * (row + 1) <= width * height) by (nonlinear_arith)
            requires
                row < height,
        ;
        for col in 0..width
            invariant
                stride == row_bytes(width as nat, bpc as nat),
                start == row * stride,
                start <= 0xffff_ffff * 0x4000_0000_0000_0000,
                length == raw@.len() <= usize::MAX,
                row < height,
                all == unpacked(raw@, width as nat, height as nat, bpc as nat),
                width * row + width <= all.len(),
                all.len() == width * height,
                out@ == all.take(width * row + col),
        {
            assert(col * bpc <= 0xffff_ffff * 0xffff_ffff) by (nonlinear_arith)
                requires
                    col <= 0xffff_ffff,
                    bpc <= 0xffff_ffff,
            ;
            let bit_index: u128 = col as u128 * bpc as u128;
            let at: u128 = start + bit_index / 8;
            let bit: u8 = if at < length {
                (raw[at as usize] >> (7 - (bit_index % 8) as u8)) & 1u8
            } else {
                0
            };
            proof {
                let i = width * row + col;
                assert(i / width as int == row && i % width as int == col) by (nonlinear_arith)
                    requires
                        i == width * row + col,
                        0 <= col < width,
                ;
                assert(all[i] == sample_bit(
                    raw@,
                    width as nat,
                    bpc as nat,
                    row as nat,
                    col as nat,
                ));
            }
            out.push(bit);
            assert(out@ == all.take(width * row + col + 1));
        }
    }
    assert(all.take(all.len() as int) == all);
    out
}

/// Every sample comes out as zero or one.
pub proof fn unpacked_samples_are_bits(raw: Seq<u8>, width: nat, height: nat, bpc: nat, i: int)
    requires
        0 <= i < width * height,
    ensures
        unpacked(raw, width, height, bpc)[i] <= 1,
{
    assert forall|byte: u8, shift: u8| ((#[trigger] (byte >> shift)) & 1u8) <= 1 by {
        assert((byte >> shift) & 1u8 <= 1) by (bit_vector);
    }
}

/// Each sample is the first of its bits. Rows begin with a byte of their own, the samples of a row
/// stand one after the other, and the highest bit of a byte comes first. Past the last byte there
/// are zeros.
pub proof fn samples_stand_in_their_rows(
    raw: Seq<u8>,
    width: nat,
    height: nat,
    bpc: nat,
    row: int,
    col: int,
)
    requires
        0 <= row < height,
        0 <= col < width,
    ensures
        unpacked(raw, width, height, bpc).len() == width * height,
        ({
            let bit = col * bpc;
            let at = row * ((width * bpc + 7) / 8) + bit / 8;
            unpacked(raw, width, height, bpc)[row * width + col] == (if at < raw.len() {
                (raw[at] >> ((7 - bit % 8) as u8)) & 1u8
            } else {
                0
            })
        }),
{
    let i = row * width + col;
    assert(0 <= i < width * height && i / width as int == row && i % width as int == col)
        by (nonlinear_arith)
        requires
            i == row * width + col,
            0 <= col < width,
            0 <= row < height,
    ;
    let all = unpacked(raw, width, height, bpc);
    assert(all[i] == sample_bit(raw, width, bpc, row as nat, col as nat));
    assert(0 <= row * row_bytes(width, bpc)) by (nonlinear_arith)
        requires
            0 <= row,
    ;
    assert(0 <= col * bpc) by (nonlinear_arith)
        requires
            0 <= col,
    ;
}

/// The bytes of a row are the same in both pictures.
pub open spec fn same_row(a: Seq<u8>, b: Seq<u8>, stride: nat, row: nat) -> bool {
    forall|i: int|
        row * stride <= i < row * stride + stride ==> (i < a.len() <==> i < b.len()) && (i
            < a.len() ==> #[trigger] a[i] == #[trigger] b[i])
}

/// Rows are unpacked by themselves: what comes out of a row depends on its own bytes alone.
pub proof fn rows_are_unpacked_by_themselves(
    a: Seq<u8>,
    b: Seq<u8>,
    width: nat,
    bpc: nat,
    row: nat,
    col: nat,
)
    requires
        col < width,
        bpc > 0,
        same_row(a, b, row_bytes(width, bpc), row),
    ensures
        sample_bit(a, width, bpc, row, col) == sample_bit(b, width, bpc, row, col),
{
    let stride = row_bytes(width, bpc);
    let at = row * stride + col * bpc / 8;
    assert(col * bpc + bpc <= width * bpc) by (nonlinear_arith)
        requires
            col < width,
    ;
    assert(col * bpc / 8 < stride);
    let (x, y) = (a[at as int], b[at as int]);
    assert(at < a.len() <==> at < b.len());
    assert(at < a.len() ==> x == y);
}

// ---------------------------------------------------------------------------------------
// Decoding
// ---------------------------------------------------------------------------------------

/// A decoded picture: rows from the top, pixels from the left, one sample of grey or three of
/// red, green and blue for each.
#[derive(Debug)]
pub struct Raster {
    pub width: u32,
    pub height: u32,
    pub is_gray: bool,
    pub samples: Vec<u8>,
}

#[verifier::ext_equal]
pub ghost struct RasterView {
    pub width: nat,
    pub height: nat,
    pub is_gray: bool,
    pub samples: Seq<u8>,
}

impl View for Raster {
    type V = RasterView;

    open spec fn view(&self) -> RasterView {
        RasterView {
            width: self.width as nat,
            height: self.height as nat,
            is_gray: self.is_gray,
            samples: self.samples@,
        }
    }
}

/// The number of samples of a picture.
pub open spec fn sample_count(width: nat, height: nat, is_gray: bool) -> nat {
    (if is_gray {
        1nat
    } else {
        3nat
    }) * (width * height)
}

impl RasterView {
    /// There are exactly as many samples as the picture has.
    pub open spec fn wf(self) -> bool {
        self.samples.len() == sample_count(self.width, self.height, self.is_gray)
    }
}

/// The picture that samples make up. Too few of them make up none, and those past the last
/// pixel are left out.
pub open spec fn raster_from(
    width: u32,
    height: u32,
    is_gray: bool,
    samples: Seq<u8>,
    kind: Seq<char>,
) -> Result<RasterView, Seq<char>> {
    let n = sample_count(width as nat, height as nat, is_gray);
    if samples.len() < n {
        Err("tamanho de buffer incompatível ("@ + kind + ")"@)
    } else {
        Ok(
            RasterView {
                width: width as nat,
                height: height as nat,
                is_gray,
                samples: samples.take(n as int),
            },
        )
    }
}

/// The call gave back this picture, or this complaint.
pub open spec fn is_raster(r: Result<Raster, String>, m: Result<RasterView, Seq<char>>) -> bool {
    match (r, m) {
        (Ok(raster), Ok(view)) => raster@ == view && raster@.wf(),
        (Err(e), Err(text)) => e@ == text,
        _ => false,
    }
}

fn make_raster(width: u32, height: u32, is_gray: bool, samples: Vec<u8>, kind: &str) -> (r: Result<
    Raster,
    String,
>)
    ensures
        is_raster(r, raster_from(width, height, is_gray, samples@, kind@)),
{
    assert(width * height <= 0xffff_ffff * 0xffff_ffff) by (nonlinear_arith)
        requires
            width <= 0xffff_ffff,
            height <= 0xffff_ffff,
    ;
    let pixels: u128 = width as u128 * height as u128;
    let needed: u128 = if is_gray {
        pixels
    } else {
        3 * pixels
    };
    let length: usize = samples.len();
    if (length as u128) < needed {
        let mut message: String = "tamanho de buffer incompatível (".to_owned();
        message.append(kind);
        message.append(")");
        return Err(message);
    }
    let mut kept = samples;
    let ghost all = kept@;
    kept.truncate(needed as usize);
    assert(kept@ == all.take(needed as int));
    Ok(Raster { width, height, is_gray, samples: kept })
}

/// "`kind` com `bpc` bits não suportado".
pub open spec fn unsupported_bits(kind: Seq<char>, bpc: i64) -> Seq<char> {
    kind + " com "@ + signed_decimal(bpc as int) + " bits não suportado"@
}

fn refuse_bits(kind: &str, bpc: i64) -> (r: String)
    ensures
        r@ == unsupported_bits(kind@, bpc),
{
    let mut message: String = kind.to_owned();
    message.append(" com ");
    push_signed_decimal(&mut message, bpc);
    message.append(" bits não suportado");
    message
}

/// Black for a zero and white for anything else.
pub open spec fn black_or_white(bits: Seq<u8>) -> Seq<u8> {
    bits.map_values(
        |v: u8|
            if v == 0 {
                0u8
            } else {
                255u8
            },
    )
}

fn to_black_or_white(bits: &Vec<u8>) -> (r: Vec<u8>)
    ensures
        r@ == black_or_white(bits@),
{
    let mut out: Vec<u8> = Vec::new();
    for i in 0..bits.len()
        invariant
            out@ == black_or_white(bits@).take(i as int),
    {
        out.push(
            if bits[i] == 0 {
                0
            } else {
                255
            },
        );
        assert(out@ == black_or_white(bits@).take(i + 1));
    }
    assert(black_or_white(bits@).take(bits@.len() as int) == black_or_white(bits@));
    out
}

/// The byte of a palette, and zero past its end.
pub open spec fn palette_byte(palette: Seq<u8>, i: nat) -> u8 {
    if i < palette.len() {
        palette[i as int]
    } else {
        0
    }
}

/// The colour of an entry of a palette with one (grey), three (red, green and blue) or four
/// (cyan, magenta, yellow and black) components.
pub open spec fn palette_color(palette: Seq<u8>, components: nat, entry: u8) -> Seq<u8> {
    let at = entry as nat * components;
    if components == 3 {
        seq![
            palette_byte(palette, at),
            palette_byte(palette, at + 1),
            palette_byte(palette, at + 2),
        ]
    } else if components == 1 {
        seq![palette_byte(palette, at), palette_byte(palette, at), palette_byte(palette, at)]
    } else {
        rgb_of(
            seq![
                palette_byte(palette, at),
                palette_byte(palette, at + 1),
                palette_byte(palette, at + 2),
                palette_byte(palette, at + 3),
            ],
        )
    }
}

/// The colours of some entries of a palette.
pub open spec fn palette_colors(palette: Seq<u8>, components: nat, indices: Seq<u8>) -> Seq<u8>
    decreases indices.len(),
{
    if indices.len() == 0 {
        Seq::empty()
    } else {
        palette_colors(palette, components, indices.drop_last()) + palette_color(
            palette,
            components,
            indices.last(),
        )
    }
}

fn palette_at(palette: &Vec<u8>, i: usize) -> (r: u8)
    ensures
        r == palette_byte(palette@, i as nat),
{
    if i < palette.len() {
        palette[i]
    } else {
        0
    }
}

fn push_palette_color(out: &mut Vec<u8>, palette: &Vec<u8>, components: usize, entry: u8)
    requires
        components == 1 || components == 3 || components == 4,
    ensures
        final(out)@ == old(out)@ + palette_color(palette@, components as nat, entry),
{
    let ghost before = out@;
    assert(entry * components <= 255 * 4) by (nonlinear_arith)
        requires
            entry <= 255,
            components <= 4,
    ;
    let at: usize = entry as usize * components;
    let first: u8 = palette_at(palette, at);
    if components == 1 {
        out.push(first);
        out.push(first);
        out.push(first);
        assert(out@ == before + palette_color(palette@, components as nat, entry));
    } else if components == 3 {
        out.push(first);
        out.push(palette_at(palette, at + 1));
        out.push(palette_at(palette, at + 2));
        assert(out@ == before + palette_color(palette@, components as nat, entry));
    } else {
        let mut pixel: Vec<u8> = Vec::new();
        pixel.push(first);
        pixel.push(palette_at(palette, at + 1));
        pixel.push(palette_at(palette, at + 2));
        pixel.push(palette_at(palette, at + 3));
        assert(pixel@ == seq![
            palette_byte(palette@, at as nat),
            palette_byte(palette@, at as nat + 1),
            palette_byte(palette@, at as nat + 2),
            palette_byte(palette@, at as nat + 3),
        ]);
        let mut converted = cmyk_to_rgb(pixel.as_slice());
        out.append(&mut converted);
        assert(out@ == before + palette_color(palette@, components as nat, entry));
    }
}

/// What the base of an indexed colour space is called.
pub open spec fn base_name_of(base: ObjectModel) -> Option<Seq<char>> {
    match base {
        ObjectModel::Name(name) => Some(utf8_lossy(name)),
        ObjectModel::Array(items) => Some(
            if items.len() > 0 {
                match items[0] {
                    ObjectModel::Name(name) => utf8_lossy(name),
                    _ => Seq::empty(),
                }
            } else {
                Seq::empty()
            },
        ),
        _ => None,
    }
}

/// The number of components of a colour in the base of an indexed colour space.
pub open spec fn components_of(base: Seq<char>) -> Option<nat> {
    if base == "DeviceRGB"@ || base == "CalRGB"@ {
        Some(3)
    } else if base == "DeviceGray"@ || base == "CalGray"@ {
        Some(1)
    } else if base == "DeviceCMYK"@ {
        Some(4)
    } else {
        None
    }
}

/// The bytes of a palette.
pub open spec fn palette_of(table: ObjectModel) -> Result<Seq<u8>, Seq<char>> {
    match table {
        ObjectModel::Text(bytes, _) => Ok(bytes),
        ObjectModel::Stream(dict, content) => decoded_content(dict, content),
        _ => Err("tabela de paleta (lookup) não reconhecida"@),
    }
}

/// The palette of an indexed colour space and the number of components of its colours.
pub open spec fn color_table_of(
    objects: Map<(u32, u16), ObjectModel>,
    dict: Seq<(Seq<u8>, ObjectModel)>,
) -> Result<(Seq<u8>, nat), Seq<char>> {
    let key = vstd::utf8::encode_utf8("ColorSpace"@);
    match lookup(dict, key) {
        None => Err(missing_key(key)),
        Some(entry) => match resolved(objects, entry) {
            Err(e) => Err(e),
            Ok(ObjectModel::Array(items)) => if items.len() < 4 {
                Err("Indexed ColorSpace malformado"@)
            } else {
                match resolved(objects, items[1]) {
                    Err(e) => Err(e),
                    Ok(base) => match base_name_of(base) {
                        None => Err("base do Indexed não reconhecida"@),
                        Some(name) => match components_of(name) {
                            None => Err("base do Indexed não suportada: "@ + name),
                            Some(components) => match resolved(objects, items[3]) {
                                Err(e) => Err(e),
                                Ok(table) => match palette_of(table) {
                                    Err(e) => Err(e),
                                    Ok(palette) => Ok((palette, components)),
                                },
                            },
                        },
                    },
                }
            },
            Ok(other) => Err(wrong_type("Array"@, other)),
        },
    }
}

/// A picture whose samples are entries of a palette.
pub open spec fn indexed_of(
    objects: Map<(u32, u16), ObjectModel>,
    raw: Seq<u8>,
    width: u32,
    height: u32,
    bpc: i64,
    dict: Seq<(Seq<u8>, ObjectModel)>,
) -> Result<RasterView, Seq<char>> {
    if bpc != 8 {
        Err(unsupported_bits("Indexed"@, bpc))
    } else {
        match color_table_of(objects, dict) {
            Err(e) => Err(e),
            Ok((palette, components)) => {
                let pixels = width as nat * height as nat;
                let used = if raw.len() < pixels {
                    raw
                } else {
                    raw.take(pixels as int)
                };
                raster_from(
                    width,
                    height,
                    false,
                    palette_colors(palette, components, used),
                    "indexed"@,
                )
            },
        }
    }
}

fn base_name(base: &lopdf::Object) -> (r: Option<String>)
    ensures
        match base_name_of(object_model(*base)) {
            Some(name) => r matches Some(text) && text@ == name,
            None => r is None,
        },
{
    if let Ok(name) = as_name(base) {
        return Some(lossy_text(name));
    }
    match as_array(base) {
        Ok(items) => {
            if items.len() > 0 {
                assert(object_models(items@)[0] == object_model(items@[0]));
                if let Ok(name) = as_name(&items[0]) {
                    return Some(lossy_text(name));
                }
            }
            Some(String::new())
        },
        Err(_) => None,
    }
}

fn count_components(base: &str) -> (r: Option<usize>)
    ensures
        match components_of(base@) {
            Some(n) => r == Some(n as usize) && (n == 1 || n == 3 || n == 4),
            None => r is None,
        },
{
    if same_text(base, "DeviceRGB") || same_text(base, "CalRGB") {
        Some(3)
    } else if same_text(base, "DeviceGray") || same_text(base, "CalGray") {
        Some(1)
    } else if same_text(base, "DeviceCMYK") {
        Some(4)
    } else {
        None
    }
}

fn read_palette(table: &lopdf::Object) -> (r: Result<Vec<u8>, String>)
    ensures
        match palette_of(object_model(*table)) {
            Ok(bytes) => r matches Ok(v) && v@ == bytes,
            Err(text) => r matches Err(e) && e@ == text,
        },
{
    if let Ok(bytes) = as_string(table) {
        return Ok(vstd::slice::slice_to_vec(bytes));
    }
    if let Ok(stream) = as_stream(table) {
        return decode_stream(stream);
    }
    Err("tabela de paleta (lookup) não reconhecida".to_owned())
}

fn read_color_table(doc: &lopdf::Document, dict: &lopdf::Dictionary) -> (r: Result<
    (Vec<u8>, usize),
    String,
>)
    ensures
        match color_table_of(document_objects(*doc), entries(*dict)) {
            Ok((palette, components)) => (r matches Ok((v, n)) && v@ == palette && n
                == components) && (components == 1 || components == 3 || components == 4),
            Err(text) => r matches Err(e) && e@ == text,
        },
{
    let entry = get_entry(dict, "ColorSpace".as_bytes())?;
    let space = resolve(doc, entry)?;
    let items = as_array(space)?;
    if items.len() < 4 {
        return Err("Indexed ColorSpace malformado".to_owned());
    }
    assert(object_models(items@)[1] == object_model(items@[1]));
    assert(object_models(items@)[3] == object_model(items@[3]));
    let base = resolve(doc, &items[1])?;
    let name = match base_name(base) {
        Some(name) => name,
        None => {
            return Err("base do Indexed não reconhecida".to_owned());
        },
    };
    let components: usize = match count_components(name.as_str()) {
        Some(n) => n,
        None => {
            return Err(joined("base do Indexed não suportada: ", name.as_str()));
        },
    };
    let table = resolve(doc, &items[3])?;
    let palette = read_palette(table)?;
    Ok((palette, components))
}

/// Every entry of a palette comes out as three samples.
pub proof fn palette_colors_are_triples(palette: Seq<u8>, components: nat, indices: Seq<u8>)
    requires
        components == 1 || components == 3 || components == 4,
    ensures
        palette_colors(palette, components, indices).len() == 3 * indices.len(),
    decreases indices.len(),
{
    if indices.len() > 0 {
        palette_colors_are_triples(palette, components, indices.drop_last());
    }
}

/// Decodes a picture whose samples are entries of a palette: see `indexed_of`.
pub fn decode_indexed(
    raw: &[u8],
    width: u32,
    height: u32,
    bpc: i64,
    origin_dict: &lopdf::Dictionary,
    doc: &lopdf::Document,
) -> (r: Result<Raster, String>)
    ensures
        is_raster(
            r,
            indexed_of(document_objects(*doc), raw@, width, height, bpc, entries(*origin_dict)),
        ),
{
    if bpc != 8 {
        return Err(refuse_bits("Indexed", bpc));
    }
    let (palette, components) = read_color_table(doc, origin_dict)?;
    assert(width * height <= 0xffff_ffff * 0xffff_ffff) by (nonlinear_arith)
        requires
            width <= 0xffff_ffff,
            height <= 0xffff_ffff,
    ;
    let pixels: u128 = width as u128 * height as u128;
    let length: usize = raw.len();
    let used: usize = if (length as u128) < pixels {
        length
    } else {
        pixels as usize
    };
    let ghost shown = raw@.take(used as int);
    let mut rgb: Vec<u8> = Vec::new();
    assert(shown.take(0) == Seq::<u8>::empty());
    for i in 0..used
        invariant
            used <= raw@.len(),
            shown == raw@.take(used as int),
            components == 1 || components == 3 || components == 4,
            rgb@ == palette_colors(palette@, components as nat, shown.take(i as int)),
    {
        assert(shown.take(i + 1).drop_last() == shown.take(i as int));
        push_palette_color(&mut rgb, &palette, components, raw[i]);
    }
    assert(shown.take(used as int) == shown);
    assert(raw@.take(raw@.len() as int) == raw@);
    make_raster(width, height, false, rgb, "indexed")
}

/// A picture in any of the supported colour spaces.
pub open spec fn raster_of(
    objects: Map<(u32, u16), ObjectModel>,
    raw: Seq<u8>,
    width: u32,
    height: u32,
    bpc: i64,
    space: Seq<char>,
    dict: Seq<(Seq<u8>, ObjectModel)>,
) -> Result<RasterView, Seq<char>> {
    if width == 0 || height == 0 {
        Err("dimensões zero"@)
    } else if space == "DeviceGray"@ || space == "CalGray"@ {
        if bpc == 8 {
            raster_from(width, height, true, raw, "gray8"@)
        } else if bpc == 1 {
            raster_from(
                width,
                height,
                true,
                black_or_white(unpacked(raw, width as nat, height as nat, 1)),
                "gray1"@,
            )
        } else {
            Err(unsupported_bits("DeviceGray"@, bpc))
        }
    } else if space == "DeviceRGB"@ || space == "CalRGB"@ {
        if bpc == 8 {
            raster_from(width, height, false, raw, "rgb8"@)
        } else {
            Err(unsupported_bits("DeviceRGB"@, bpc))
        }
    } else if space == "DeviceCMYK"@ {
        if bpc == 8 {
            raster_from(width, height, false, rgb_of(raw), "cmyk"@)
        } else {
            Err(unsupported_bits("DeviceCMYK"@, bpc))
        }
    } else if space == "Indexed"@ {
        indexed_of(objects, raw, width, height, bpc, dict)
    } else {
        Err("espaço de cor não suportado: "@ + space)
    }
}

/// Decodes the samples of a picture: see `raster_of`.
pub fn decode_raster(
    raw: &[u8],
    width: u32,
    height: u32,
    bpc: i64,
    cs_name: &str,
    origin_dict: &lopdf::Dictionary,
    doc: &lopdf::Document,
) -> (r: Result<Raster, String>)
    ensures
        is_raster(
            r,
            raster_of(
                document_objects(*doc),
                raw@,
                width,
                height,
                bpc,
                cs_name@,
                entries(*origin_dict),
            ),
        ),
{
    if width == 0 || height == 0 {
        return Err("dimensões zero".to_owned());
    }
    if same_text(cs_name, "DeviceGray") || same_text(cs_name, "CalGray") {
        if bpc == 8 {
            make_raster(width, height, true, vstd::slice::slice_to_vec(raw), "gray8")
        } else if bpc == 1 {
            let bits = unpack_bits(raw, width, height, 1);
            make_raster(width, height, true, to_black_or_white(&bits), "gray1")
        } else {
            Err(refuse_bits("DeviceGray", bpc))
        }
    } else if same_text(cs_name, "DeviceRGB") || same_text(cs_name, "CalRGB") {
        if bpc == 8 {
            make_raster(width, height, false, vstd::slice::slice_to_vec(raw), "rgb8")
        } else {
            Err(refuse_bits("DeviceRGB", bpc))
        }
    } else if same_text(cs_name, "DeviceCMYK") {
        if bpc == 8 {
            make_raster(width, height, false, cmyk_to_rgb(raw), "cmyk")
        } else {
            Err(refuse_bits("DeviceCMYK", bpc))
        }
    } else if same_text(cs_name, "Indexed") {
        decode_indexed(raw, width, height, bpc, origin_dict, doc)
    } else {
        Err(joined("espaço de cor não suportado: ", cs_name))
    }
}

// ---------------------------------------------------------------------------------------
// What the samples of a picture are
// ---------------------------------------------------------------------------------------

proof fn lemma_spaces_differ()
    ensures
        "DeviceCMYK"@ != "DeviceGray"@,
        "DeviceCMYK"@ != "CalGray"@,
        "DeviceCMYK"@ != "DeviceRGB"@,
        "DeviceCMYK"@ != "CalRGB"@,
        "DeviceRGB"@ != "DeviceGray"@,
        "DeviceRGB"@ != "CalGray"@,
        "CalRGB"@ != "DeviceGray"@,
        "CalRGB"@ != "CalGray"@,
        "Indexed"@ != "DeviceGray"@,
        "Indexed"@ != "CalGray"@,
        "Indexed"@ != "DeviceRGB"@,
        "Indexed"@ != "CalRGB"@,
        "Indexed"@ != "DeviceCMYK"@,
{
    reveal_strlit("DeviceCMYK");
    reveal_strlit("DeviceGray");
    reveal_strlit("DeviceRGB");
    reveal_strlit("CalGray");
    reveal_strlit("CalRGB");
    reveal_strlit("Indexed");
    assert("DeviceCMYK"@[6] == 'C' && "DeviceGray"@[6] == 'G' && "DeviceRGB"@[6] == 'R');
    assert("CalGray"@[0] == 'C' && "CalRGB"@[0] == 'C' && "Indexed"@[0] == 'I');
    assert("CalGray"@.len() == 7 && "CalRGB"@.len() == 6 && "Indexed"@.len() == 7);
    assert("DeviceRGB"@.len() == 9);
    assert("DeviceRGB"@[0] == 'D' && "DeviceGray"@[0] == 'D' && "DeviceCMYK"@[0] == 'D');
}

/// A picture of cyan, magenta, yellow and black with at least four bytes for each pixel is a
/// picture in colour, whatever its width and height. Channel `j` of pixel `p` is the light that
/// ink byte `4 * p + j` lets through together with black byte `4 * p + 3`: the product of what
/// they leave of 255, full without ink, and none under full black. With fewer bytes there is no
/// picture.
pub proof fn inks_become_light(
    objects: Map<(u32, u16), ObjectModel>,
    raw: Seq<u8>,
    width: u32,
    height: u32,
    dict: Seq<(Seq<u8>, ObjectModel)>,
)
    requires
        width > 0,
        height > 0,
    ensures
        match raster_of(objects, raw, width, height, 8, "DeviceCMYK"@, dict) {
            Ok(r) => {
                &&& raw.len() >= 4 * (width * height)
                &&& r.width == width
                &&& r.height == height
                &&& !r.is_gray
                &&& r.samples.len() == 3 * (width * height)
                &&& forall|p: int, j: int| #![trigger r.samples[3 * p + j]]
                    0 <= p < width * height && 0 <= j < 3 ==> {
                        let left = (255 - raw[4 * p + j]) * (255 - raw[4 * p + 3]);
                        let light = r.samples[3 * p + j];
                        &&& light == mixed(raw[4 * p + j], raw[4 * p + 3])
                        &&& 255 * light <= left <= 255 * (light + 1)
                        &&& raw[4 * p + j] == 0 && raw[4 * p + 3] == 0 ==> light == 255
                        &&& raw[4 * p + 3] == 255 ==> light == 0
                    }
            },
            Err(_) => raw.len() < 4 * (width * height),
        },
{
    lemma_spaces_differ();
    let n = width * height;
    let made = raster_of(objects, raw, width, height, 8, "DeviceCMYK"@, dict);
    if let Ok(r) = made {
        assert(rgb_of(raw).len() == 3 * (raw.len() / 4));
        assert forall|p: int, j: int| #![trigger r.samples[3 * p + j]]
            0 <= p < n && 0 <= j < 3 implies ({
            let left = (255 - raw[4 * p + j]) * (255 - raw[4 * p + 3]);
            let light = r.samples[3 * p + j];
            &&& light == mixed(raw[4 * p + j], raw[4 * p + 3])
            &&& 255 * light <= left <= 255 * (light + 1)
            &&& raw[4 * p + j] == 0 && raw[4 * p + 3] == 0 ==> light == 255
            &&& raw[4 * p + 3] == 255 ==> light == 0
        }) by {
            every_pixel_is_mixed_by_itself(raw, p, j);
            assert(r.samples[3 * p + j] == rgb_of(raw)[3 * p + j]);
        }
    }
}

/// A picture in grey with a byte for each pixel, or in colour with three, has these bytes for its
/// samples, in their order. Bytes behind the last pixel do not matter, and with fewer bytes there
/// is no picture.
pub proof fn whole_bytes_are_samples(
    objects: Map<(u32, u16), ObjectModel>,
    raw: Seq<u8>,
    width: u32,
    height: u32,
    space: Seq<char>,
    dict: Seq<(Seq<u8>, ObjectModel)>,
)
    requires
        width > 0,
        height > 0,
        space == "DeviceGray"@ || space == "CalGray"@ || space == "DeviceRGB"@ || space
            == "CalRGB"@,
    ensures
        ({
            let is_gray = space == "DeviceGray"@ || space == "CalGray"@;
            let count = if is_gray {
                width * height
            } else {
                3 * (width * height)
            };
            match raster_of(objects, raw, width, height, 8, space, dict) {
                Ok(r) => {
                    &&& raw.len() >= count
                    &&& r.width == width
                    &&& r.height == height
                    &&& r.is_gray == is_gray
                    &&& r.samples.len() == count
                    &&& forall|i: int| 0 <= i < count ==> #[trigger] r.samples[i] == raw[i]
                },
                Err(_) => raw.len() < count,
            }
        }),
{
    lemma_spaces_differ();
}

/// A picture in grey with a bit for each pixel is black where the bit is zero and white where it
/// is one. Each row begins with a byte of its own, and the highest bit of a byte comes first.
/// Pixels past the last byte are black.
pub proof fn bits_are_black_and_white(
    objects: Map<(u32, u16), ObjectModel>,
    raw: Seq<u8>,
    width: u32,
    height: u32,
    space: Seq<char>,
    dict: Seq<(Seq<u8>, ObjectModel)>,
)
    requires
        width > 0,
        height > 0,
        space == "DeviceGray"@ || space == "CalGray"@,
    ensures
        raster_of(objects, raw, width, height, 1, space, dict) matches Ok(r) && {
            &&& r.width == width
            &&& r.height == height
            &&& r.is_gray
            &&& r.samples.len() == width * height
            &&& forall|row: int, col: int| #![trigger r.samples[row * width + col]]
                0 <= row < height && 0 <= col < width ==> {
                    let at = row * ((width + 7) / 8) + col / 8;
                    r.samples[row * width + col] == (if at < raw.len() && (raw[at] >> ((7 - col
                        % 8) as u8)) & 1u8 == 1 {
                        255u8
                    } else {
                        0u8
                    })
                }
        },
{
    lemma_spaces_differ();
    let bits = unpacked(raw, width as nat, height as nat, 1);
    let made = raster_of(objects, raw, width, height, 1, space, dict);
    assert(bits.len() == width * height);
    let r = made->Ok_0;
    assert(r.samples == black_or_white(bits));
    assert forall|row: int, col: int| #![trigger r.samples[row * width + col]]
        0 <= row < height && 0 <= col < width implies ({
        let at = row * ((width + 7) / 8) + col / 8;
        r.samples[row * width + col] == (if at < raw.len() && (raw[at] >> ((7 - col % 8) as u8))
            & 1u8 == 1 {
            255u8
        } else {
            0u8
        })
    }) by {
        let i = row * width + col;
        assert(0 <= i < width * height && i / width as int == row && i % width as int == col)
            by (nonlinear_arith)
            requires
                i == row * width + col,
                0 <= col < width,
                0 <= row < height,
        ;
        let byte = raw[row * ((width + 7) / 8) + col / 8];
        let shift = (7 - col % 8) as u8;
        assert((byte >> shift) & 1u8 == 0 || (byte >> shift) & 1u8 == 1) by (bit_vector);
        assert(bits[i] == sample_bit(raw, width as nat, 1, row as nat, col as nat));
    }
}

/// A picture of no size, in an unknown colour space or with an unsupported number of bits is none.
pub proof fn other_pictures_are_refused(
    objects: Map<(u32, u16), ObjectModel>,
    raw: Seq<u8>,
    width: u32,
    height: u32,
    bpc: i64,
    space: Seq<char>,
    dict: Seq<(Seq<u8>, ObjectModel)>,
)
    requires
        ({
            let is_gray = space == "DeviceGray"@ || space == "CalGray"@;
            ||| width == 0
            ||| height == 0
            ||| bpc != 8 && !(bpc == 1 && is_gray)
            ||| !is_gray && space != "DeviceRGB"@ && space != "CalRGB"@ && space != "DeviceCMYK"@
                && space != "Indexed"@
        }),
    ensures
        raster_of(objects, raw, width, height, bpc, space, dict) is Err,
{
    lemma_spaces_differ();
}

proof fn lemma_palette_color_at(palette: Seq<u8>, components: nat, indices: Seq<u8>, p: int, j: int)
    requires
        components == 1 || components == 3 || components == 4,
        0 <= p < indices.len(),
        0 <= j < 3,
    ensures
        palette_colors(palette, components, indices).len() == 3 * indices.len(),
        palette_colors(palette, components, indices)[3 * p + j] == palette_color(
            palette,
            components,
            indices[p],
        )[j],
    decreases indices.len(),
{
    palette_colors_are_triples(palette, components, indices);
    palette_colors_are_triples(palette, components, indices.drop_last());
    if p < indices.len() - 1 {
        lemma_palette_color_at(palette, components, indices.drop_last(), p, j);
    }
}

/// A byte of a palette, and zero past its end.
pub open spec fn byte_at(palette: Seq<u8>, i: int) -> int {
    if 0 <= i < palette.len() {
        palette[i] as int
    } else {
        0
    }
}

/// The picture shows an entry of the palette for each of its bytes: three channels of it where
/// the base is red, green and blue, one for all three where it is grey, and the mixed light where
/// it is cyan, magenta, yellow and black.
pub open spec fn shows_entries(
    r: RasterView,
    raw: Seq<u8>,
    palette: Seq<u8>,
    base: Seq<char>,
    pixels: int,
) -> bool {
    forall|p: int, j: int| #![trigger r.samples[3 * p + j]]
        0 <= p < pixels && 0 <= j < 3 ==> {
            let shown = r.samples[3 * p + j] as int;
            &&& base == "DeviceRGB"@ || base == "CalRGB"@ ==> shown == byte_at(
                palette,
                3 * raw[p] + j,
            )
            &&& base == "DeviceGray"@ || base == "CalGray"@ ==> shown == byte_at(
                palette,
                raw[p] as int,
            )
            &&& base == "DeviceCMYK"@ ==> {
                let left = (255 - byte_at(palette, 4 * raw[p] + j)) * (255 - byte_at(
                    palette,
                    4 * raw[p] + 3,
                ));
                &&& 255 * shown <= left <= 255 * (shown + 1)
                &&& byte_at(palette, 4 * raw[p] + j) == 0 && byte_at(palette, 4 * raw[p] + 3) == 0
                    ==> shown == 255
            }
        }
}

/// A picture whose samples are entries of a palette shows for each byte the colour of that entry,
/// and black past the end of the palette. The base of the palette is a name, or a list that begins
/// with one, and the palette is a string or a stream. Either may be referred to. With fewer bytes
/// than pixels there is no picture.
pub proof fn entries_become_their_colors(
    objects: Map<(u32, u16), ObjectModel>,
    raw: Seq<u8>,
    width: u32,
    height: u32,
    dict: Seq<(Seq<u8>, ObjectModel)>,
    space: ObjectModel,
    items: Seq<ObjectModel>,
    base_object: ObjectModel,
    name: Seq<u8>,
    table: ObjectModel,
    palette: Seq<u8>,
)
    requires
        width > 0,
        height > 0,
        lookup(dict, vstd::utf8::encode_utf8("ColorSpace"@)) == Some(space),
        resolved(objects, space) == Ok::<ObjectModel, Seq<char>>(ObjectModel::Array(items)),
        items.len() >= 4,
        resolved(objects, items[1]) == Ok::<ObjectModel, Seq<char>>(base_object),
        base_object == ObjectModel::Name(name) || (base_object matches ObjectModel::Array(list)
            && list.len() > 0 && list[0] == ObjectModel::Name(name)),
        resolved(objects, items[3]) == Ok::<ObjectModel, Seq<char>>(table),
        match table {
            ObjectModel::Text(bytes, _) => bytes == palette,
            ObjectModel::Stream(entries, content) => decoded_content(entries, content) == Ok::<
                Seq<u8>,
                Seq<char>,
            >(palette),
            _ => false,
        },
        ({
            let base = utf8_lossy(name);
            base == "DeviceRGB"@ || base == "CalRGB"@ || base == "DeviceGray"@ || base
                == "CalGray"@ || base == "DeviceCMYK"@
        }),
    ensures
        match raster_of(objects, raw, width, height, 8, "Indexed"@, dict) {
            Ok(r) => {
                &&& raw.len() >= width * height
                &&& r.width == width
                &&& r.height == height
                &&& !r.is_gray
                &&& r.samples.len() == 3 * (width * height)
                &&& shows_entries(r, raw, palette, utf8_lossy(name), width * height)
            },
            Err(_) => raw.len() < width * height,
        },
{
    lemma_spaces_differ();
    let base = utf8_lossy(name);
    let n = width as nat * height as nat;
    let components: nat = if base == "DeviceRGB"@ || base == "CalRGB"@ {
        3
    } else if base == "DeviceGray"@ || base == "CalGray"@ {
        1
    } else {
        4
    };
    assert(color_table_of(objects, dict) == Ok::<(Seq<u8>, nat), Seq<char>>((palette, components)));
    let used = if raw.len() < n {
        raw
    } else {
        raw.take(n as int)
    };
    let made = raster_of(objects, raw, width, height, 8, "Indexed"@, dict);
    let colors = palette_colors(palette, components, used);
    palette_colors_are_triples(palette, components, used);
    if let Ok(r) = made {
        assert forall|p: int, j: int| #![trigger r.samples[3 * p + j]]
            0 <= p < n && 0 <= j < 3 implies ({
            let shown = r.samples[3 * p + j] as int;
            &&& base == "DeviceRGB"@ || base == "CalRGB"@ ==> shown == byte_at(
                palette,
                3 * raw[p] + j,
            )
            &&& base == "DeviceGray"@ || base == "CalGray"@ ==> shown == byte_at(
                palette,
                raw[p] as int,
            )
            &&& base == "DeviceCMYK"@ ==> {
                let left = (255 - byte_at(palette, 4 * raw[p] + j)) * (255 - byte_at(
                    palette,
                    4 * raw[p] + 3,
                ));
                &&& 255 * shown <= left <= 255 * (shown + 1)
                &&& byte_at(palette, 4 * raw[p] + j) == 0 && byte_at(palette, 4 * raw[p] + 3) == 0
                    ==> shown == 255
            }
        }) by {
            lemma_palette_color_at(palette, components, used, p, j);
            assert(used[p] == raw[p]);
            assert(r.samples[3 * p + j] == colors[3 * p + j]);
            if components == 4 {
                let at = (raw[p] * 4) as nat;
                let pixel = seq![
                    palette_byte(palette, at),
                    palette_byte(palette, at + 1),
                    palette_byte(palette, at + 2),
                    palette_byte(palette, at + 3),
                ];
                every_pixel_is_mixed_by_itself(pixel, 0, j);
                assert(palette_color(palette, components, raw[p]) == rgb_of(pixel));
            }
        }
    }
}

/// A palette of fewer than four parts, one on a base that is not supported, and one that is neither
/// a string nor a stream make no picture.
pub proof fn damaged_palettes_are_refused(
    objects: Map<(u32, u16), ObjectModel>,
    raw: Seq<u8>,
    width: u32,
    height: u32,
    dict: Seq<(Seq<u8>, ObjectModel)>,
    items: Seq<ObjectModel>,
)
    requires
        lookup(dict, vstd::utf8::encode_utf8("ColorSpace"@)) == Some(ObjectModel::Array(items)),
        ({
            ||| items.len() < 4
            ||| items[1] matches ObjectModel::Name(name) && utf8_lossy(name) != "DeviceRGB"@
                && utf8_lossy(name) != "CalRGB"@ && utf8_lossy(name) != "DeviceGray"@
                && utf8_lossy(name) != "CalGray"@ && utf8_lossy(name) != "DeviceCMYK"@
            ||| items[3] is Integer
            ||| items[3] is Name
            ||| items[3] is Array
            ||| items[3] is Null
        }),
    ensures
        raster_of(objects, raw, width, height, 8, "Indexed"@, dict) is Err,
{
    lemma_spaces_differ();
}

// ---------------------------------------------------------------------------------------
// Pictures of a page
// ---------------------------------------------------------------------------------------

/// A picture as the PDF has it.
pub struct PdfPicture<'a> {
    pub id: (u32, u16),
    pub width: i64,
    pub height: i64,
    pub color_space: Option<String>,
    pub filters: Option<Vec<String>>,
    pub bits_per_component: Option<i64>,
    pub content: &'a [u8],
    pub dict: &'a lopdf::Dictionary,
}

#[verifier::ext_equal]
pub ghost struct PictureView {
    pub id: (u32, u16),
    pub width: i64,
    pub height: i64,
    pub color_space: Option<Seq<char>>,
    pub filters: Option<Seq<Seq<char>>>,
    pub bits_per_component: Option<i64>,
    pub content: Seq<u8>,
    pub dict: Seq<(Seq<u8>, ObjectModel)>,
}

impl<'a> View for PdfPicture<'a> {
    type V = PictureView;

    open spec fn view(&self) -> PictureView {
        PictureView {
            id: self.id,
            width: self.width,
            height: self.height,
            color_space: match self.color_space {
                Some(name) => Some(name@),
                None => None,
            },
            filters: match self.filters {
                Some(names) => Some(texts(names@)),
                None => None,
            },
            bits_per_component: self.bits_per_component,
            content: self.content@,
            dict: entries(*self.dict),
        }
    }
}

/// The contents of a list of pictures.
pub open spec fn picture_views(pictures: Seq<PdfPicture<'_>>) -> Seq<PictureView> {
    pictures.map_values(|p: PdfPicture| p@)
}

/// The object is a picture whose colour space is an array with nothing in it.
pub open spec fn has_no_color_space_name(o: Result<ObjectModel, Seq<char>>) -> bool {
    match o {
        Ok(ObjectModel::Stream(dict, _)) => {
            &&& lookup(dict, vstd::utf8::encode_utf8("Subtype"@)) == Some(
                ObjectModel::Name(vstd::utf8::encode_utf8("Image"@)),
            )
            &&& lookup(dict, vstd::utf8::encode_utf8("ColorSpace"@)) matches Some(
                ObjectModel::Array(items),
            )
            &&& items.len() == 0
        },
        _ => false,
    }
}

/// The external objects that a page's own resources list.
pub open spec fn page_xobjects(objects: Map<(u32, u16), ObjectModel>, page_id: (u32, u16)) -> Seq<
    (Seq<u8>, ObjectModel),
> {
    match dictionary_of(object_at(objects, page_id)) {
        Ok(page) => match dictionary_under(objects, page, vstd::utf8::encode_utf8("Resources"@)) {
            Ok(resources) => match dictionary_under(
                objects,
                resources,
                vstd::utf8::encode_utf8("XObject"@),
            ) {
                Ok(xobjects) => xobjects,
                Err(_) => Seq::empty(),
            },
            Err(_) => Seq::empty(),
        },
        Err(_) => Seq::empty(),
    }
}

/// The entry refers to a picture whose colour space is an array with nothing in it.
pub open spec fn refers_to_nameless(
    objects: Map<(u32, u16), ObjectModel>,
    entry: ObjectModel,
) -> bool {
    entry matches ObjectModel::Reference(id) && has_no_color_space_name(object_at(objects, id))
}

/// A picture among a page's external objects has an array with nothing in it for its colour
/// space. Such a page has no list of pictures.
pub open spec fn has_nameless_picture(
    objects: Map<(u32, u16), ObjectModel>,
    page_id: (u32, u16),
) -> bool {
    exists|i: int|
        0 <= i < page_xobjects(objects, page_id).len() && refers_to_nameless(
            objects,
            #[trigger] page_xobjects(objects, page_id)[i].1,
        )
}

/// The name of a colour space, or none where it has none. A list that does not begin with a name
/// is damaged.
pub open spec fn color_space_name(dict: Seq<(Seq<u8>, ObjectModel)>) -> Option<Option<Seq<char>>> {
    match lookup(dict, vstd::utf8::encode_utf8("ColorSpace"@)) {
        Some(ObjectModel::Array(items)) => match items[0] {
            ObjectModel::Name(name) => Some(Some(utf8_lossy(name))),
            _ => None,
        },
        Some(ObjectModel::Name(name)) => Some(Some(utf8_lossy(name))),
        _ => Some(None),
    }
}

/// The bits of a component, where they are stated. Anything but an integer is damaged.
pub open spec fn component_bits(dict: Seq<(Seq<u8>, ObjectModel)>) -> Option<Option<i64>> {
    match lookup(dict, vstd::utf8::encode_utf8("BitsPerComponent"@)) {
        Some(ObjectModel::Integer(bits)) => Some(Some(bits)),
        Some(_) => None,
        None => Some(None),
    }
}

/// The names of the filters. A list with anything but names is damaged.
pub open spec fn filter_texts(dict: Seq<(Seq<u8>, ObjectModel)>) -> Option<Seq<Seq<char>>> {
    match lookup(dict, vstd::utf8::encode_utf8("Filter"@)) {
        Some(ObjectModel::Array(items)) => match names_of(items) {
            Some(names) => Some(names.map_values(|name: Seq<u8>| utf8_lossy(name))),
            None => None,
        },
        Some(ObjectModel::Name(name)) => Some(seq![utf8_lossy(name)]),
        _ => Some(Seq::empty()),
    }
}

/// The picture that a stream is, if it is one that is not damaged.
pub open spec fn stream_picture(
    id: (u32, u16),
    dict: Seq<(Seq<u8>, ObjectModel)>,
    content: Seq<u8>,
) -> Option<PictureView> {
    match (
        lookup(dict, vstd::utf8::encode_utf8("Width"@)),
        lookup(dict, vstd::utf8::encode_utf8("Height"@)),
        color_space_name(dict),
        component_bits(dict),
        filter_texts(dict),
    ) {
        (
            Some(ObjectModel::Integer(width)),
            Some(ObjectModel::Integer(height)),
            Some(color_space),
            Some(bits_per_component),
            Some(filters),
        ) => Some(
            PictureView {
                id,
                width,
                height,
                color_space,
                filters: Some(filters),
                bits_per_component,
                content,
                dict,
            },
        ),
        _ => None,
    }
}

/// The pictures that some external objects are, in their order. Everything but a picture is
/// passed over, but a damaged entry spoils the list.
pub open spec fn xobject_pictures(
    objects: Map<(u32, u16), ObjectModel>,
    xobjects: Seq<(Seq<u8>, ObjectModel)>,
) -> Option<Seq<PictureView>>
    decreases xobjects.len(),
{
    if xobjects.len() == 0 {
        Some(Seq::empty())
    } else {
        match (xobject_pictures(objects, xobjects.drop_last()), xobjects.last().1) {
            (Some(before), ObjectModel::Reference(id)) => match object_at(objects, id) {
                Ok(ObjectModel::Stream(dict, content)) => match lookup(
                    dict,
                    vstd::utf8::encode_utf8("Subtype"@),
                ) {
                    Some(ObjectModel::Name(kind)) => if kind != vstd::utf8::encode_utf8(
                        "Image"@,
                    ) {
                        Some(before)
                    } else {
                        match stream_picture(id, dict, content) {
                            Some(picture) => Some(before.push(picture)),
                            None => None,
                        }
                    },
                    _ => None,
                },
                _ => None,
            },
            _ => None,
        }
    }
}

/// The pictures that a page's own resources list, in their order there. A page whose resources
/// are damaged has no list, and one that is not there has an empty one.
pub open spec fn page_pictures_of(
    objects: Map<(u32, u16), ObjectModel>,
    page_id: (u32, u16),
) -> Option<Seq<PictureView>> {
    match dictionary_of(object_at(objects, page_id)) {
        Err(_) => Some(Seq::empty()),
        Ok(page) => match dictionary_under(objects, page, vstd::utf8::encode_utf8("Resources"@)) {
            Err(_) => None,
            Ok(resources) => {
                let key = vstd::utf8::encode_utf8("XObject"@);
                if lookup(resources, key) is None {
                    Some(Seq::empty())
                } else {
                    match dictionary_under(objects, resources, key) {
                        Err(_) => None,
                        Ok(xobjects) => xobject_pictures(objects, xobjects),
                    }
                }
            },
        },
    }
}

/// `lopdf::Document::get_page_images` lists the pictures among the external objects of a page,
/// or fails on the first damaged one. It reads the first item of a colour space that is an array
/// without looking whether there is one, so a page with such an array that is empty is left out.
#[verifier::external_body]
fn page_pictures<'a>(doc: &'a lopdf::Document, page_id: (u32, u16)) -> (r: Option<
    Vec<PdfPicture<'a>>,
>)
    requires
        !has_nameless_picture(document_objects(*doc), page_id),
    ensures
        match page_pictures_of(document_objects(*doc), page_id) {
            Some(views) => r matches Some(pictures) && picture_views(pictures@) == views,
            None => r is None,
        },
{
    let convert = |p: lopdf::xobject::PdfImage<'a>| PdfPicture {
        id: p.id,
        width: p.width,
        height: p.height,
        color_space: p.color_space,
        filters: p.filters,
        bits_per_component: p.bits_per_component,
        content: p.content,
        dict: p.origin_dict,
    };
    doc.get_page_images(page_id).ok().map(|list| list.into_iter().map(convert).collect())
}

fn is_nameless(doc: &lopdf::Document, entry: &lopdf::Object) -> (r: bool)
    ensures
        r == refers_to_nameless(document_objects(*doc), object_model(*entry)),
{
    let id = match as_reference(entry) {
        Ok(id) => id,
        Err(_) => {
            return false;
        },
    };
    let object = match get_object(doc, id) {
        Ok(object) => object,
        Err(_) => {
            return false;
        },
    };
    let dict = match as_stream(object) {
        Ok(stream) => stream_dictionary(stream),
        Err(_) => {
            return false;
        },
    };
    let is_picture = match get_entry(dict, "Subtype".as_bytes()) {
        Ok(kind) => match as_name(kind) {
            Ok(name) => same_bytes(name, "Image".as_bytes()),
            Err(_) => false,
        },
        Err(_) => false,
    };
    if !is_picture {
        return false;
    }
    match get_entry(dict, "ColorSpace".as_bytes()) {
        Ok(space) => match as_array(space) {
            Ok(items) => {
                assert(object_models(items@).len() == items@.len());
                items.len() == 0
            },
            Err(_) => false,
        },
        Err(_) => false,
    }
}

fn find_nameless_picture(doc: &lopdf::Document, page_id: (u32, u16)) -> (r: bool)
    ensures
        r == has_nameless_picture(document_objects(*doc), page_id),
{
    let page = match get_dictionary(doc, page_id) {
        Ok(page) => page,
        Err(_) => {
            return false;
        },
    };
    let resources = match get_dictionary_under(doc, page, "Resources".as_bytes()) {
        Ok(resources) => resources,
        Err(_) => {
            return false;
        },
    };
    let xobjects = match get_dictionary_under(doc, resources, "XObject".as_bytes()) {
        Ok(xobjects) => xobjects,
        Err(_) => {
            return false;
        },
    };
    let values = entry_values(xobjects);
    let ghost all = page_xobjects(document_objects(*doc), page_id);
    assert(all == entries(*xobjects));
    for i in 0..values.len()
        invariant
            all == page_xobjects(document_objects(*doc), page_id),
            values@.len() == all.len(),
            forall|k: int|
                0 <= k < values@.len() ==> object_model(*#[trigger] values@[k]) == all[k].1,
            forall|k: int|
                0 <= k < i ==> !refers_to_nameless(document_objects(*doc), #[trigger] all[k].1),
    {
        if is_nameless(doc, values[i]) {
            assert(refers_to_nameless(document_objects(*doc), all[i as int].1));
            return true;
        }
    }
    false
}

/// A list of texts as it is shown to a developer.
pub uninterp spec fn debug_list(items: Seq<Seq<char>>) -> Seq<char>;

/// `format!` with `{:?}` writes out a list of texts, each one quoted and escaped.
#[verifier::external_body]
fn show_list(items: &Vec<String>) -> (r: String)
    ensures
        r@ == debug_list(texts(items@)),
{
    format!("{items:?}")
}

/// The bytes of a PNG file with this picture, or why there is none.
pub uninterp spec fn png_of(
    width: nat,
    height: nat,
    is_gray: bool,
    samples: Seq<u8>,
) -> Result<Seq<u8>, Seq<char>>;

/// `image::DynamicImage::write_to` encodes a picture as PNG. The bytes depend on the picture
/// alone. It insists on exactly as many samples as the picture has.
#[verifier::external_body]
fn encode_png(raster: Raster) -> (r: Result<Vec<u8>, String>)
    requires
        raster@.wf(),
    ensures
        match png_of(raster@.width, raster@.height, raster@.is_gray, raster@.samples) {
            Ok(bytes) => r matches Ok(v) && v@ == bytes,
            Err(text) => r matches Err(e) && e@ == text,
        },
{
    let (w, h, samples) = (raster.width, raster.height, raster.samples);
    let picture = if raster.is_gray {
        image::GrayImage::from_raw(w, h, samples).map(image::DynamicImage::ImageLuma8)
    } else {
        image::RgbImage::from_raw(w, h, samples).map(image::DynamicImage::ImageRgb8)
    };
    let mut out = std::io::Cursor::new(Vec::new());
    let picture = picture.ok_or_else(String::new)?;
    picture.write_to(&mut out, image::ImageFormat::Png).map_err(|e| e.to_string())?;
    Ok(out.into_inner())
}

/// A size in pixels, which is not negative.
pub open spec fn pixels(v: i64) -> u32 {
    (if v < 0 {
        0i64
    } else {
        v
    }) as u32
}

/// A size in pixels is the one that is stated, and none where a negative one is.
pub proof fn negative_sizes_count_as_none(v: i64)
    ensures
        v <= 0 ==> pixels(v) == 0,
        0 <= v <= u32::MAX ==> pixels(v) == v,
{
}

/// The name of a picture's file, without its extension.
pub open spec fn file_stem_of(id: (u32, u16)) -> Seq<char> {
    "img_"@ + decimal(id.0 as nat) + "_"@ + decimal(id.1 as nat)
}

/// The name and the type of a file are those that the picture of this number is given.
pub open spec fn is_named_after(image: ImageView, id: (u32, u16)) -> bool {
    ||| image.filename == file_stem_of(id) + ".jpg"@ && image.mime == "image/jpeg"@
    ||| image.filename == file_stem_of(id) + ".png"@ && image.mime == "image/png"@
}

/// The name and the type of a file are those that some picture of a PDF is given.
pub open spec fn is_named_here(image: ImageView) -> bool {
    exists|id: (u32, u16)| is_named_after(image, id)
}

/// A character that can stand in the path of a picture.
pub open spec fn is_path_char(c: char) -> bool {
    ||| '0' <= c && c <= '9'
    ||| "imagesjpn"@.contains(c)
    ||| c == '_' || c == '/' || c == '.'
}

spec fn are_path_chars(s: Seq<char>) -> bool {
    forall|i: int| 0 <= i < s.len() ==> is_path_char(#[trigger] s[i])
}

proof fn lemma_path_chars_concat(a: Seq<char>, b: Seq<char>)
    requires
        are_path_chars(a),
        are_path_chars(b),
    ensures
        are_path_chars(a + b),
{
    assert forall|i: int| 0 <= i < (a + b).len() implies is_path_char(#[trigger] (a + b)[i]) by {
        if i < a.len() {
            assert((a + b)[i] == a[i]);
        } else {
            assert((a + b)[i] == b[i - a.len()]);
        }
    }
}

proof fn lemma_decimal_path_chars(n: nat)
    ensures
        are_path_chars(decimal(n)),
{
    crate::text::lemma_decimal_digits(n);
}

/// The path of a picture in the book has few kinds of characters, and begins as all such paths do.
pub proof fn picture_paths_are_simple(image: ImageView)
    requires
        is_named_here(image),
    ensures
        "images/img_"@.is_prefix_of("images/"@ + image.filename),
        forall|i: int|
            0 <= i < ("images/"@ + image.filename).len() ==> is_path_char(
                #[trigger] ("images/"@ + image.filename)[i],
            ),
{
    let id = choose|id: (u32, u16)| is_named_after(image, id);
    let extension = if image.filename == file_stem_of(id) + ".jpg"@ {
        ".jpg"@
    } else {
        ".png"@
    };
    reveal_strlit("images/img_");
    reveal_strlit("images/");
    reveal_strlit("imagesjpn");
    reveal_strlit("img_");
    reveal_strlit("_");
    reveal_strlit(".jpg");
    reveal_strlit(".png");
    let letters = "imagesjpn"@;
    assert(letters[0] == 'i' && letters[1] == 'm' && letters[2] == 'a' && letters[3] == 'g'
        && letters[4] == 'e' && letters[5] == 's' && letters[6] == 'j' && letters[7] == 'p'
        && letters[8] == 'n');
    assert(are_path_chars("images/"@));
    assert(are_path_chars("img_"@));
    assert(are_path_chars("_"@));
    assert(are_path_chars(extension));
    lemma_decimal_path_chars(id.0 as nat);
    lemma_decimal_path_chars(id.1 as nat);
    lemma_path_chars_concat("img_"@, decimal(id.0 as nat));
    lemma_path_chars_concat("img_"@ + decimal(id.0 as nat), "_"@);
    lemma_path_chars_concat("img_"@ + decimal(id.0 as nat) + "_"@, decimal(id.1 as nat));
    lemma_path_chars_concat(file_stem_of(id), extension);
    lemma_path_chars_concat("images/"@, image.filename);
    let path = "images/"@ + image.filename;
    assert(path.take(11) == "images/img_"@);
}

/// The filters of a picture.
pub open spec fn filters_of(picture: PictureView) -> Seq<Seq<char>> {
    match picture.filters {
        Some(names) => names,
        None => Seq::empty(),
    }
}

/// The samples of a picture, once its filters are undone.
pub open spec fn decoded_of(
    objects: Map<(u32, u16), ObjectModel>,
    picture: PictureView,
) -> Result<RasterView, Seq<char>> {
    match object_at(objects, picture.id) {
        Err(e) => Err(e),
        Ok(ObjectModel::Stream(dict, content)) => match decoded_content(dict, content) {
            Err(e) => Err(e),
            Ok(raw) => raster_of(
                objects,
                raw,
                pixels(picture.width),
                pixels(picture.height),
                match picture.bits_per_component {
                    Some(bits) => bits,
                    None => 8,
                },
                match picture.color_space {
                    Some(name) => name,
                    None => "DeviceGray"@,
                },
                picture.dict,
            ),
        },
        Ok(other) => Err(wrong_type("Stream"@, other)),
    }
}

/// The file that a picture becomes, given its PNG.
pub open spec fn png_asset_of(picture: PictureView, png: Result<Seq<u8>, Seq<char>>) -> Result<
    ImageView,
    Seq<char>,
> {
    match png {
        Err(e) => Err(e),
        Ok(bytes) => Ok(
            ImageView {
                filename: file_stem_of(picture.id) + ".png"@,
                bytes,
                mime: "image/png"@,
                width: pixels(picture.width) as nat,
                height: pixels(picture.height) as nat,
            },
        ),
    }
}

/// The file that a picture becomes. JPEG data is passed through untouched, and samples that can
/// be decoded become a PNG.
pub open spec fn asset_of(
    objects: Map<(u32, u16), ObjectModel>,
    picture: PictureView,
) -> Result<ImageView, Seq<char>> {
    let filters = filters_of(picture);
    if filters.contains("DCTDecode"@) {
        if filters.len() == 1 {
            Ok(
                ImageView {
                    filename: file_stem_of(picture.id) + ".jpg"@,
                    bytes: picture.content,
                    mime: "image/jpeg"@,
                    width: pixels(picture.width) as nat,
                    height: pixels(picture.height) as nat,
                },
            )
        } else {
            Err("DCTDecode combinado com outros filtros ("@ + debug_list(filters) + ")"@)
        }
    } else if filters.contains("JPXDecode"@) || filters.contains("CCITTFaxDecode"@)
        || filters.contains("JBIG2Decode"@) {
        Err("codec não suportado: "@ + debug_list(filters))
    } else {
        match decoded_of(objects, picture) {
            Err(e) => Err(e),
            Ok(raster) => png_asset_of(
                picture,
                png_of(raster.width, raster.height, raster.is_gray, raster.samples),
            ),
        }
    }
}

fn names_filter(filters: &Vec<String>, name: &str) -> (r: bool)
    ensures
        r == texts(filters@).contains(name@),
{
    let wanted: String = name.to_owned();
    for i in 0..filters.len()
        invariant
            wanted@ == name@,
            forall|k: int| 0 <= k < i ==> #[trigger] texts(filters@)[k] != name@,
    {
        assert(texts(filters@)[i as int] == filters@[i as int]@);
        if filters[i] == wanted {
            return true;
        }
    }
    false
}

fn file_name(id: (u32, u16), extension: &str) -> (r: String)
    ensures
        r@ == file_stem_of(id) + extension@,
{
    let mut name: String = "img_".to_owned();
    push_decimal(&mut name, id.0 as u128);
    name.append("_");
    push_decimal(&mut name, id.1 as u128);
    name.append(extension);
    name
}

fn decode_picture(doc: &lopdf::Document, picture: &PdfPicture<'_>) -> (r: Result<Raster, String>)
    ensures
        is_raster(r, decoded_of(document_objects(*doc), picture@)),
{
    let object = get_object(doc, picture.id)?;
    let stream = as_stream(object)?;
    let raw = decode_stream(stream)?;
    let bpc: i64 = match picture.bits_per_component {
        Some(bits) => bits,
        None => 8,
    };
    let space: String = match &picture.color_space {
        Some(name) => name.clone(),
        None => "DeviceGray".to_owned(),
    };
    decode_raster(
        raw.as_slice(),
        to_pixels(picture.width),
        to_pixels(picture.height),
        bpc,
        space.as_str(),
        picture.dict,
        doc,
    )
}

/// Turns a picture into a file for the book, given its PNG: see `png_asset_of`.
pub fn png_asset(picture: &PdfPicture<'_>, png: Result<Vec<u8>, String>) -> (r: Result<
    ImageAsset,
    String,
>)
    ensures
        match png_asset_of(
            picture@,
            match png {
                Ok(bytes) => Ok(bytes@),
                Err(e) => Err(e@),
            },
        ) {
            Ok(view) => r matches Ok(asset) && asset@ == view,
            Err(text) => r matches Err(e) && e@ == text,
        },
{
    let bytes = png?;
    Ok(
        ImageAsset {
            filename: file_name(picture.id, ".png"),
            bytes,
            mime: "image/png",
            width: to_pixels(picture.width),
            height: to_pixels(picture.height),
        },
    )
}

fn to_pixels(v: i64) -> (r: u32)
    ensures
        r == pixels(v),
{
    let size: i64 = if v < 0 {
        0
    } else {
        v
    };
    size as u32
}

/// Turns a picture into a file for the book: see `asset_of`.
pub fn build_asset(doc: &lopdf::Document, picture: &PdfPicture<'_>) -> (r: Result<
    ImageAsset,
    String,
>)
    ensures
        match asset_of(document_objects(*doc), picture@) {
            Ok(view) => r matches Ok(asset) && asset@ == view,
            Err(text) => r matches Err(e) && e@ == text,
        },
{
    let none: Vec<String> = Vec::new();
    assert(texts(none@) == Seq::<Seq<char>>::empty());
    let filters: &Vec<String> = match &picture.filters {
        Some(names) => names,
        None => &none,
    };
    assert(texts(filters@) == filters_of(picture@));
    if names_filter(filters, "DCTDecode") {
        if filters.len() == 1 {
            return Ok(
                ImageAsset {
                    filename: file_name(picture.id, ".jpg"),
                    bytes: vstd::slice::slice_to_vec(picture.content),
                    mime: "image/jpeg",
                    width: to_pixels(picture.width),
                    height: to_pixels(picture.height),
                },
            );
        }
        let list = show_list(filters);
        let mut message: String = "DCTDecode combinado com outros filtros (".to_owned();
        message.append(list.as_str());
        message.append(")");
        return Err(message);
    }
    if names_filter(filters, "JPXDecode") || names_filter(filters, "CCITTFaxDecode")
        || names_filter(filters, "JBIG2Decode") {
        let list = show_list(filters);
        return Err(joined("codec não suportado: ", list.as_str()));
    }
    let raster = decode_picture(doc, picture)?;
    png_asset(picture, encode_png(raster))
}

/// The files that some pictures become, each with the number of its object. Those that cannot
/// be decoded are left out.
pub open spec fn assets_of(
    objects: Map<(u32, u16), ObjectModel>,
    pictures: Seq<PictureView>,
) -> Seq<((u32, u16), ImageView)>
    decreases pictures.len(),
{
    if pictures.len() == 0 {
        Seq::empty()
    } else {
        let before = assets_of(objects, pictures.drop_last());
        match asset_of(objects, pictures.last()) {
            Ok(asset) => before.push((pictures.last().id, asset)),
            Err(_) => before,
        }
    }
}

/// What is reported of a picture that was left out.
pub open spec fn ignored_message(id: (u32, u16), reason: Seq<char>) -> Seq<char> {
    "imagem "@ + decimal(id.0 as nat) + ":"@ + decimal(id.1 as nat) + " ignorada ("@ + reason
        + ")"@
}

/// One message for each picture that was left out.
pub open spec fn ignored_messages(
    objects: Map<(u32, u16), ObjectModel>,
    pictures: Seq<PictureView>,
) -> Seq<Seq<char>>
    decreases pictures.len(),
{
    if pictures.len() == 0 {
        Seq::empty()
    } else {
        let before = ignored_messages(objects, pictures.drop_last());
        match asset_of(objects, pictures.last()) {
            Ok(_) => before,
            Err(e) => before.push(ignored_message(pictures.last().id, e)),
        }
    }
}

/// The pictures of a page, and none where they cannot be listed.
pub open spec fn listed_pictures(
    objects: Map<(u32, u16), ObjectModel>,
    page_id: (u32, u16),
) -> Seq<PictureView> {
    if has_nameless_picture(objects, page_id) {
        Seq::empty()
    } else {
        match page_pictures_of(objects, page_id) {
            Some(pictures) => pictures,
            None => Seq::empty(),
        }
    }
}

/// The contents of a list of files.
pub open spec fn asset_views(assets: Seq<((u32, u16), ImageAsset)>) -> Seq<
    ((u32, u16), ImageView),
> {
    assets.map_values(|a: ((u32, u16), ImageAsset)| (a.0, a.1@))
}

/// Every picture is either taken or reported.
pub proof fn every_picture_is_taken_or_reported(
    objects: Map<(u32, u16), ObjectModel>,
    pictures: Seq<PictureView>,
)
    ensures
        assets_of(objects, pictures).len() + ignored_messages(objects, pictures).len()
            == pictures.len(),
    decreases pictures.len(),
{
    if pictures.len() > 0 {
        every_picture_is_taken_or_reported(objects, pictures.drop_last());
    }
}

/// Every picture that is taken out of a PDF is named after the number of its object.
pub proof fn pictures_are_named_after_their_objects(
    objects: Map<(u32, u16), ObjectModel>,
    pictures: Seq<PictureView>,
    i: int,
)
    requires
        0 <= i < assets_of(objects, pictures).len(),
    ensures
        is_named_after(assets_of(objects, pictures)[i].1, assets_of(objects, pictures)[i].0),
    decreases pictures.len(),
{
    let less = assets_of(objects, pictures.drop_last());
    if i < less.len() {
        pictures_are_named_after_their_objects(objects, pictures.drop_last(), i);
    }
}

/// JPEG data that no other filter was put on becomes a file as it is, with the size that the
/// picture states, named after the picture's object.
pub proof fn jpeg_data_is_passed_through(
    objects: Map<(u32, u16), ObjectModel>,
    picture: PictureView,
)
    requires
        picture.filters == Some(seq!["DCTDecode"@]),
        0 <= picture.width <= u32::MAX,
        0 <= picture.height <= u32::MAX,
    ensures
        asset_of(objects, picture) matches Ok(file) && {
            &&& file.bytes == picture.content
            &&& file.mime == "image/jpeg"@
            &&& file.width == picture.width
            &&& file.height == picture.height
            &&& file.filename == "img_"@ + decimal(picture.id.0 as nat) + "_"@ + decimal(
                picture.id.1 as nat,
            ) + ".jpg"@
        },
{
    let filters = seq!["DCTDecode"@];
    assert(filters_of(picture) == filters);
    assert(filters[0] == "DCTDecode"@);
    assert(filters.contains("DCTDecode"@));
}

/// JPEG data under another filter, and the codecs for JPEG 2000, fax and bilevel pictures, are
/// refused.
pub proof fn other_codecs_are_refused(
    objects: Map<(u32, u16), ObjectModel>,
    picture: PictureView,
    filters: Seq<Seq<char>>,
)
    requires
        picture.filters == Some(filters),
        ({
            ||| filters.contains("DCTDecode"@) && filters.len() > 1
            ||| !filters.contains("DCTDecode"@) && filters.contains("JPXDecode"@)
            ||| !filters.contains("DCTDecode"@) && filters.contains("CCITTFaxDecode"@)
            ||| !filters.contains("DCTDecode"@) && filters.contains("JBIG2Decode"@)
        }),
    ensures
        asset_of(objects, picture) is Err,
{
}

/// Samples become a PNG of the picture's size, named after the picture's object. A picture that
/// states no bits has eight, and one that states no colour space is grey.
pub proof fn samples_become_a_png(
    objects: Map<(u32, u16), ObjectModel>,
    picture: PictureView,
    dict: Seq<(Seq<u8>, ObjectModel)>,
    content: Seq<u8>,
    raw: Seq<u8>,
    bits: i64,
    space: Seq<char>,
    raster: RasterView,
    bytes: Seq<u8>,
)
    requires
        picture.filters matches Some(filters) ==> !filters.contains("DCTDecode"@)
            && !filters.contains("JPXDecode"@) && !filters.contains("CCITTFaxDecode"@)
            && !filters.contains("JBIG2Decode"@),
        0 <= picture.width <= u32::MAX,
        0 <= picture.height <= u32::MAX,
        object_at(objects, picture.id) == Ok::<ObjectModel, Seq<char>>(
            ObjectModel::Stream(dict, content),
        ),
        decoded_content(dict, content) == Ok::<Seq<u8>, Seq<char>>(raw),
        picture.bits_per_component == Some(bits) || picture.bits_per_component is None && bits == 8,
        picture.color_space == Some(space) || picture.color_space is None && space
            == "DeviceGray"@,
        raster_of(
            objects,
            raw,
            picture.width as u32,
            picture.height as u32,
            bits,
            space,
            picture.dict,
        ) == Ok::<RasterView, Seq<char>>(raster),
        png_of(raster.width, raster.height, raster.is_gray, raster.samples) == Ok::<
            Seq<u8>,
            Seq<char>,
        >(bytes),
    ensures
        asset_of(objects, picture) matches Ok(file) && {
            &&& file.bytes == bytes
            &&& file.mime == "image/png"@
            &&& file.width == picture.width
            &&& file.height == picture.height
            &&& file.filename == "img_"@ + decimal(picture.id.0 as nat) + "_"@ + decimal(
                picture.id.1 as nat,
            ) + ".png"@
        },
{
    if picture.filters is None {
        assert(forall|name: Seq<char>| !#[trigger] filters_of(picture).contains(name));
    }
}

/// The files are those of the pictures that can be turned into one, in the order of the pictures,
/// each with the number of its picture's object, and the messages tell of the others, in the same
/// order.
pub proof fn files_and_messages_follow_the_pictures(
    objects: Map<(u32, u16), ObjectModel>,
    pictures: Seq<PictureView>,
)
    ensures
        assets_of(objects, pictures) == pictures.filter(
            |p: PictureView| asset_of(objects, p) is Ok,
        ).map_values(|p: PictureView| (p.id, asset_of(objects, p)->Ok_0)),
        ignored_messages(objects, pictures) == pictures.filter(
            |p: PictureView| asset_of(objects, p) is Err,
        ).map_values(
            |p: PictureView|
                "imagem "@ + decimal(p.id.0 as nat) + ":"@ + decimal(p.id.1 as nat)
                    + " ignorada ("@ + asset_of(objects, p)->Err_0 + ")"@,
        ),
    decreases pictures.len(),
{
    reveal(Seq::filter);
    let taken = |p: PictureView| asset_of(objects, p) is Ok;
    let lost = |p: PictureView| asset_of(objects, p) is Err;
    let file = |p: PictureView| (p.id, asset_of(objects, p)->Ok_0);
    let message = |p: PictureView|
        "imagem "@ + decimal(p.id.0 as nat) + ":"@ + decimal(p.id.1 as nat) + " ignorada ("@
            + asset_of(objects, p)->Err_0 + ")"@;
    if pictures.len() > 0 {
        let less = pictures.drop_last();
        let p = pictures.last();
        files_and_messages_follow_the_pictures(objects, less);
        assert(less.filter(taken).push(p).map_values(file) == less.filter(taken).map_values(
            file,
        ).push(file(p)));
        assert(less.filter(lost).push(p).map_values(message) == less.filter(lost).map_values(
            message,
        ).push(message(p)));
    } else {
        assert(pictures.filter(taken).map_values(file) == Seq::<((u32, u16), ImageView)>::empty());
        assert(pictures.filter(lost).map_values(message) == Seq::<Seq<char>>::empty());
    }
}

fn report_ignored(id: (u32, u16), reason: &str) -> (r: String)
    ensures
        r@ == ignored_message(id, reason@),
{
    let mut message: String = "imagem ".to_owned();
    push_decimal(&mut message, id.0 as u128);
    message.append(":");
    push_decimal(&mut message, id.1 as u128);
    message.append(" ignorada (");
    message.append(reason);
    message.append(")");
    message
}

/// Turns pictures into files for the book, each with the number of its object. Pictures that
/// cannot be decoded (an unsupported codec, bit depth or colour space) are left out with a
/// message in `log` rather than failing the run.
pub fn build_assets(
    doc: &lopdf::Document,
    pictures: &Vec<PdfPicture<'_>>,
    log: &mut Vec<String>,
) -> (r: Vec<((u32, u16), ImageAsset)>)
    ensures
        asset_views(r@) == assets_of(document_objects(*doc), picture_views(pictures@)),
        texts(final(log)@) == texts(old(log)@) + ignored_messages(
            document_objects(*doc),
            picture_views(pictures@),
        ),
{
    let ghost objects = document_objects(*doc);
    let ghost said = texts(log@);
    let mut out: Vec<((u32, u16), ImageAsset)> = Vec::new();
    assert(asset_views(out@) == Seq::<((u32, u16), ImageView)>::empty());
    assert(said + Seq::<Seq<char>>::empty() == said);
    let ghost views = picture_views(pictures@);
    assert(views.take(0) == Seq::<PictureView>::empty());
    for i in 0..pictures.len()
        invariant
            objects == document_objects(*doc),
            views == picture_views(pictures@),
            asset_views(out@) == assets_of(objects, views.take(i as int)),
            texts(log@) == said + ignored_messages(objects, views.take(i as int)),
    {
        let ghost kept = out@;
        let ghost before = log@;
        assert(views.take(i + 1).drop_last() == views.take(i as int));
        assert(views.take(i + 1).last() == pictures@[i as int]@);
        let picture = &pictures[i];
        match build_asset(doc, picture) {
            Ok(asset) => {
                let ghost view = asset@;
                out.push((picture.id, asset));
                assert(asset_views(out@) == asset_views(kept).push((picture.id, view)));
            },
            Err(e) => {
                let message = report_ignored(picture.id, e.as_str());
                let ghost words = message@;
                log.push(message);
                assert(texts(log@) == texts(before).push(words));
                assert(said + ignored_messages(objects, views.take(i + 1)) == (said
                    + ignored_messages(objects, views.take(i as int))).push(words));
            },
        }
    }
    assert(views.take(pictures@.len() as int) == views);
    out
}

/// Takes every picture placed on a page, each with the number of its object: see `build_assets`.
pub fn extract_page_images(
    doc: &lopdf::Document,
    page_id: (u32, u16),
    log: &mut Vec<String>,
) -> (r: Vec<((u32, u16), ImageAsset)>)
    ensures
        asset_views(r@) == assets_of(
            document_objects(*doc),
            listed_pictures(document_objects(*doc), page_id),
        ),
        texts(final(log)@) == texts(old(log)@) + ignored_messages(
            document_objects(*doc),
            listed_pictures(document_objects(*doc), page_id),
        ),
{
    let ghost said = texts(log@);
    let out: Vec<((u32, u16), ImageAsset)> = Vec::new();
    assert(asset_views(out@) == Seq::<((u32, u16), ImageView)>::empty());
    assert(said + Seq::<Seq<char>>::empty() == said);
    if find_nameless_picture(doc, page_id) {
        return out;
    }
    match page_pictures(doc, page_id) {
        Some(pictures) => build_assets(doc, &pictures, log),
        None => out,
    }
}

} // verus!
