//! Turns the pages of a PDF into a flow of lines and pictures.
use vstd::prelude::*;

use crate::pdf_source::{
    as_array, as_dictionary, as_integer, as_real, as_reference, as_string, dictionary_of,
    dictionary_under, document_last_id, document_objects, document_trailer, entries,
    get_dictionary, get_entry, is_dictionary, lookup, object_at, object_count, object_model,
    object_models, page_content_of, resolve, resolved, trailer, ObjectModel,
};
use crate::flow::{
    event_heights, every_event_stands_on_its_page, finish_page, from_the_top, page_events,
    page_message, placed_views, run_views,
};
use crate::images::{
    asset_views, assets_of, extract_page_images, ignored_messages, is_named_after, is_named_here,
    listed_pictures, pictures_are_named_after_their_objects,
};
use crate::order::ranked;
use crate::page_scan::{
    decoded_view, draw_views, is_page_scan, is_sanitized, may_hold_inline_picture, may_read,
    only_extracted_pictures_are_noted, operation_models, operations_of, page_scan_of,
    patch_page_contents, reads_anything, replaced_content, sanitize_and_locate_images, Draw,
    PageScan, Step,
};
use crate::pdf_model::{
    image_views, page_views, DocView, EventView, ExtractedDoc, ImageAsset, ImageView, PageFlow,
    PageView, TextRun,
};
use crate::text::{decimal, is_blank, optional, push_decimal, texts, trimmed};

verus! {

// ---------------------------------------------------------------------------------------
// Text strings
// ---------------------------------------------------------------------------------------

/// `char::from_u32` makes a character of its code point, and none of any other number.
pub assume_specification[ char::from_u32 ](i: u32) -> (r: Option<char>)
    ensures
        r is Some <==> (i < 0xd800 || 0xe000 <= i <= 0x10ffff),
        r matches Some(c) ==> c as int == i as int,
;

pub open spec fn is_high_surrogate(u: u16) -> bool {
    0xd800 <= u < 0xdc00
}

pub open spec fn is_low_surrogate(u: u16) -> bool {
    0xdc00 <= u < 0xe000
}

/// The character that two surrogates stand for together.
pub open spec fn surrogate_pair(high: u16, low: u16) -> char {
    (0x10000 + (high - 0xd800) * 0x400 + (low - 0xdc00)) as char
}

/// The text that units of UTF-16 spell. A surrogate that stands alone becomes a replacement
/// character.
pub open spec fn utf16_text(units: Seq<u16>) -> Seq<char>
    decreases units.len(),
{
    if units.len() == 0 {
        Seq::empty()
    } else if !is_high_surrogate(units[0]) && !is_low_surrogate(units[0]) {
        seq![units[0] as char] + utf16_text(units.skip(1))
    } else if is_high_surrogate(units[0]) && units.len() > 1 && is_low_surrogate(units[1]) {
        seq![surrogate_pair(units[0], units[1])] + utf16_text(units.skip(2))
    } else {
        seq!['\u{fffd}'] + utf16_text(units.skip(1))
    }
}

/// The units of a string of bytes, the high byte first. An odd byte at the end is left out.
pub open spec fn big_endian_units(bytes: Seq<u8>) -> Seq<u16> {
    Seq::new(bytes.len() / 2, |i: int| (bytes[2 * i] * 256 + bytes[2 * i + 1]) as u16)
}

/// The string begins with the byte order mark of UTF-16.
pub open spec fn has_byte_order_mark(bytes: Seq<u8>) -> bool {
    bytes.len() >= 2 && bytes[0] == 0xfe && bytes[1] == 0xff
}

/// The text of a PDF string: UTF-16 behind a byte order mark, and else one character for each
/// byte.
pub open spec fn string_text(bytes: Seq<u8>) -> Seq<char> {
    if has_byte_order_mark(bytes) {
        utf16_text(big_endian_units(bytes.skip(2)))
    } else {
        Seq::new(bytes.len(), |i: int| bytes[i] as char)
    }
}

fn decode_utf16(units: &Vec<u16>) -> (r: String)
    ensures
        r@ == utf16_text(units@),
{
    let mut out = String::new();
    let mut i: usize = 0;
    assert(units@.skip(0) == units@);
    while i < units.len()
        invariant
            i <= units@.len(),
            out@ + utf16_text(units@.skip(i as int)) == utf16_text(units@),
        decreases units@.len() - i,
    {
        let ghost before = out@;
        let ghost rest = units@.skip(i as int);
        let unit: u16 = units[i];
        assert(rest[0] == unit);
        let pair = unit >= 0xd800 && unit < 0xdc00 && i + 1 < units.len() && units[i + 1] >= 0xdc00
            && units[i + 1] < 0xe000;
        let code: u32 = if pair {
            0x10000 + (unit - 0xd800) as u32 * 0x400 + (units[i + 1] - 0xdc00) as u32
        } else if unit < 0xd800 || unit >= 0xe000 {
            unit as u32
        } else {
            0xfffd
        };
        let c: char = match char::from_u32(code) {
            Some(c) => c,
            None => '\u{fffd}',
        };
        out.push(c);
        assert(c as int == code);
        if pair {
            assert(rest[1] == units@[i + 1]);
            assert(code == 0x10000 + (rest[0] - 0xd800) * 0x400 + (rest[1] - 0xdc00));
            assert(units@.skip(i + 2) == rest.skip(2));
            assert(c == surrogate_pair(rest[0], rest[1]));
            i = i + 2;
        } else {
            assert(units@.skip(i + 1) == rest.skip(1));
            i = i + 1;
        }
        assert(utf16_text(rest) == seq![c] + utf16_text(units@.skip(i as int)));
        assert(out@ + utf16_text(units@.skip(i as int)) == before + utf16_text(rest));
    }
    assert(units@.skip(i as int) == Seq::<u16>::empty());
    out
}

/// Reads a PDF string: see `string_text`.
pub fn decode_pdf_string(bytes: &[u8]) -> (r: String)
    ensures
        r@ == string_text(bytes@),
{
    let length: usize = bytes.len();
    if length >= 2 && bytes[0] == 0xfe && bytes[1] == 0xff {
        let mut units: Vec<u16> = Vec::new();
        let ghost body = bytes@.skip(2);
        let count: usize = (length - 2) / 2;
        for i in 0..count
            invariant
                length == bytes@.len(),
                length >= 2,
                count == (length - 2) / 2,
                body == bytes@.skip(2),
                units@ == big_endian_units(body).take(i as int),
        {
            units.push(bytes[2 * i + 2] as u16 * 256 + bytes[2 * i + 3] as u16);
            assert(units@ == big_endian_units(body).take(i + 1));
        }
        assert(big_endian_units(body).take(count as int) == big_endian_units(body));
        decode_utf16(&units)
    } else {
        let mut out = String::new();
        for i in 0..length
            invariant
                length == bytes@.len(),
                out@ == Seq::new(i as nat, |k: int| bytes@[k] as char),
        {
            out.push(bytes[i] as char);
        }
        out
    }
}

/// The units of a character in UTF-16.
pub open spec fn char_units(c: char) -> Seq<u16> {
    let n = c as int;
    if n < 0x10000 {
        seq![n as u16]
    } else {
        seq![
            (0xd800 + (n - 0x10000) / 0x400) as u16,
            (0xdc00 + (n - 0x10000) % 0x400) as u16,
        ]
    }
}

/// The units of a text in UTF-16.
pub open spec fn utf16_units(s: Seq<char>) -> Seq<u16>
    decreases s.len(),
{
    if s.len() == 0 {
        Seq::empty()
    } else {
        char_units(s[0]) + utf16_units(s.skip(1))
    }
}

/// The bytes of some units, the high byte first.
pub open spec fn big_endian_bytes(units: Seq<u16>) -> Seq<u8> {
    Seq::new(
        2 * units.len(),
        |i: int|
            if i % 2 == 0 {
                (units[i / 2] / 256) as u8
            } else {
                (units[i / 2] % 256) as u8
            },
    )
}

proof fn lemma_char_range(c: char)
    ensures
        0 <= (c as int) < 0xd800 || 0xe000 <= (c as int) <= 0x10ffff,
{
}

proof fn lemma_utf16_round_trip(s: Seq<char>)
    ensures
        utf16_text(utf16_units(s)) == s,
    decreases s.len(),
{
    if s.len() > 0 {
        let c = s[0];
        let n = c as int;
        let units = utf16_units(s);
        let rest = s.skip(1);
        lemma_utf16_round_trip(rest);
        lemma_char_range(c);
        assert(units[0] == char_units(c)[0]);
        if n < 0x10000 {
            assert(units.skip(1) == utf16_units(rest));
            assert(units[0] as int == n);
            assert(units[0] as char == c);
        } else {
            assert(units[1] == char_units(c)[1]);
            assert(units.skip(2) == utf16_units(rest));
            let high = units[0];
            let low = units[1];
            assert(0x10000 + (high - 0xd800) * 0x400 + (low - 0xdc00) == n);
            assert(surrogate_pair(high, low) == c);
        }
        assert(seq![c] + rest == s);
    }
}

/// A text that is written in UTF-16 behind a byte order mark is read back as it was.
pub proof fn utf16_strings_are_read_back(s: Seq<char>)
    ensures
        string_text(seq![0xfeu8, 0xffu8] + big_endian_bytes(utf16_units(s))) == s,
{
    let units = utf16_units(s);
    let body = big_endian_bytes(units);
    let bytes = seq![0xfeu8, 0xffu8] + body;
    assert(bytes.skip(2) == body);
    assert(big_endian_units(body) == units) by {
        assert forall|i: int| 0 <= i < units.len() implies #[trigger] big_endian_units(body)[i]
            == units[i] by {
            assert((2 * i) / 2 == i && (2 * i) % 2 == 0);
            assert((2 * i + 1) / 2 == i && (2 * i + 1) % 2 == 1);
            assert(body[2 * i] == (units[i] / 256) as u8);
            assert(body[2 * i + 1] == (units[i] % 256) as u8);
        }
    }
    lemma_utf16_round_trip(s);
}

/// A string without a byte order mark has a character for each byte, with the byte's number.
pub proof fn plain_strings_are_read_byte_by_byte(bytes: Seq<u8>, i: int)
    requires
        bytes.len() < 2 || bytes[0] != 0xfe || bytes[1] != 0xff,
        0 <= i < bytes.len(),
    ensures
        string_text(bytes).len() == bytes.len(),
        string_text(bytes)[i] as int == bytes[i],
{
}

/// Behind a byte order mark, half a surrogate without its other half is read as a replacement
/// character, and what follows as it would be alone. A single byte at the end does not matter.
pub proof fn damaged_utf16_is_read_around(
    surrogate: u16,
    rest: Seq<u16>,
    body: Seq<u8>,
    last: u8,
)
    requires
        0xd800 <= surrogate < 0xe000,
        surrogate < 0xdc00 ==> rest.len() == 0 || !(0xdc00 <= rest[0] < 0xe000),
        body.len() % 2 == 0,
    ensures
        utf16_text(seq![surrogate] + rest) == seq!['\u{fffd}'] + utf16_text(rest),
        string_text(seq![0xfeu8, 0xffu8] + body) == utf16_text(big_endian_units(body)),
        string_text(seq![0xfeu8, 0xffu8] + body.push(last)) == string_text(
            seq![0xfeu8, 0xffu8] + body,
        ),
{
    let units = seq![surrogate] + rest;
    assert(units.skip(1) == rest);
    assert(rest.len() > 0 ==> units[1] == rest[0]);
    let mark = seq![0xfeu8, 0xffu8];
    assert((mark + body).skip(2) == body);
    assert((mark + body.push(last)).skip(2) == body.push(last));
    assert(big_endian_units(body.push(last)) == big_endian_units(body));
}

// ---------------------------------------------------------------------------------------
// Title and author
// ---------------------------------------------------------------------------------------

/// What a string of a PDF says, trimmed. A blank string says nothing.
pub open spec fn stated_text(o: ObjectModel) -> Option<Seq<char>> {
    match o {
        ObjectModel::Text(bytes, _) => if is_blank(string_text(bytes)) {
            None
        } else {
            Some(trimmed(string_text(bytes)))
        },
        _ => None,
    }
}

/// The text under a key of the information dictionary, trimmed. A blank text is none.
pub open spec fn info_text(
    objects: Map<(u32, u16), ObjectModel>,
    trailer: Seq<(Seq<u8>, ObjectModel)>,
    key: Seq<char>,
) -> Option<Seq<char>> {
    match dictionary_entry(objects, trailer, "Info"@) {
        Some(dict) => match lookup(dict, vstd::utf8::encode_utf8(key)) {
            Some(value) => stated_text(value),
            None => None,
        },
        None => None,
    }
}

/// The language that the catalog of the document gives, trimmed. A blank one is none.
pub open spec fn language_of(
    objects: Map<(u32, u16), ObjectModel>,
    trailer: Seq<(Seq<u8>, ObjectModel)>,
) -> Option<Seq<char>> {
    match dictionary_entry(objects, trailer, "Root"@) {
        Some(catalog) => match lookup(catalog, vstd::utf8::encode_utf8("Lang"@)) {
            Some(value) => match resolved(objects, value) {
                Ok(language) => stated_text(language),
                Err(_) => None,
            },
            None => None,
        },
        None => None,
    }
}

fn find_stated_text(o: &lopdf::Object) -> (r: Option<String>)
    ensures
        optional(r) == stated_text(object_model(*o)),
{
    match as_string(o) {
        Ok(bytes) => {
            let text = decode_pdf_string(bytes);
            let words = text.as_str().trim();
            if words.is_empty() {
                None
            } else {
                Some(words.to_owned())
            }
        },
        Err(_) => None,
    }
}

fn read_info(doc: &lopdf::Document, key: &str) -> (r: Option<String>)
    ensures
        optional(r) == info_text(document_objects(*doc), document_trailer(*doc), key@),
{
    let dict = find_dictionary(doc, trailer(doc), "Info")?;
    match get_entry(dict, key.as_bytes()) {
        Ok(value) => find_stated_text(value),
        Err(_) => None,
    }
}

/// The language that the document's catalog gives.
pub fn info_language(doc: &lopdf::Document) -> (r: Option<String>)
    ensures
        optional(r) == language_of(document_objects(*doc), document_trailer(*doc)),
{
    let catalog = find_dictionary(doc, trailer(doc), "Root")?;
    let value = match get_entry(catalog, "Lang".as_bytes()) {
        Ok(value) => value,
        Err(_) => {
            return None;
        },
    };
    match resolve(doc, value) {
        Ok(language) => find_stated_text(language),
        Err(_) => None,
    }
}

/// The title and the author that the document's information dictionary gives.
pub fn info_metadata(doc: &lopdf::Document) -> (r: (Option<String>, Option<String>))
    ensures
        optional(r.0) == info_text(document_objects(*doc), document_trailer(*doc), "Title"@),
        optional(r.1) == info_text(document_objects(*doc), document_trailer(*doc), "Author"@),
{
    (read_info(doc, "Title"), read_info(doc, "Author"))
}

/// What the information dictionary says under a key is the trimmed text of the string there. A
/// string of nothing but white space, anything but a string, and a missing dictionary or key say
/// nothing. The dictionary may be referred to.
pub proof fn stated_texts_are_trimmed(
    objects: Map<(u32, u16), ObjectModel>,
    trailer: Seq<(Seq<u8>, ObjectModel)>,
    entry: ObjectModel,
    info: Seq<(Seq<u8>, ObjectModel)>,
    key: Seq<char>,
    bytes: Seq<u8>,
    hexadecimal: bool,
)
    requires
        lookup(trailer, vstd::utf8::encode_utf8("Info"@)) == Some(entry),
        resolved(objects, entry) == Ok::<ObjectModel, Seq<char>>(ObjectModel::Dictionary(info)),
        lookup(info, vstd::utf8::encode_utf8(key)) == Some(ObjectModel::Text(bytes, hexadecimal)),
    ensures
        is_blank(string_text(bytes)) ==> info_text(objects, trailer, key) is None,
        !is_blank(string_text(bytes)) ==> info_text(objects, trailer, key) == Some(
            trimmed(string_text(bytes)),
        ),
{
}

/// Only a string in the information dictionary says anything.
pub proof fn only_strings_state_texts(
    objects: Map<(u32, u16), ObjectModel>,
    trailer: Seq<(Seq<u8>, ObjectModel)>,
    key: Seq<char>,
)
    requires
        info_text(objects, trailer, key) is Some,
    ensures
        exists|info: Seq<(Seq<u8>, ObjectModel)>|
            {
                &&& #[trigger] lookup(info, vstd::utf8::encode_utf8(key)) is Some
                &&& lookup(info, vstd::utf8::encode_utf8(key))->0 is Text
                &&& dictionary_entry(objects, trailer, "Info"@) == Some(info)
            },
{
    let info = dictionary_entry(objects, trailer, "Info"@)->0;
    assert(lookup(info, vstd::utf8::encode_utf8(key)) is Some);
}

/// The language of a document is the trimmed text that its catalog has under `Lang`. The catalog
/// and the text may be referred to.
pub proof fn the_catalog_states_the_language(
    objects: Map<(u32, u16), ObjectModel>,
    trailer: Seq<(Seq<u8>, ObjectModel)>,
    root: ObjectModel,
    catalog: Seq<(Seq<u8>, ObjectModel)>,
    value: ObjectModel,
    bytes: Seq<u8>,
    hexadecimal: bool,
)
    requires
        lookup(trailer, vstd::utf8::encode_utf8("Root"@)) == Some(root),
        resolved(objects, root) == Ok::<ObjectModel, Seq<char>>(ObjectModel::Dictionary(catalog)),
        lookup(catalog, vstd::utf8::encode_utf8("Lang"@)) == Some(value),
        resolved(objects, value) == Ok::<ObjectModel, Seq<char>>(
            ObjectModel::Text(bytes, hexadecimal),
        ),
    ensures
        is_blank(string_text(bytes)) ==> language_of(objects, trailer) is None,
        !is_blank(string_text(bytes)) ==> language_of(objects, trailer) == Some(
            trimmed(string_text(bytes)),
        ),
{
}

// ---------------------------------------------------------------------------------------
// What a page inherits
// ---------------------------------------------------------------------------------------

/// A number of a PDF. Where an object is none, it counts as zero.
#[derive(Debug, Clone, Copy, PartialEq, Eq, Structural)]
pub enum Number {
    Integer(i64),
    /// A number in single precision, by its bits.
    Real(u32),
    Zero,
}

/// The number that an object is.
pub open spec fn number_of(o: ObjectModel) -> Number {
    match o {
        ObjectModel::Integer(value) => Number::Integer(value),
        ObjectModel::Real(bits) => Number::Real(bits),
        _ => Number::Zero,
    }
}

/// The number that an object is, in either of the two forms that a PDF has for numbers.
pub fn as_num(o: &lopdf::Object) -> (r: Number)
    ensures
        r == number_of(object_model(*o)),
{
    if let Ok(value) = as_integer(o) {
        return Number::Integer(value);
    }
    match as_real(o) {
        Ok(bits) => Number::Real(bits),
        Err(_) => Number::Zero,
    }
}

/// The dictionary that an entry leads to.
pub open spec fn dictionary_entry(
    objects: Map<(u32, u16), ObjectModel>,
    dict: Seq<(Seq<u8>, ObjectModel)>,
    key: Seq<char>,
) -> Option<Seq<(Seq<u8>, ObjectModel)>> {
    match lookup(dict, vstd::utf8::encode_utf8(key)) {
        Some(o) => match resolved(objects, o) {
            Ok(ObjectModel::Dictionary(found)) => Some(found),
            _ => None,
        },
        None => None,
    }
}

/// The dictionary of the node above, where there is one.
pub open spec fn parent_of(
    objects: Map<(u32, u16), ObjectModel>,
    dict: Seq<(Seq<u8>, ObjectModel)>,
) -> Option<Result<Seq<(Seq<u8>, ObjectModel)>, Seq<char>>> {
    match lookup(dict, vstd::utf8::encode_utf8("Parent"@)) {
        Some(ObjectModel::Reference(id)) => Some(dictionary_of(object_at(objects, id))),
        _ => None,
    }
}

/// The resources of the nearest node that has any, from this one up. Nodes that go round in a
/// circle have none.
pub open spec fn inherited_resources(
    objects: Map<(u32, u16), ObjectModel>,
    dict: Seq<(Seq<u8>, ObjectModel)>,
    left: nat,
) -> Result<Option<Seq<(Seq<u8>, ObjectModel)>>, Seq<char>>
    decreases left,
{
    match dictionary_entry(objects, dict, "Resources"@) {
        Some(found) => Ok(Some(found)),
        None => match parent_of(objects, dict) {
            None => Ok(None),
            Some(Err(e)) => Err(e),
            Some(Ok(parent)) => if left == 0 {
                Ok(None)
            } else {
                inherited_resources(objects, parent, (left - 1) as nat)
            },
        },
    }
}

/// The resources of a page. A way up that is longer than there are objects goes in a circle.
pub open spec fn page_resources(
    objects: Map<(u32, u16), ObjectModel>,
    page_id: (u32, u16),
) -> Result<Option<Seq<(Seq<u8>, ObjectModel)>>, Seq<char>> {
    match dictionary_of(object_at(objects, page_id)) {
        Ok(page) => inherited_resources(objects, page, objects.len()),
        Err(e) => Err(e),
    }
}

/// The four numbers of a box.
pub open spec fn box_entry(
    objects: Map<(u32, u16), ObjectModel>,
    dict: Seq<(Seq<u8>, ObjectModel)>,
) -> Option<Seq<Number>> {
    match lookup(dict, vstd::utf8::encode_utf8("MediaBox"@)) {
        Some(o) => match resolved(objects, o) {
            Ok(ObjectModel::Array(items)) => if items.len() == 4 {
                Some(items.map_values(|item: ObjectModel| number_of(item)))
            } else {
                None
            },
            _ => None,
        },
        None => None,
    }
}

/// The media box of the nearest node that has one, from this one up.
pub open spec fn inherited_box(
    objects: Map<(u32, u16), ObjectModel>,
    dict: Seq<(Seq<u8>, ObjectModel)>,
    left: nat,
) -> Result<Seq<Number>, Seq<char>>
    decreases left,
{
    match box_entry(objects, dict) {
        Some(found) => Ok(found),
        None => match parent_of(objects, dict) {
            None => Err("MediaBox não encontrado"@),
            Some(Err(e)) => Err(e),
            Some(Ok(parent)) => if left == 0 {
                Err("MediaBox não encontrado"@)
            } else {
                inherited_box(objects, parent, (left - 1) as nat)
            },
        },
    }
}

/// The media box of a page.
pub open spec fn page_box(
    objects: Map<(u32, u16), ObjectModel>,
    page_id: (u32, u16),
) -> Result<Seq<Number>, Seq<char>> {
    match dictionary_of(object_at(objects, page_id)) {
        Ok(page) => inherited_box(objects, page, objects.len()),
        Err(e) => Err(e),
    }
}

/// The number that an object is: an integer or a real number as it is written, and zero where it
/// is neither.
pub proof fn numbers_are_taken_as_they_are(o: ObjectModel, value: i64, bits: u32)
    ensures
        number_of(ObjectModel::Integer(value)) == Number::Integer(value),
        number_of(ObjectModel::Real(bits)) == Number::Real(bits),
        !(o is Integer) && !(o is Real) ==> number_of(o) == Number::Zero,
{
}

/// Each node is the one right above the node before it.
pub open spec fn is_way_up(
    objects: Map<(u32, u16), ObjectModel>,
    nodes: Seq<Seq<(Seq<u8>, ObjectModel)>>,
) -> bool {
    forall|i: int|
        0 <= i < nodes.len() - 1 ==> (lookup(
            #[trigger] nodes[i],
            vstd::utf8::encode_utf8("Parent"@),
        ) matches Some(ObjectModel::Reference(id)) && object_at(objects, id) == Ok::<
            ObjectModel,
            Seq<char>,
        >(ObjectModel::Dictionary(nodes[i + 1])))
}

proof fn lemma_box_from_above(
    objects: Map<(u32, u16), ObjectModel>,
    nodes: Seq<Seq<(Seq<u8>, ObjectModel)>>,
    left: nat,
)
    requires
        0 < nodes.len() <= left + 1,
        is_way_up(objects, nodes),
        forall|i: int|
            0 <= i < nodes.len() - 1 ==> lookup(
                #[trigger] nodes[i],
                vstd::utf8::encode_utf8("MediaBox"@),
            ) is None,
        box_entry(objects, nodes.last()) is Some,
    ensures
        inherited_box(objects, nodes[0], left) == Ok::<Seq<Number>, Seq<char>>(
            box_entry(objects, nodes.last())->0,
        ),
    decreases left,
{
    if nodes.len() > 1 {
        let rest = nodes.skip(1);
        assert(lookup(nodes[0], vstd::utf8::encode_utf8("MediaBox"@)) is None);
        assert(rest.last() == nodes.last());
        assert(rest[0] == nodes[1]);
        assert forall|i: int| 0 <= i < rest.len() - 1 implies (lookup(
            #[trigger] rest[i],
            vstd::utf8::encode_utf8("Parent"@),
        ) matches Some(ObjectModel::Reference(id)) && object_at(objects, id) == Ok::<
            ObjectModel,
            Seq<char>,
        >(ObjectModel::Dictionary(rest[i + 1]))) by {
            assert(rest[i] == nodes[i + 1] && rest[i + 1] == nodes[i + 2]);
        }
        assert forall|i: int| 0 <= i < rest.len() - 1 implies lookup(
            #[trigger] rest[i],
            vstd::utf8::encode_utf8("MediaBox"@),
        ) is None by {
            assert(rest[i] == nodes[i + 1]);
        }
        lemma_box_from_above(objects, rest, (left - 1) as nat);
        assert(parent_of(objects, nodes[0]) == Some(
            Ok::<Seq<(Seq<u8>, ObjectModel)>, Seq<char>>(nodes[1]),
        ));
    }
}

proof fn lemma_resources_from_above(
    objects: Map<(u32, u16), ObjectModel>,
    nodes: Seq<Seq<(Seq<u8>, ObjectModel)>>,
    left: nat,
)
    requires
        0 < nodes.len() <= left + 1,
        is_way_up(objects, nodes),
        forall|i: int|
            0 <= i < nodes.len() - 1 ==> lookup(
                #[trigger] nodes[i],
                vstd::utf8::encode_utf8("Resources"@),
            ) is None,
        dictionary_entry(objects, nodes.last(), "Resources"@) is Some,
    ensures
        inherited_resources(objects, nodes[0], left) == Ok::<
            Option<Seq<(Seq<u8>, ObjectModel)>>,
            Seq<char>,
        >(dictionary_entry(objects, nodes.last(), "Resources"@)),
    decreases left,
{
    if nodes.len() > 1 {
        let rest = nodes.skip(1);
        assert(lookup(nodes[0], vstd::utf8::encode_utf8("Resources"@)) is None);
        assert(rest.last() == nodes.last());
        assert(rest[0] == nodes[1]);
        assert forall|i: int| 0 <= i < rest.len() - 1 implies (lookup(
            #[trigger] rest[i],
            vstd::utf8::encode_utf8("Parent"@),
        ) matches Some(ObjectModel::Reference(id)) && object_at(objects, id) == Ok::<
            ObjectModel,
            Seq<char>,
        >(ObjectModel::Dictionary(rest[i + 1]))) by {
            assert(rest[i] == nodes[i + 1] && rest[i + 1] == nodes[i + 2]);
        }
        assert forall|i: int| 0 <= i < rest.len() - 1 implies lookup(
            #[trigger] rest[i],
            vstd::utf8::encode_utf8("Resources"@),
        ) is None by {
            assert(rest[i] == nodes[i + 1]);
        }
        lemma_resources_from_above(objects, rest, (left - 1) as nat);
        assert(parent_of(objects, nodes[0]) == Some(
            Ok::<Seq<(Seq<u8>, ObjectModel)>, Seq<char>>(nodes[1]),
        ));
    }
}

/// A page has the media box of the nearest node that has one, from the page itself up, however far
/// up that is, and each of its four numbers is the one at the same place. The box may be referred
/// to.
pub proof fn a_page_has_the_nearest_box(
    objects: Map<(u32, u16), ObjectModel>,
    page_id: (u32, u16),
    nodes: Seq<Seq<(Seq<u8>, ObjectModel)>>,
    entry: ObjectModel,
    items: Seq<ObjectModel>,
    k: int,
)
    requires
        0 < nodes.len() <= objects.len() + 1,
        object_at(objects, page_id) == Ok::<ObjectModel, Seq<char>>(
            ObjectModel::Dictionary(nodes[0]),
        ),
        is_way_up(objects, nodes),
        forall|i: int|
            0 <= i < nodes.len() - 1 ==> lookup(
                #[trigger] nodes[i],
                vstd::utf8::encode_utf8("MediaBox"@),
            ) is None,
        lookup(nodes.last(), vstd::utf8::encode_utf8("MediaBox"@)) == Some(entry),
        resolved(objects, entry) == Ok::<ObjectModel, Seq<char>>(ObjectModel::Array(items)),
        items.len() == 4,
        0 <= k < 4,
    ensures
        page_box(objects, page_id) matches Ok(frame) && frame.len() == 4 && match items[k] {
            ObjectModel::Integer(value) => frame[k] == Number::Integer(value),
            ObjectModel::Real(bits) => frame[k] == Number::Real(bits),
            _ => frame[k] == Number::Zero,
        },
{
    let found = items.map_values(|item: ObjectModel| number_of(item));
    assert(box_entry(objects, nodes.last()) == Some(found));
    lemma_box_from_above(objects, nodes, objects.len());
}

/// A page has the resources of the nearest node that has any, from the page itself up, however far
/// up that is.
pub proof fn a_page_has_the_nearest_resources(
    objects: Map<(u32, u16), ObjectModel>,
    page_id: (u32, u16),
    nodes: Seq<Seq<(Seq<u8>, ObjectModel)>>,
    entry: ObjectModel,
    resources: Seq<(Seq<u8>, ObjectModel)>,
)
    requires
        0 < nodes.len() <= objects.len() + 1,
        object_at(objects, page_id) == Ok::<ObjectModel, Seq<char>>(
            ObjectModel::Dictionary(nodes[0]),
        ),
        is_way_up(objects, nodes),
        forall|i: int|
            0 <= i < nodes.len() - 1 ==> lookup(
                #[trigger] nodes[i],
                vstd::utf8::encode_utf8("Resources"@),
            ) is None,
        lookup(nodes.last(), vstd::utf8::encode_utf8("Resources"@)) == Some(entry),
        resolved(objects, entry) == Ok::<ObjectModel, Seq<char>>(
            ObjectModel::Dictionary(resources),
        ),
    ensures
        page_resources(objects, page_id) == Ok::<Option<Seq<(Seq<u8>, ObjectModel)>>, Seq<char>>(
            Some(resources),
        ),
{
    assert(dictionary_entry(objects, nodes.last(), "Resources"@) == Some(resources));
    lemma_resources_from_above(objects, nodes, objects.len());
}

fn find_dictionary<'a>(doc: &'a lopdf::Document, dict: &'a lopdf::Dictionary, key: &str) -> (r:
    Option<&'a lopdf::Dictionary>)
    ensures
        match dictionary_entry(document_objects(*doc), entries(*dict), key@) {
            Some(found) => r matches Some(d) && entries(*d) == found,
            None => r is None,
        },
{
    let entry = match get_entry(dict, key.as_bytes()) {
        Ok(entry) => entry,
        Err(_) => {
            return None;
        },
    };
    let found = match resolve(doc, entry) {
        Ok(found) => found,
        Err(_) => {
            return None;
        },
    };
    match as_dictionary(found) {
        Ok(d) => Some(d),
        Err(_) => None,
    }
}

fn find_parent<'a>(doc: &'a lopdf::Document, dict: &'a lopdf::Dictionary) -> (r: Option<
    Result<&'a lopdf::Dictionary, String>,
>)
    ensures
        match parent_of(document_objects(*doc), entries(*dict)) {
            None => r is None,
            Some(m) => r matches Some(p) && is_dictionary(p, m),
        },
{
    match get_entry(dict, "Parent".as_bytes()) {
        Ok(entry) => match as_reference(entry) {
            Ok(id) => Some(get_dictionary(doc, id)),
            Err(_) => None,
        },
        Err(_) => None,
    }
}

fn find_box(doc: &lopdf::Document, dict: &lopdf::Dictionary) -> (r: Option<[Number; 4]>)
    ensures
        match box_entry(document_objects(*doc), entries(*dict)) {
            Some(found) => r matches Some(b) && b@ == found,
            None => r is None,
        },
{
    let entry = match get_entry(dict, "MediaBox".as_bytes()) {
        Ok(entry) => entry,
        Err(_) => {
            return None;
        },
    };
    let found = match resolve(doc, entry) {
        Ok(found) => found,
        Err(_) => {
            return None;
        },
    };
    match as_array(found) {
        Ok(items) => {
            let ghost models = object_models(items@);
            if items.len() != 4 {
                return None;
            }
            let numbers = [
                as_num(&items[0]),
                as_num(&items[1]),
                as_num(&items[2]),
                as_num(&items[3]),
            ];
            assert(numbers@ == models.map_values(|item: ObjectModel| number_of(item)));
            Some(numbers)
        },
        Err(_) => None,
    }
}

/// The resources of a page, which it may have from a node above it: see `page_resources`.
pub fn get_resources<'a>(doc: &'a lopdf::Document, page_id: (u32, u16)) -> (r: Result<
    Option<&'a lopdf::Dictionary>,
    String,
>)
    ensures
        match page_resources(document_objects(*doc), page_id) {
            Ok(Some(found)) => r matches Ok(Some(d)) && entries(*d) == found,
            Ok(None) => r matches Ok(None),
            Err(text) => r matches Err(e) && e@ == text,
        },
{
    let ghost objects = document_objects(*doc);
    let mut current = get_dictionary(doc, page_id)?;
    let mut left: usize = object_count(doc);
    loop
        invariant
            objects == document_objects(*doc),
            page_resources(objects, page_id) == inherited_resources(
                objects,
                entries(*current),
                left as nat,
            ),
        decreases left,
    {
        if let Some(found) = find_dictionary(doc, current, "Resources") {
            return Ok(Some(found));
        }
        match find_parent(doc, current) {
            None => {
                return Ok(None);
            },
            Some(Err(e)) => {
                return Err(e);
            },
            Some(Ok(parent)) => {
                if left == 0 {
                    return Ok(None);
                }
                left = left - 1;
                current = parent;
            },
        }
    }
}

/// The media box of a page, which it may have from a node above it: see `page_box`.
pub fn get_media_box(doc: &lopdf::Document, page_id: (u32, u16)) -> (r: Result<
    [Number; 4],
    String,
>)
    ensures
        match page_box(document_objects(*doc), page_id) {
            Ok(found) => r matches Ok(b) && b@ == found,
            Err(text) => r matches Err(e) && e@ == text,
        },
{
    let ghost objects = document_objects(*doc);
    let mut current = get_dictionary(doc, page_id)?;
    let mut left: usize = object_count(doc);
    loop
        invariant
            objects == document_objects(*doc),
            page_box(objects, page_id) == inherited_box(objects, entries(*current), left as nat),
        decreases left,
    {
        if let Some(found) = find_box(doc, current) {
            return Ok(found);
        }
        match find_parent(doc, current) {
            None => {
                return Err("MediaBox não encontrado".to_owned());
            },
            Some(Err(e)) => {
                return Err(e);
            },
            Some(Ok(parent)) => {
                if left == 0 {
                    return Err("MediaBox não encontrado".to_owned());
                }
                left = left - 1;
                current = parent;
            },
        }
    }
}

// ---------------------------------------------------------------------------------------
// Pages
// ---------------------------------------------------------------------------------------

/// The numbers of the objects that the pages of a document are, from the first to the last.
pub uninterp spec fn page_ids_of(
    objects: Map<(u32, u16), ObjectModel>,
    trailer: Seq<(Seq<u8>, ObjectModel)>,
) -> Seq<(u32, u16)>;

/// `lopdf::Document::page_iter` walks the page tree and hands out the number of one page after
/// the other. The result depends on the objects and the trailer of the document alone.
#[verifier::external_body]
fn page_ids(doc: &lopdf::Document) -> (r: Vec<(u32, u16)>)
    ensures
        r@ == page_ids_of(document_objects(*doc), document_trailer(*doc)),
{
    let mut ids = Vec::new();
    for id in doc.page_iter() {
        ids.push(id);
    }
    ids
}

/// Pages with their numbers, which begin at one. There are no more numbers than 32 bits hold.
pub open spec fn numbered(ids: Seq<(u32, u16)>) -> Seq<(u32, (u32, u16))> {
    Seq::new(
        if ids.len() <= u32::MAX {
            ids.len()
        } else {
            u32::MAX as nat
        },
        |i: int| ((i + 1) as u32, ids[i]),
    )
}

/// The pages of a document, each with its number and the number of its object.
pub open spec fn pages_of(
    objects: Map<(u32, u16), ObjectModel>,
    trailer: Seq<(Seq<u8>, ObjectModel)>,
) -> Seq<(u32, (u32, u16))> {
    numbered(page_ids_of(objects, trailer))
}

/// Pages are counted from one, in the order of the document.
pub proof fn pages_are_counted_from_one(
    objects: Map<(u32, u16), ObjectModel>,
    trailer: Seq<(Seq<u8>, ObjectModel)>,
    i: int,
)
    requires
        0 <= i < page_ids_of(objects, trailer).len() <= u32::MAX,
    ensures
        pages_of(objects, trailer).len() == page_ids_of(objects, trailer).len(),
        pages_of(objects, trailer)[i].0 == i + 1,
        pages_of(objects, trailer)[i].1 == page_ids_of(objects, trailer)[i],
{
}

/// The pages of a document, from the first to the last.
pub fn list_pages(doc: &lopdf::Document) -> (r: Vec<(u32, (u32, u16))>)
    ensures
        r@ == pages_of(document_objects(*doc), document_trailer(*doc)),
        forall|i: int, j: int|
            0 <= i < j < r@.len() ==> (#[trigger] r@[i]).0 < (#[trigger] r@[j]).0,
{
    let ids = page_ids(doc);
    let mut pages: Vec<(u32, (u32, u16))> = Vec::new();
    let mut number: u32 = 0;
    while number < u32::MAX && (number as usize) < ids.len()
        invariant
            number <= ids@.len(),
            pages@.len() == number,
            forall|i: int|
                0 <= i < number ==> #[trigger] pages@[i] == ((i + 1) as u32, ids@[i]),
        decreases u32::MAX - number,
    {
        pages.push((number + 1, ids[number as usize]));
        number = number + 1;
    }
    assert(pages@ == numbered(ids@));
    pages
}

/// A message about a page.
pub open spec fn on_page(page_num: nat, message: Seq<char>) -> Seq<char> {
    "página "@ + decimal(page_num) + ": "@ + message
}

/// What is reported of a page whose content cannot be read.
pub open spec fn unreadable_message(reason: Seq<char>) -> Seq<char> {
    "falha ao ler stream de conteúdo ("@ + reason + "), texto desta página ficará vazio"@
}

/// What is reported of a page whose content cannot be replaced.
pub open spec fn unpatched_message(reason: Seq<char>) -> Seq<char> {
    "falha ao higienizar conteúdo ("@ + reason + ")"@
}

/// What is reported of a page whose text cannot be extracted.
pub open spec fn unextracted_message(reason: Seq<char>) -> Seq<char> {
    "pdf-extract falhou ("@ + reason + "), texto desta página ficará vazio"@
}

/// The messages, each with the page that it is about.
pub open spec fn all_on_page(page_num: nat, messages: Seq<Seq<char>>) -> Seq<Seq<char>> {
    messages.map_values(|m: Seq<char>| on_page(page_num, m))
}

/// Where the pictures of a page are drawn, and its media box. A page that could not be read has
/// neither.
#[derive(Debug)]
pub struct PagePlan {
    pub steps: Vec<Step>,
    pub draws: Vec<Draw>,
    pub frame: Option<[Number; 4]>,
}

/// The numbers of the objects that some pictures were taken from.
pub open spec fn picture_ids(assets: Seq<((u32, u16), ImageView)>) -> Seq<(u32, u16)> {
    assets.map_values(|a: ((u32, u16), ImageView)| a.0)
}

/// The pictures without the numbers of their objects.
pub open spec fn picture_files(assets: Seq<((u32, u16), ImageView)>) -> Seq<ImageView> {
    assets.map_values(|a: ((u32, u16), ImageView)| a.1)
}

/// The operations that stay on a page, and none where it could not be read.
pub open spec fn kept_operations(scan: Result<PageScan, String>) -> Seq<
    (Seq<char>, Seq<ObjectModel>),
> {
    match scan {
        Ok(page) => operation_models(page.operations@),
        Err(_) => Seq::empty(),
    }
}

/// The plan of a page is what the walk over its content found.
pub open spec fn is_plan_of(plan: PagePlan, scan: Result<PageScan, String>) -> bool {
    match scan {
        Ok(page) => plan.steps == page.steps && plan.draws == page.draws && plan.frame == Some(
            page.frame,
        ),
        Err(_) => plan.steps@.len() == 0 && plan.draws@.len() == 0 && plan.frame is None,
    }
}

/// What is reported of a page while it is prepared: the pictures that are left out, content that
/// cannot be read, and content that cannot be replaced.
pub open spec fn preparing_messages(
    page_num: nat,
    ignored: Seq<Seq<char>>,
    scan: Result<PageScan, String>,
    complaint: Option<Seq<char>>,
) -> Seq<Seq<char>> {
    all_on_page(page_num, ignored) + (match scan {
        Ok(_) => Seq::<Seq<char>>::empty(),
        Err(e) => seq![on_page(page_num, unreadable_message(e@))],
    }) + (match complaint {
        Some(text) => seq![on_page(page_num, unpatched_message(text))],
        None => Seq::<Seq<char>>::empty(),
    })
}

/// The page was prepared, given what the walk over its content found: its pictures are among the
/// pictures of the document, its content shows none of them any more, and what went wrong was
/// reported.
pub open spec fn is_prepared(
    before: lopdf::Document,
    after: lopdf::Document,
    page_num: nat,
    page_id: (u32, u16),
    ignored: Seq<Seq<char>>,
    scan: Result<PageScan, String>,
    plan: PagePlan,
    messages: Seq<Seq<char>>,
) -> bool {
    let (objects, complaint) = replaced_content(
        document_objects(before),
        document_last_id(before),
        page_id,
        kept_operations(scan),
    );
    &&& document_objects(after) == objects
    &&& document_trailer(after) == document_trailer(before)
    &&& is_plan_of(plan, scan)
    &&& messages == preparing_messages(page_num, ignored, scan, complaint)
}

fn tell(page_num: u32, before: &str, reason: &str, after: &str) -> (r: String)
    ensures
        r@ == on_page(page_num as nat, before@ + reason@ + after@),
{
    let mut message: String = "página ".to_owned();
    push_decimal(&mut message, page_num as u128);
    message.append(": ");
    message.append(before);
    message.append(reason);
    message.append(after);
    assert(message@ == on_page(page_num as nat, before@ + reason@ + after@));
    message
}

/// What is reported where the text of a page cannot be extracted.
pub fn report_unextracted(page_num: u32, reason: &str) -> (r: String)
    ensures
        r@ == on_page(page_num as nat, unextracted_message(reason@)),
{
    tell(
        page_num,
        "pdf-extract falhou (",
        reason,
        "), texto desta página ficará vazio",
    )
}

fn take_pictures(
    doc: &lopdf::Document,
    page_num: u32,
    page_id: (u32, u16),
    images: &mut Vec<ImageAsset>,
    log: &mut Vec<String>,
) -> (r: Vec<(u32, u16)>)
    ensures
        ({
            let objects = document_objects(*doc);
            let assets = assets_of(objects, listed_pictures(objects, page_id));
            &&& r@ == picture_ids(assets)
            &&& image_views(final(images)@) == image_views(old(images)@) + picture_files(assets)
            &&& texts(final(log)@) == texts(old(log)@) + all_on_page(
                page_num as nat,
                ignored_messages(objects, listed_pictures(objects, page_id)),
            )
        }),
{
    let ghost objects = document_objects(*doc);
    let ghost assets = assets_of(objects, listed_pictures(objects, page_id));
    let ghost ignored = ignored_messages(objects, listed_pictures(objects, page_id));
    let ghost pictures_before = image_views(images@);
    let ghost said = texts(log@);
    let mut notes: Vec<String> = Vec::new();
    assert(texts(notes@) == Seq::<Seq<char>>::empty());
    let taken = extract_page_images(doc, page_id, &mut notes);
    assert(texts(notes@) == ignored);
    assert(said + all_on_page(page_num as nat, ignored).take(0) == said);
    for i in 0..notes.len()
        invariant
            texts(notes@) == ignored,
            texts(log@) == said + all_on_page(page_num as nat, ignored).take(i as int),
    {
        let ghost before = log@;
        let message = tell(page_num, notes[i].as_str(), "", "");
        assert(ignored[i as int] == notes@[i as int]@);
        proof {
            reveal_strlit("");
            assert(notes@[i as int]@ + ""@ + ""@ == notes@[i as int]@);
        }
        let ghost words = message@;
        log.push(message);
        assert(texts(log@) == texts(before).push(words));
        let ghost told = all_on_page(page_num as nat, ignored);
        assert(told.take(i + 1) == told.take(i as int).push(words));
        assert(said + told.take(i + 1) == (said + told.take(i as int)).push(words));
    }
    assert(all_on_page(page_num as nat, ignored).take(notes@.len() as int) == all_on_page(
        page_num as nat,
        ignored,
    ));
    let mut ids: Vec<(u32, u16)> = Vec::new();
    assert(asset_views(taken@).take(0) == Seq::<((u32, u16), ImageView)>::empty());
    assert(pictures_before + picture_files(asset_views(taken@).take(0)) == pictures_before);
    assert(picture_ids(asset_views(taken@).take(0)) == Seq::<(u32, u16)>::empty());
    for entry in it: taken
        invariant
            it.seq() == taken@,
            asset_views(taken@) == assets,
            ids@ == picture_ids(assets.take(it.index() as int)),
            image_views(images@) == pictures_before + picture_files(
                assets.take(it.index() as int),
            ),
    {
        let ghost n = it.index() as int;
        let ghost before = images@;
        let (id, asset) = entry;
        let ghost view = asset@;
        assert(assets[n] == (id, view));
        assert(assets.take(n + 1) == assets.take(n).push(assets[n]));
        ids.push(id);
        assert(ids@ == picture_ids(assets.take(n + 1)));
        images.push(asset);
        assert(image_views(images@) == image_views(before).push(view));
        assert(picture_files(assets.take(n + 1)) == picture_files(assets.take(n)).push(view));
        assert(pictures_before + picture_files(assets.take(n + 1)) == (pictures_before
            + picture_files(assets.take(n))).push(view));
    }
    assert(assets.take(assets.len() as int) == assets);
    ids
}

/// Takes the pictures off a page, so that only its text is left to extract: adds them to the
/// pictures of the document, replaces the content of the page, and says where they were drawn.
/// What goes wrong on the way is reported in `log` and does not stop the run.
pub fn prepare_page<F: Fn(&[u8]) -> Result<Vec<lopdf::content::Operation>, String>>(
    doc: &mut lopdf::Document,
    page_num: u32,
    page_id: (u32, u16),
    images: &mut Vec<ImageAsset>,
    read_unsure: &F,
    log: &mut Vec<String>,
) -> (r: PagePlan)
    requires
        reads_anything(*read_unsure),
    ensures
        ({
            let objects = document_objects(*old(doc));
            let assets = assets_of(objects, listed_pictures(objects, page_id));
            let ignored = ignored_messages(objects, listed_pictures(objects, page_id));
            &&& image_views(final(images)@) == image_views(old(images)@) + picture_files(assets)
            &&& exists|scan: Result<PageScan, String>, messages: Seq<Seq<char>>|
                is_sanitized(
                    *read_unsure,
                    objects,
                    page_id,
                    picture_ids(assets),
                    old(images)@.len(),
                    scan,
                ) && #[trigger] is_prepared(
                    *old(doc),
                    *final(doc),
                    page_num as nat,
                    page_id,
                    ignored,
                    scan,
                    r,
                    messages,
                ) && texts(final(log)@) == texts(old(log)@) + messages
        }),
{
    let ghost start = *doc;
    let ghost said = texts(log@);
    let ghost objects = document_objects(*doc);
    let ghost assets = assets_of(objects, listed_pictures(objects, page_id));
    let ghost ignored = ignored_messages(objects, listed_pictures(objects, page_id));
    let ghost told = all_on_page(page_num as nat, ignored);
    let base: usize = images.len();
    let ids = take_pictures(doc, page_num, page_id, images, log);
    let total: usize = images.len();
    assert(image_views(images@).len() == images@.len());
    assert(image_views(old(images)@).len() == base);
    assert(picture_files(assets).len() == ids@.len());
    assert(base + ids@.len() == total);
    let scanned = sanitize_and_locate_images(doc, page_id, &ids, base, read_unsure);
    let ghost scan = scanned;
    let mut operations: Vec<lopdf::content::Operation> = Vec::new();
    let mut plan = PagePlan { steps: Vec::new(), draws: Vec::new(), frame: None };
    assert(operation_models(operations@) == Seq::<(Seq<char>, Seq<ObjectModel>)>::empty());
    let ghost unreadable = match scan {
        Ok(_) => Seq::<Seq<char>>::empty(),
        Err(e) => seq![on_page(page_num as nat, unreadable_message(e@))],
    };
    match scanned {
        Ok(page) => {
            operations = page.operations;
            plan = PagePlan { steps: page.steps, draws: page.draws, frame: Some(page.frame) };
            assert(said + told + unreadable == said + told);
        },
        Err(e) => {
            let ghost before = log@;
            let message = tell(
                page_num,
                "falha ao ler stream de conteúdo (",
                e.as_str(),
                "), texto desta página ficará vazio",
            );
            let ghost words = message@;
            log.push(message);
            assert(texts(log@) == texts(before).push(words));
            assert(said + told + unreadable == (said + told).push(words));
        },
    }
    let ghost complaint = replaced_content(
        document_objects(start),
        document_last_id(start),
        page_id,
        kept_operations(scan),
    ).1;
    let ghost unpatched = match complaint {
        Some(text) => seq![on_page(page_num as nat, unpatched_message(text))],
        None => Seq::<Seq<char>>::empty(),
    };
    match patch_page_contents(doc, page_id, &operations) {
        Ok(()) => {
            assert(said + told + unreadable + unpatched == said + told + unreadable);
        },
        Err(e) => {
            let ghost before = log@;
            let message = tell(page_num, "falha ao higienizar conteúdo (", e.as_str(), ")");
            let ghost words = message@;
            log.push(message);
            assert(texts(log@) == texts(before).push(words));
            assert(said + told + unreadable + unpatched == (said + told + unreadable).push(words));
        },
    }
    let ghost messages = preparing_messages(page_num as nat, ignored, scan, complaint);
    assert(said + messages == said + told + unreadable + unpatched);
    assert(is_prepared(
        start,
        *doc,
        page_num as nat,
        page_id,
        ignored,
        scan,
        plan,
        messages,
    ));
    plan
}

// ---------------------------------------------------------------------------------------
// The whole document
// ---------------------------------------------------------------------------------------

/// What the text extractor made of a page, and why it stopped, if it did.
#[derive(Debug)]
pub struct PageText {
    pub lines: Vec<TextRun>,
    pub failure: Option<String>,
}

/// The extractor may be called on any page.
pub open spec fn extracts_anything<X: Fn(&lopdf::Document, u32) -> PageText>(extract: X) -> bool {
    forall|doc: &lopdf::Document, page_num: u32| call_requires(extract, (doc, page_num))
}

/// The distance from the top may be asked of any drawing.
pub open spec fn places_anything<H: Fn(&PagePlan, usize) -> i64>(height_of: H) -> bool {
    forall|plan: &PagePlan, k: usize|
        k < plan.draws@.len() ==> call_requires(height_of, (plan, k))
}

/// Any messages may be shown.
pub open spec fn shows_anything<T: Fn(&Vec<String>)>(tell: T) -> bool {
    forall|messages: &Vec<String>| call_requires(tell, (messages,))
}

/// A distance from the top that was given for a drawing.
pub open spec fn may_stand_at<H: Fn(&PagePlan, usize) -> i64>(
    height_of: H,
    plan: PagePlan,
    k: int,
    height: int,
) -> bool {
    exists|y: i64| #[trigger] call_ensures(height_of, (&plan, k as usize), y) && y == height
}

/// The drawings of a plan, in their order, each with its distance from the top and its picture.
pub open spec fn is_placed<H: Fn(&PagePlan, usize) -> i64>(
    height_of: H,
    plan: PagePlan,
    placed: Seq<(int, nat)>,
) -> bool {
    &&& placed.len() == plan.draws@.len()
    &&& forall|k: int|
        0 <= k < placed.len() ==> (#[trigger] placed[k]).1 == plan.draws@[k].image
            && may_stand_at(height_of, plan, k, placed[k].0)
}

/// What was found while a page was read.
pub ghost struct PageRecord {
    pub scan: Result<PageScan, String>,
    pub plan: PagePlan,
    pub text: PageText,
    pub placed: Seq<(int, nat)>,
    /// What was reported before the text was extracted.
    pub preparing: Seq<Seq<char>>,
}

/// What is reported of a page that was read.
pub open spec fn reading_messages(page_num: nat, record: PageRecord) -> Seq<Seq<char>> {
    (record.preparing + (match record.text.failure {
        Some(reason) => seq![on_page(page_num, unextracted_message(reason@))],
        None => Seq::<Seq<char>>::empty(),
    })).push(page_message(page_num, record.text.lines@.len(), record.placed.len()))
}

/// A page was read: it was prepared, its text was extracted from what was left of it, and its
/// lines and the pictures that it drew stand in reading order.
pub open spec fn is_page_read<
    F: Fn(&[u8]) -> Result<Vec<lopdf::content::Operation>, String>,
    X: Fn(&lopdf::Document, u32) -> PageText,
    H: Fn(&PagePlan, usize) -> i64,
>(
    read_unsure: F,
    extract: X,
    height_of: H,
    record: PageRecord,
    page: (u32, (u32, u16)),
    before: lopdf::Document,
    after: lopdf::Document,
    images_before: Seq<ImageView>,
    images_after: Seq<ImageView>,
    flow: PageView,
) -> bool {
    let objects = document_objects(before);
    let assets = assets_of(objects, listed_pictures(objects, page.1));
    let ignored = ignored_messages(objects, listed_pictures(objects, page.1));
    &&& images_after == images_before + picture_files(assets)
    &&& is_sanitized(
        read_unsure,
        objects,
        page.1,
        picture_ids(assets),
        images_before.len(),
        record.scan,
    )
    &&& is_prepared(
        before,
        after,
        page.0 as nat,
        page.1,
        ignored,
        record.scan,
        record.plan,
        record.preparing,
    )
    &&& call_ensures(extract, (&after, page.0), record.text)
    &&& is_placed(height_of, record.plan, record.placed)
    &&& flow.page_num == page.0
    &&& flow.events == from_the_top(page_events(run_views(record.text.lines@), record.placed))
}

fn place_draws<H: Fn(&PagePlan, usize) -> i64>(plan: &PagePlan, height_of: &H) -> (r: Vec<
    (i64, usize),
>)
    requires
        places_anything(*height_of),
    ensures
        is_placed(*height_of, *plan, placed_views(r@)),
{
    let mut placed: Vec<(i64, usize)> = Vec::new();
    for k in 0..plan.draws.len()
        invariant
            places_anything(*height_of),
            placed@.len() == k,
            forall|j: int|
                0 <= j < k ==> (#[trigger] placed@[j]).1 == plan.draws@[j].image && may_stand_at(
                    *height_of,
                    *plan,
                    j,
                    placed@[j].0 as int,
                ),
    {
        let y: i64 = height_of(plan, k);
        assert(call_ensures(*height_of, (plan, k), y));
        assert(may_stand_at(*height_of, *plan, k as int, y as int));
        placed.push((y, plan.draws[k].image));
    }
    let ghost views = placed_views(placed@);
    assert forall|k: int| 0 <= k < views.len() implies (#[trigger] views[k]).1
        == plan.draws@[k].image && may_stand_at(*height_of, *plan, k, views[k].0) by {
        assert(placed@[k].1 == plan.draws@[k].image);
    }
    placed
}

/// Reads a page: takes its pictures off it, has its text extracted from what is left, and puts
/// the lines and the pictures in reading order. What goes wrong on the way is reported in `log`
/// and does not stop the run.
pub fn parse_page<
    F: Fn(&[u8]) -> Result<Vec<lopdf::content::Operation>, String>,
    X: Fn(&lopdf::Document, u32) -> PageText,
    H: Fn(&PagePlan, usize) -> i64,
>(
    doc: &mut lopdf::Document,
    page: (u32, (u32, u16)),
    images: &mut Vec<ImageAsset>,
    read_unsure: &F,
    extract: &X,
    height_of: &H,
    log: &mut Vec<String>,
) -> (r: PageFlow)
    requires
        reads_anything(*read_unsure),
        extracts_anything(*extract),
        places_anything(*height_of),
    ensures
        exists|record: PageRecord|
            #[trigger] is_page_read(
                *read_unsure,
                *extract,
                *height_of,
                record,
                page,
                *old(doc),
                *final(doc),
                image_views(old(images)@),
                image_views(final(images)@),
                r@,
            ) && texts(final(log)@) == texts(old(log)@) + reading_messages(page.0 as nat, record),
{
    let ghost start = *doc;
    let ghost pictures = image_views(images@);
    let ghost said = texts(log@);
    let ghost objects = document_objects(*doc);
    let ghost assets = assets_of(objects, listed_pictures(objects, page.1));
    let ghost ignored = ignored_messages(objects, listed_pictures(objects, page.1));
    let plan = prepare_page(doc, page.0, page.1, images, read_unsure, log);
    assert(pictures.len() == old(images)@.len());
    let ghost (scan, preparing) = choose|scan: Result<PageScan, String>, messages: Seq<Seq<char>>|
        is_sanitized(
            *read_unsure,
            objects,
            page.1,
            picture_ids(assets),
            pictures.len(),
            scan,
        ) && #[trigger] is_prepared(
            start,
            *doc,
            page.0 as nat,
            page.1,
            ignored,
            scan,
            plan,
            messages,
        ) && texts(log@) == said + messages;
    let text = extract(&*doc, page.0);
    let ghost found = text;
    let ghost failing = match found.failure {
        Some(reason) => seq![on_page(page.0 as nat, unextracted_message(reason@))],
        None => Seq::<Seq<char>>::empty(),
    };
    if let Some(reason) = &text.failure {
        let ghost before = log@;
        let message = report_unextracted(page.0, reason.as_str());
        let ghost words = message@;
        log.push(message);
        assert(texts(log@) == texts(before).push(words));
    }
    assert(texts(log@) == said + (preparing + failing));
    let placed = place_draws(&plan, height_of);
    let ghost record = PageRecord {
        scan,
        plan,
        text: found,
        placed: placed_views(placed@),
        preparing,
    };
    let flow = finish_page(page.0, text.lines, placed, log);
    assert(texts(log@) == said + reading_messages(page.0 as nat, record));
    assert(is_page_read(
        *read_unsure,
        *extract,
        *height_of,
        record,
        page,
        start,
        *doc,
        pictures,
        image_views(images@),
        flow@,
    ));
    flow
}

/// A page that was read: what was found, and the document and the pictures after it.
pub ghost struct PageTrace {
    pub record: PageRecord,
    pub after: lopdf::Document,
    pub images: Seq<ImageView>,
}

/// The document once these pages were read.
pub open spec fn document_after(trace: Seq<PageTrace>, start: lopdf::Document) -> lopdf::Document {
    if trace.len() == 0 {
        start
    } else {
        trace.last().after
    }
}

/// The pictures once these pages were read.
pub open spec fn images_after(trace: Seq<PageTrace>) -> Seq<ImageView> {
    if trace.len() == 0 {
        Seq::empty()
    } else {
        trace.last().images
    }
}

/// What is reported of some pages, one after the other.
pub open spec fn trace_messages(trace: Seq<PageTrace>, pages: Seq<(u32, (u32, u16))>) -> Seq<
    Seq<char>,
>
    decreases trace.len(),
{
    if trace.len() == 0 {
        Seq::empty()
    } else {
        trace_messages(trace.drop_last(), pages) + reading_messages(
            pages[trace.len() - 1].0 as nat,
            trace.last().record,
        )
    }
}

/// The first pages of a document were read one after the other, each from the document as the
/// pages before it left it.
#[verifier::opaque]
pub open spec fn is_trace<
    F: Fn(&[u8]) -> Result<Vec<lopdf::content::Operation>, String>,
    X: Fn(&lopdf::Document, u32) -> PageText,
    H: Fn(&PagePlan, usize) -> i64,
>(
    read_unsure: F,
    extract: X,
    height_of: H,
    trace: Seq<PageTrace>,
    pages: Seq<(u32, (u32, u16))>,
    start: lopdf::Document,
    flows: Seq<PageView>,
) -> bool {
    &&& trace.len() == flows.len()
    &&& trace.len() <= pages.len()
    &&& forall|i: int|
        0 <= i < trace.len() ==> is_page_read(
            read_unsure,
            extract,
            height_of,
            (#[trigger] trace[i]).record,
            pages[i],
            document_after(trace.take(i), start),
            trace[i].after,
            images_after(trace.take(i)),
            trace[i].images,
            flows[i],
        )
}

proof fn lemma_trace_grows<
    F: Fn(&[u8]) -> Result<Vec<lopdf::content::Operation>, String>,
    X: Fn(&lopdf::Document, u32) -> PageText,
    H: Fn(&PagePlan, usize) -> i64,
>(
    read_unsure: F,
    extract: X,
    height_of: H,
    trace: Seq<PageTrace>,
    pages: Seq<(u32, (u32, u16))>,
    start: lopdf::Document,
    flows: Seq<PageView>,
    next: PageTrace,
    flow: PageView,
)
    requires
        is_trace(read_unsure, extract, height_of, trace, pages, start, flows),
        trace.len() < pages.len(),
        is_page_read(
            read_unsure,
            extract,
            height_of,
            next.record,
            pages[trace.len() as int],
            document_after(trace, start),
            next.after,
            images_after(trace),
            next.images,
            flow,
        ),
    ensures
        is_trace(
            read_unsure,
            extract,
            height_of,
            trace.push(next),
            pages,
            start,
            flows.push(flow),
        ),
{
    reveal(is_trace);
    let all = trace.push(next);
    assert forall|i: int| 0 <= i < all.len() implies is_page_read(
        read_unsure,
        extract,
        height_of,
        (#[trigger] all[i]).record,
        pages[i],
        document_after(all.take(i), start),
        all[i].after,
        images_after(all.take(i)),
        all[i].images,
        flows.push(flow)[i],
    ) by {
        assert(all.take(i) == trace.take(i));
        if i < trace.len() {
            assert(all[i] == trace[i]);
        } else {
            assert(trace.take(i) == trace);
        }
    }
}

/// Reads every page of a document, from the first to the last, into lines of text and pictures in
/// reading order. What is reported of a page goes to `tell` as soon as the page was read, and to
/// `log`.
pub fn parse_document<
    F: Fn(&[u8]) -> Result<Vec<lopdf::content::Operation>, String>,
    X: Fn(&lopdf::Document, u32) -> PageText,
    H: Fn(&PagePlan, usize) -> i64,
    T: Fn(&Vec<String>),
>(
    doc: &mut lopdf::Document,
    read_unsure: &F,
    extract: &X,
    height_of: &H,
    tell: &T,
    log: &mut Vec<String>,
) -> (r: ExtractedDoc)
    requires
        reads_anything(*read_unsure),
        extracts_anything(*extract),
        places_anything(*height_of),
        shows_anything(*tell),
    ensures
        ({
            let pages = pages_of(document_objects(*old(doc)), document_trailer(*old(doc)));
            &&& r@.pages.len() == pages.len()
            &&& exists|trace: Seq<PageTrace>|
                #[trigger] is_trace(
                    *read_unsure,
                    *extract,
                    *height_of,
                    trace,
                    pages,
                    *old(doc),
                    r@.pages,
                ) && r@.images == images_after(trace) && *final(doc) == document_after(
                    trace,
                    *old(doc),
                ) && texts(final(log)@) == texts(old(log)@) + trace_messages(trace, pages)
        }),
        shows_its_own_pictures(r@),
        are_named_here(r@.images),
{
    let ghost start = *doc;
    let ghost said = texts(log@);
    let list = list_pages(doc);
    let mut images: Vec<ImageAsset> = Vec::new();
    let mut pages: Vec<PageFlow> = Vec::new();
    let ghost mut trace: Seq<PageTrace> = Seq::empty();
    assert(image_views(images@) == Seq::<ImageView>::empty());
    assert(page_views(pages@) == Seq::<PageView>::empty());
    assert(said + Seq::<Seq<char>>::empty() == said);
    proof {
        reveal(is_trace);
    }
    for i in 0..list.len()
        invariant
            reads_anything(*read_unsure),
            extracts_anything(*extract),
            places_anything(*height_of),
            shows_anything(*tell),
            trace.len() == i,
            is_trace(
                *read_unsure,
                *extract,
                *height_of,
                trace,
                list@,
                start,
                page_views(pages@),
            ),
            image_views(images@) == images_after(trace),
            *doc == document_after(trace, start),
            texts(log@) == said + trace_messages(trace, list@),
    {
        let ghost before = *doc;
        let ghost pictures = image_views(images@);
        let ghost told = log@;
        let ghost flows = pages@;
        let mut notes: Vec<String> = Vec::new();
        assert(texts(notes@) == Seq::<Seq<char>>::empty());
        let flow = parse_page(
            doc,
            list[i],
            &mut images,
            read_unsure,
            extract,
            height_of,
            &mut notes,
        );
        let ghost view = flow@;
        let ghost record = choose|record: PageRecord|
            #[trigger] is_page_read(
                *read_unsure,
                *extract,
                *height_of,
                record,
                list@[i as int],
                before,
                *doc,
                pictures,
                image_views(images@),
                view,
            ) && texts(notes@) == Seq::<Seq<char>>::empty() + reading_messages(
                list@[i as int].0 as nat,
                record,
            );
        tell(&notes);
        let ghost more = notes@;
        log.append(&mut notes);
        assert(texts(log@) == texts(told) + texts(more));
        pages.push(flow);
        assert(page_views(pages@) == page_views(flows).push(view));
        proof {
            let next = PageTrace { record, after: *doc, images: image_views(images@) };
            lemma_trace_grows(
                *read_unsure,
                *extract,
                *height_of,
                trace,
                list@,
                start,
                page_views(flows),
                next,
                view,
            );
            assert(trace.push(next).drop_last() == trace);
            assert(texts(more) == reading_messages(list@[i as int].0 as nat, record));
            assert(texts(log@) == said + trace_messages(trace.push(next), list@));
            trace = trace.push(next);
        }
    }
    let r = ExtractedDoc { pages, images };
    assert(r@.pages == page_views(pages@));
    assert(r@.images == image_views(images@));
    proof {
        lemma_document_is_sound(*read_unsure, *extract, *height_of, trace, list@, start, r);
    }
    r
}

/// Every picture that was found drawn on a page stands in the flow of the page.
pub proof fn every_drawn_picture_stands_in_the_flow<
    F: Fn(&[u8]) -> Result<Vec<lopdf::content::Operation>, String>,
    X: Fn(&lopdf::Document, u32) -> PageText,
    H: Fn(&PagePlan, usize) -> i64,
>(
    read_unsure: F,
    extract: X,
    height_of: H,
    record: PageRecord,
    page: (u32, (u32, u16)),
    before: lopdf::Document,
    after: lopdf::Document,
    images_before: Seq<ImageView>,
    images_after: Seq<ImageView>,
    flow: PageView,
    k: int,
)
    requires
        is_page_read(
            read_unsure,
            extract,
            height_of,
            record,
            page,
            before,
            after,
            images_before,
            images_after,
            flow,
        ),
        flow.events.len() <= usize::MAX,
        record.scan matches Ok(scan) && 0 <= k < scan.draws@.len(),
    ensures
        exists|j: int|
            0 <= j < flow.events.len() && (#[trigger] flow.events[j]).1 == EventView::Image(
                record.scan->Ok_0.draws@[k].image as nat,
            ),
{
    let lines = run_views(record.text.lines@);
    let events = page_events(lines, record.placed);
    let at = lines.len() + k;
    assert(record.placed[k].1 == record.plan.draws@[k].image);
    assert(events[at] == (record.placed[k].0, EventView::Image(record.placed[k].1)));
    every_event_stands_on_its_page(events, at);
    let j = choose|j: int|
        0 <= j < events.len() && (#[trigger] ranked(event_heights(events))[j]).1 == at
            && from_the_top(events)[j] == events[at];
    assert(flow.events[j] == events[at]);
}

/// Every line that was extracted from a page stands in the flow of the page at its own height,
/// and the flow holds nothing but these lines and the pictures that were found drawn.
pub proof fn a_page_shows_its_lines_and_its_pictures<
    F: Fn(&[u8]) -> Result<Vec<lopdf::content::Operation>, String>,
    X: Fn(&lopdf::Document, u32) -> PageText,
    H: Fn(&PagePlan, usize) -> i64,
>(
    read_unsure: F,
    extract: X,
    height_of: H,
    record: PageRecord,
    page: (u32, (u32, u16)),
    before: lopdf::Document,
    after: lopdf::Document,
    images_before: Seq<ImageView>,
    images_after: Seq<ImageView>,
    flow: PageView,
    i: int,
    j: int,
)
    requires
        is_page_read(
            read_unsure,
            extract,
            height_of,
            record,
            page,
            before,
            after,
            images_before,
            images_after,
            flow,
        ),
        flow.events.len() <= usize::MAX,
    ensures
        flow.page_num == page.0,
        flow.events.len() == record.text.lines@.len() + record.plan.draws@.len(),
        0 <= i < record.text.lines@.len() ==> flow.events.contains(
            (record.text.lines@[i].y as int, EventView::Line(record.text.lines@[i]@)),
        ),
        0 <= j < flow.events.len() ==> match flow.events[j].1 {
            EventView::Line(run) => exists|k: int|
                0 <= k < record.text.lines@.len() && (#[trigger] record.text.lines@[k])@ == run,
            EventView::Image(idx) => exists|k: int|
                0 <= k < record.plan.draws@.len() && (#[trigger] record.plan.draws@[k]).image
                    == idx,
        },
{
    let lines = run_views(record.text.lines@);
    let events = page_events(lines, record.placed);
    if 0 <= i < lines.len() {
        assert(events[i] == (lines[i].y, EventView::Line(lines[i])));
        every_event_stands_on_its_page(events, i);
        let k = choose|k: int|
            0 <= k < events.len() && (#[trigger] ranked(event_heights(events))[k]).1 == i
                && from_the_top(events)[k] == events[i];
        assert(flow.events[k] == events[i]);
    }
    if 0 <= j < flow.events.len() {
        crate::order::ranking_sorts(event_heights(events));
        let at = ranked(event_heights(events))[j].1 as int;
        assert(0 <= at < events.len());
        assert(flow.events[j] == events[at]);
        if at < lines.len() {
            assert(record.text.lines@[at]@ == lines[at]);
        } else {
            let d = at - lines.len();
            assert(record.placed[d].1 == record.plan.draws@[d].image);
        }
    }
}

proof fn lemma_draws_are_there<F: Fn(&[u8]) -> Result<Vec<lopdf::content::Operation>, String>>(
    read_unsure: F,
    objects: Map<(u32, u16), ObjectModel>,
    page_id: (u32, u16),
    pictures: Seq<(u32, u16)>,
    base: nat,
    scan: PageScan,
    k: int,
)
    requires
        is_sanitized(read_unsure, objects, page_id, pictures, base, Ok(scan)),
        0 <= k < scan.draws@.len(),
    ensures
        base <= scan.draws@[k].image < base + pictures.len(),
{
    let bytes = page_content_of(objects, page_id);
    let ops = if !may_hold_inline_picture(bytes) {
        operations_of(bytes)
    } else {
        let decoded = choose|decoded: Result<Vec<lopdf::content::Operation>, String>|
            may_read(read_unsure, bytes, decoded) && #[trigger] is_page_scan(
                Ok(scan),
                page_scan_of(decoded_view(decoded), objects, page_id, pictures, base),
            );
        decoded_view(decoded)
    };
    let found = page_scan_of(ops, objects, page_id, pictures, base);
    assert(is_page_scan(Ok(scan), found));
    let draws = found->Ok_0.0.draws;
    assert(draw_views(scan.draws@, scan.steps@)[k].1 == scan.draws@[k].image);
    let xobjects = match page_resources(objects, page_id)->Ok_0 {
        Some(dict) => match dictionary_under(objects, dict, vstd::utf8::encode_utf8("XObject"@)) {
            Ok(entries) => Some(entries),
            Err(_) => None,
        },
        None => None,
    };
    only_extracted_pictures_are_noted(ops->Ok_0, objects, xobjects, pictures, base, k);
}

proof fn lemma_page_pictures_are_there<
    F: Fn(&[u8]) -> Result<Vec<lopdf::content::Operation>, String>,
    X: Fn(&lopdf::Document, u32) -> PageText,
    H: Fn(&PagePlan, usize) -> i64,
>(
    read_unsure: F,
    extract: X,
    height_of: H,
    record: PageRecord,
    page: (u32, (u32, u16)),
    before: lopdf::Document,
    after: lopdf::Document,
    images_before: Seq<ImageView>,
    images_after: Seq<ImageView>,
    flow: PageView,
    j: int,
)
    requires
        is_page_read(
            read_unsure,
            extract,
            height_of,
            record,
            page,
            before,
            after,
            images_before,
            images_after,
            flow,
        ),
        flow.events.len() <= usize::MAX,
        0 <= j < flow.events.len(),
    ensures
        flow.events[j].1 matches EventView::Image(i) ==> i < images_after.len(),
{
    if let EventView::Image(i) = flow.events[j].1 {
        let lines = run_views(record.text.lines@);
        let events = page_events(lines, record.placed);
        crate::order::ranking_sorts(event_heights(events));
        let at = ranked(event_heights(events))[j].1 as int;
        assert(flow.events[j] == events[at]);
        let k = at - lines.len();
        if k < 0 {
            assert(events[at].1 == EventView::Line(lines[at]));
        }
        assert(events[at] == (record.placed[k].0, EventView::Image(record.placed[k].1)));
        assert(record.placed[k].1 == record.plan.draws@[k].image);
        let objects = document_objects(before);
        let assets = assets_of(objects, listed_pictures(objects, page.1));
        lemma_draws_are_there(
            read_unsure,
            objects,
            page.1,
            picture_ids(assets),
            images_before.len(),
            record.scan->Ok_0,
            k,
        );
    }
}

proof fn lemma_page_keeps_pictures<
    F: Fn(&[u8]) -> Result<Vec<lopdf::content::Operation>, String>,
    X: Fn(&lopdf::Document, u32) -> PageText,
    H: Fn(&PagePlan, usize) -> i64,
>(
    read_unsure: F,
    extract: X,
    height_of: H,
    trace: Seq<PageTrace>,
    pages: Seq<(u32, (u32, u16))>,
    start: lopdf::Document,
    flows: Seq<PageView>,
    p: int,
)
    requires
        is_trace(read_unsure, extract, height_of, trace, pages, start, flows),
        0 < p < trace.len(),
    ensures
        trace[p - 1].images.len() <= trace[p].images.len(),
{
    reveal(is_trace);
    let before = trace.take(p);
    assert(before.last() == trace[p - 1]);
    assert(is_page_read(
        read_unsure,
        extract,
        height_of,
        trace[p].record,
        pages[p],
        document_after(before, start),
        trace[p].after,
        images_after(before),
        trace[p].images,
        flows[p],
    ));
}

proof fn lemma_counts_grow(counts: Seq<nat>, p: int, q: int)
    requires
        forall|i: int| 0 < i < counts.len() ==> counts[i - 1] <= #[trigger] counts[i],
        0 <= p <= q < counts.len(),
    ensures
        counts[p] <= counts[q],
    decreases q - p,
{
    if p < q {
        lemma_counts_grow(counts, p, q - 1);
    }
}

proof fn lemma_pictures_stay<
    F: Fn(&[u8]) -> Result<Vec<lopdf::content::Operation>, String>,
    X: Fn(&lopdf::Document, u32) -> PageText,
    H: Fn(&PagePlan, usize) -> i64,
>(
    read_unsure: F,
    extract: X,
    height_of: H,
    trace: Seq<PageTrace>,
    pages: Seq<(u32, (u32, u16))>,
    start: lopdf::Document,
    flows: Seq<PageView>,
    p: int,
)
    requires
        is_trace(read_unsure, extract, height_of, trace, pages, start, flows),
        0 <= p < trace.len(),
    ensures
        trace[p].images.len() <= images_after(trace).len(),
{
    let counts = Seq::new(trace.len(), |i: int| trace[i].images.len());
    assert forall|i: int| 0 < i < counts.len() implies counts[i - 1] <= #[trigger] counts[i] by {
        lemma_page_keeps_pictures(
            read_unsure,
            extract,
            height_of,
            trace,
            pages,
            start,
            flows,
            i,
        );
    }
    lemma_counts_grow(counts, p, trace.len() - 1);
}

proof fn lemma_trace_pages<
    F: Fn(&[u8]) -> Result<Vec<lopdf::content::Operation>, String>,
    X: Fn(&lopdf::Document, u32) -> PageText,
    H: Fn(&PagePlan, usize) -> i64,
>(
    read_unsure: F,
    extract: X,
    height_of: H,
    trace: Seq<PageTrace>,
    pages: Seq<(u32, (u32, u16))>,
    start: lopdf::Document,
    flows: Seq<PageView>,
    p: int,
)
    requires
        is_trace(read_unsure, extract, height_of, trace, pages, start, flows),
        0 <= p < flows.len(),
    ensures
        p < trace.len(),
        is_page_read(
            read_unsure,
            extract,
            height_of,
            trace[p].record,
            pages[p],
            document_after(trace.take(p), start),
            trace[p].after,
            images_after(trace.take(p)),
            trace[p].images,
            flows[p],
        ),
{
    reveal(is_trace);
}

/// Every picture that stands in the flow of a document is among its pictures.
pub proof fn every_picture_in_the_flow_is_there<
    F: Fn(&[u8]) -> Result<Vec<lopdf::content::Operation>, String>,
    X: Fn(&lopdf::Document, u32) -> PageText,
    H: Fn(&PagePlan, usize) -> i64,
>(
    read_unsure: F,
    extract: X,
    height_of: H,
    trace: Seq<PageTrace>,
    pages: Seq<(u32, (u32, u16))>,
    start: lopdf::Document,
    flows: Seq<PageView>,
    p: int,
    j: int,
)
    requires
        is_trace(read_unsure, extract, height_of, trace, pages, start, flows),
        0 <= p < flows.len(),
        0 <= j < flows[p].events.len(),
        flows[p].events.len() <= usize::MAX,
    ensures
        flows[p].events[j].1 matches EventView::Image(i) ==> i < images_after(trace).len(),
{
    lemma_trace_pages(read_unsure, extract, height_of, trace, pages, start, flows, p);
    lemma_pictures_stay(read_unsure, extract, height_of, trace, pages, start, flows, p);
    lemma_page_pictures_are_there(
        read_unsure,
        extract,
        height_of,
        trace[p].record,
        pages[p],
        document_after(trace.take(p), start),
        trace[p].after,
        images_after(trace.take(p)),
        trace[p].images,
        flows[p],
        j,
    );
}

/// The pictures that a page draws are the ones that were taken off that page, none of a page before
/// it, and the pictures of the document grow by exactly these.
pub proof fn a_page_draws_its_own_pictures<
    F: Fn(&[u8]) -> Result<Vec<lopdf::content::Operation>, String>,
    X: Fn(&lopdf::Document, u32) -> PageText,
    H: Fn(&PagePlan, usize) -> i64,
>(
    read_unsure: F,
    extract: X,
    height_of: H,
    record: PageRecord,
    page: (u32, (u32, u16)),
    before: lopdf::Document,
    after: lopdf::Document,
    images_before: Seq<ImageView>,
    images_after: Seq<ImageView>,
    flow: PageView,
    k: int,
)
    requires
        is_page_read(
            read_unsure,
            extract,
            height_of,
            record,
            page,
            before,
            after,
            images_before,
            images_after,
            flow,
        ),
        0 <= k < record.plan.draws@.len(),
    ensures
        images_before.is_prefix_of(images_after),
        images_before.len() <= record.plan.draws@[k].image < images_after.len(),
        record.scan is Ok,
        record.plan.draws@ == record.scan->Ok_0.draws@,
        record.plan.steps@ == record.scan->Ok_0.steps@,
        record.plan.frame == Some(record.scan->Ok_0.frame),
{
    let objects = document_objects(before);
    let assets = assets_of(objects, listed_pictures(objects, page.1));
    assert(record.scan is Ok);
    lemma_draws_are_there(
        read_unsure,
        objects,
        page.1,
        picture_ids(assets),
        images_before.len(),
        record.scan->Ok_0,
        k,
    );
    assert(images_after.take(images_before.len() as int) == images_before);
}

/// A page that could be read is left with the operations that the walk over it kept, and one that
/// could not be read with none: its content is the bytes that these are written as, and all other
/// objects stay.
pub proof fn a_page_is_left_with_what_was_kept(
    before: lopdf::Document,
    after: lopdf::Document,
    page_num: nat,
    page_id: (u32, u16),
    ignored: Seq<Seq<char>>,
    scan: Result<PageScan, String>,
    plan: PagePlan,
    messages: Seq<Seq<char>>,
)
    requires
        is_prepared(before, after, page_num, page_id, ignored, scan, plan, messages),
    ensures
        ({
            let ops = match scan {
                Ok(page) => operation_models(page.operations@),
                Err(_) => Seq::empty(),
            };
            let (objects, complaint) = replaced_content(
                document_objects(before),
                document_last_id(before),
                page_id,
                ops,
            );
            &&& document_objects(after) == objects
            &&& document_trailer(after) == document_trailer(before)
            &&& scan is Err ==> plan.draws@.len() == 0 && plan.frame is None
            &&& messages.len() == ignored.len() + (if scan is Err {
                1int
            } else {
                0
            }) + (if complaint is Some {
                1int
            } else {
                0
            })
        }),
{
}

/// Every page of a document keeps its number and its place, and its pictures stand behind those of
/// the pages before it.
pub proof fn pages_keep_their_places<
    F: Fn(&[u8]) -> Result<Vec<lopdf::content::Operation>, String>,
    X: Fn(&lopdf::Document, u32) -> PageText,
    H: Fn(&PagePlan, usize) -> i64,
>(
    read_unsure: F,
    extract: X,
    height_of: H,
    trace: Seq<PageTrace>,
    pages: Seq<(u32, (u32, u16))>,
    start: lopdf::Document,
    flows: Seq<PageView>,
    i: int,
)
    requires
        is_trace(read_unsure, extract, height_of, trace, pages, start, flows),
        0 <= i < trace.len(),
    ensures
        flows.len() == trace.len(),
        flows[i].page_num == pages[i].0,
        i == 0 ==> trace[i].images == picture_files(
            assets_of(
                document_objects(start),
                listed_pictures(document_objects(start), pages[i].1),
            ),
        ),
        i > 0 ==> trace[i].images == trace[i - 1].images + picture_files(
            assets_of(
                document_objects(trace[i - 1].after),
                listed_pictures(document_objects(trace[i - 1].after), pages[i].1),
            ),
        ),
{
    reveal(is_trace);
    let held = trace.take(i);
    assert(is_page_read(
        read_unsure,
        extract,
        height_of,
        trace[i].record,
        pages[i],
        document_after(held, start),
        trace[i].after,
        images_after(held),
        trace[i].images,
        flows[i],
    ));
    if i > 0 {
        assert(held.last() == trace[i - 1]);
    } else {
        let files = picture_files(
            assets_of(
                document_objects(start),
                listed_pictures(document_objects(start), pages[i].1),
            ),
        );
        assert(Seq::<ImageView>::empty() + files == files);
    }
}

/// Every picture that stands in the flow of the document is among its pictures.
pub open spec fn shows_its_own_pictures(doc: DocView) -> bool {
    forall|p: int, j: int|
        0 <= p < doc.pages.len() && 0 <= j < doc.pages[p].events.len() ==> ((
        #[trigger] doc.pages[p].events[j]).1 matches EventView::Image(i) ==> i < doc.images.len())
}

proof fn lemma_document_is_sound<
    F: Fn(&[u8]) -> Result<Vec<lopdf::content::Operation>, String>,
    X: Fn(&lopdf::Document, u32) -> PageText,
    H: Fn(&PagePlan, usize) -> i64,
>(
    read_unsure: F,
    extract: X,
    height_of: H,
    trace: Seq<PageTrace>,
    pages: Seq<(u32, (u32, u16))>,
    start: lopdf::Document,
    doc: ExtractedDoc,
)
    requires
        is_trace(read_unsure, extract, height_of, trace, pages, start, doc@.pages),
        doc@.images == images_after(trace),
    ensures
        shows_its_own_pictures(doc@),
        are_named_here(doc@.images),
{
    let flows = doc@.pages;
    assert forall|p: int, j: int| 0 <= p < flows.len() && 0 <= j < flows[p].events.len() implies ((
    #[trigger] flows[p].events[j]).1 matches EventView::Image(i) ==> i < doc@.images.len()) by {
        assert(flows[p] == doc.pages@[p]@);
        assert(flows[p].events.len() == doc.pages@[p].events.len());
        every_picture_in_the_flow_is_there(
            read_unsure,
            extract,
            height_of,
            trace,
            pages,
            start,
            flows,
            p,
            j,
        );
    }
    every_picture_is_named_here(read_unsure, extract, height_of, trace, pages, start, flows);
}

/// Every one of some pictures has a name and a type that pictures of a PDF are given.
pub open spec fn are_named_here(images: Seq<ImageView>) -> bool {
    forall|i: int| 0 <= i < images.len() ==> is_named_here(#[trigger] images[i])
}

proof fn lemma_page_names_pictures<
    F: Fn(&[u8]) -> Result<Vec<lopdf::content::Operation>, String>,
    X: Fn(&lopdf::Document, u32) -> PageText,
    H: Fn(&PagePlan, usize) -> i64,
>(
    read_unsure: F,
    extract: X,
    height_of: H,
    trace: Seq<PageTrace>,
    pages: Seq<(u32, (u32, u16))>,
    start: lopdf::Document,
    flows: Seq<PageView>,
    p: int,
)
    requires
        is_trace(read_unsure, extract, height_of, trace, pages, start, flows),
        0 <= p < trace.len(),
        p > 0 ==> are_named_here(trace[p - 1].images),
    ensures
        are_named_here(trace[p].images),
{
    reveal(is_trace);
    let before = trace.take(p);
    let held = images_after(before);
    let objects = document_objects(document_after(before, start));
    let listed = listed_pictures(objects, pages[p].1);
    let assets = assets_of(objects, listed);
    assert(p > 0 ==> before.last() == trace[p - 1]);
    assert(is_page_read(
        read_unsure,
        extract,
        height_of,
        trace[p].record,
        pages[p],
        document_after(before, start),
        trace[p].after,
        held,
        trace[p].images,
        flows[p],
    ));
    let all = trace[p].images;
    assert(all == held + picture_files(assets));
    assert forall|i: int| 0 <= i < all.len() implies is_named_here(#[trigger] all[i]) by {
        if i < held.len() {
            assert(all[i] == held[i]);
        } else {
            let k = i - held.len();
            assert(all[i] == picture_files(assets)[k]);
            pictures_are_named_after_their_objects(objects, listed, k);
            assert(is_named_after(all[i], assets[k].0));
        }
    }
}

/// Every picture of a document that was read has a name that pictures of a PDF are given.
pub proof fn every_picture_is_named_here<
    F: Fn(&[u8]) -> Result<Vec<lopdf::content::Operation>, String>,
    X: Fn(&lopdf::Document, u32) -> PageText,
    H: Fn(&PagePlan, usize) -> i64,
>(
    read_unsure: F,
    extract: X,
    height_of: H,
    trace: Seq<PageTrace>,
    pages: Seq<(u32, (u32, u16))>,
    start: lopdf::Document,
    flows: Seq<PageView>,
)
    requires
        is_trace(read_unsure, extract, height_of, trace, pages, start, flows),
    ensures
        are_named_here(images_after(trace)),
{
    if trace.len() > 0 {
        let named = Seq::new(trace.len(), |i: int| are_named_here(trace[i].images));
        assert forall|i: int| 0 <= i < named.len() && (i > 0 ==> named[i - 1]) implies
            #[trigger] named[i] by {
            lemma_page_names_pictures(
                read_unsure,
                extract,
                height_of,
                trace,
                pages,
                start,
                flows,
                i,
            );
        }
        lemma_one_after_the_other(named, trace.len() - 1);
    }
}

proof fn lemma_one_after_the_other(facts: Seq<bool>, n: int)
    requires
        forall|i: int| 0 <= i < facts.len() && (i > 0 ==> facts[i - 1]) ==> #[trigger] facts[i],
        0 <= n < facts.len(),
    ensures
        facts[n],
    decreases n,
{
    if n > 0 {
        lemma_one_after_the_other(facts, n - 1);
    }
}

} // verus!
