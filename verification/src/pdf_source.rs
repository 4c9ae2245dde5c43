//! The objects of a PDF, as `lopdf` holds them.
use vstd::prelude::*;

use crate::text::decimal;

verus! {

#[verifier::external_type_specification]
#[verifier::external_body]
pub struct ExDocument(lopdf::Document);

#[verifier::external_type_specification]
#[verifier::external_body]
pub struct ExObject(lopdf::Object);

#[verifier::external_type_specification]
#[verifier::external_body]
pub struct ExDictionary(lopdf::Dictionary);

#[verifier::external_type_specification]
#[verifier::external_body]
pub struct ExStream(lopdf::Stream);

/// What a PDF object is.
#[verifier::ext_equal]
pub ghost enum ObjectModel {
    Null,
    Boolean(bool),
    Integer(i64),
    /// A number in single precision, by its bits.
    Real(u32),
    Name(Seq<u8>),
    /// A string, and whether it is written in hexadecimal.
    Text(Seq<u8>, bool),
    Array(Seq<ObjectModel>),
    Dictionary(Seq<(Seq<u8>, ObjectModel)>),
    Stream(Seq<(Seq<u8>, ObjectModel)>, Seq<u8>),
    Reference((u32, u16)),
}

/// What an object holds.
pub uninterp spec fn object_model(object: lopdf::Object) -> ObjectModel;

/// The entries of a dictionary, in their order. No key stands twice.
pub uninterp spec fn entries(dict: lopdf::Dictionary) -> Seq<(Seq<u8>, ObjectModel)>;

/// The dictionary of a stream and its bytes as they are stored.
pub uninterp spec fn stream_parts(stream: lopdf::Stream) -> (
    Seq<(Seq<u8>, ObjectModel)>,
    Seq<u8>,
);

/// The objects of a document, by their numbers and generations.
pub uninterp spec fn document_objects(doc: lopdf::Document) -> Map<(u32, u16), ObjectModel>;

/// The entries of a document's trailer.
pub uninterp spec fn document_trailer(doc: lopdf::Document) -> Seq<(Seq<u8>, ObjectModel)>;

/// The contents of some objects.
pub open spec fn object_models(objects: Seq<lopdf::Object>) -> Seq<ObjectModel> {
    objects.map_values(|o: lopdf::Object| object_model(o))
}

/// The value under a key.
pub open spec fn lookup(dict: Seq<(Seq<u8>, ObjectModel)>, key: Seq<u8>) -> Option<ObjectModel>
    decreases dict.len(),
{
    if dict.len() == 0 {
        None
    } else if dict.last().0 == key {
        Some(dict.last().1)
    } else {
        lookup(dict.drop_last(), key)
    }
}

/// What an object is called.
pub open spec fn variant_name(o: ObjectModel) -> Seq<char> {
    match o {
        ObjectModel::Null => "Null"@,
        ObjectModel::Boolean(_) => "Boolean"@,
        ObjectModel::Integer(_) => "Integer"@,
        ObjectModel::Real(_) => "Real"@,
        ObjectModel::Name(_) => "Name"@,
        ObjectModel::Text(_, _) => "String"@,
        ObjectModel::Array(_) => "Array"@,
        ObjectModel::Dictionary(_) => "Dictionary"@,
        ObjectModel::Stream(_, _) => "Stream"@,
        ObjectModel::Reference(_) => "Reference"@,
    }
}

/// The complaint about an object of the wrong kind.
pub open spec fn wrong_type(expected: Seq<char>, found: ObjectModel) -> Seq<char> {
    "object has wrong type; expected type "@ + expected + " but found type "@ + variant_name(
        found,
    )
}

/// The complaint about a key that is not there.
pub open spec fn missing_key(key: Seq<u8>) -> Seq<char> {
    "missing required dictionary key \""@ + utf8_lossy(key) + "\""@
}

/// The complaint about an object that is not there.
pub open spec fn not_found(id: (u32, u16)) -> Seq<char> {
    "object ID "@ + decimal(id.0 as nat) + " "@ + decimal(id.1 as nat) + " not found"@
}

/// The object that a chain of references ends in. No more than `left` of them are followed.
pub open spec fn followed(
    objects: Map<(u32, u16), ObjectModel>,
    o: ObjectModel,
    left: nat,
) -> Result<ObjectModel, Seq<char>>
    decreases left,
{
    match o {
        ObjectModel::Reference(id) => if !objects.contains_key(id) {
            Err(not_found(id))
        } else if left == 0 {
            Err("dereferencing object reached limit, may indicate a reference cycle"@)
        } else {
            followed(objects, objects[id], (left - 1) as nat)
        },
        _ => Ok(o),
    }
}

/// The number of references that are followed before giving up.
pub const REFERENCE_LIMIT: u32 = 128;

/// The object itself, or the one that it refers to.
pub open spec fn resolved(objects: Map<(u32, u16), ObjectModel>, o: ObjectModel) -> Result<
    ObjectModel,
    Seq<char>,
> {
    followed(objects, o, REFERENCE_LIMIT as nat)
}

/// The object of that number, or the one that it refers to.
pub open spec fn object_at(objects: Map<(u32, u16), ObjectModel>, id: (u32, u16)) -> Result<
    ObjectModel,
    Seq<char>,
> {
    if objects.contains_key(id) {
        resolved(objects, objects[id])
    } else {
        Err(not_found(id))
    }
}

/// An object that is no reference is what it is, a reference leads to the object of its number,
/// also over another reference, and one to a number that no object has leads nowhere.
pub proof fn references_lead_to_their_objects(
    objects: Map<(u32, u16), ObjectModel>,
    o: ObjectModel,
    id: (u32, u16),
    other: (u32, u16),
)
    requires
        !(o is Reference),
    ensures
        resolved(objects, o) == Ok::<ObjectModel, Seq<char>>(o),
        objects.contains_key(id) && objects[id] == o ==> resolved(
            objects,
            ObjectModel::Reference(id),
        ) == Ok::<ObjectModel, Seq<char>>(o) && object_at(objects, id) == Ok::<
            ObjectModel,
            Seq<char>,
        >(o),
        objects.contains_key(id) && objects[id] == o && objects.contains_key(other)
            && objects[other] == ObjectModel::Reference(id) ==> object_at(objects, other) == Ok::<
            ObjectModel,
            Seq<char>,
        >(o),
        !objects.contains_key(id) ==> object_at(objects, id) is Err && resolved(
            objects,
            ObjectModel::Reference(id),
        ) is Err,
{
    reveal_with_fuel(followed, 3);
}

/// The entries of an object that is a dictionary.
pub open spec fn dictionary_of(o: Result<ObjectModel, Seq<char>>) -> Result<
    Seq<(Seq<u8>, ObjectModel)>,
    Seq<char>,
> {
    match o {
        Ok(ObjectModel::Dictionary(dict)) => Ok(dict),
        Ok(other) => Err(wrong_type("Dictionary"@, other)),
        Err(e) => Err(e),
    }
}

/// The dictionary under a key, or the one that the value there refers to.
pub open spec fn dictionary_under(
    objects: Map<(u32, u16), ObjectModel>,
    dict: Seq<(Seq<u8>, ObjectModel)>,
    key: Seq<u8>,
) -> Result<Seq<(Seq<u8>, ObjectModel)>, Seq<char>> {
    match lookup(dict, key) {
        None => Err(missing_key(key)),
        Some(ObjectModel::Reference(id)) => dictionary_of(object_at(objects, id)),
        Some(o) => dictionary_of(Ok(o)),
    }
}

/// The call gave back an object with this content, or this complaint.
pub open spec fn is_object(
    r: Result<&lopdf::Object, String>,
    m: Result<ObjectModel, Seq<char>>,
) -> bool {
    match (r, m) {
        (Ok(o), Ok(model)) => object_model(*o) == model,
        (Err(e), Err(text)) => e@ == text,
        _ => false,
    }
}

/// The call gave back a dictionary with these entries, or this complaint.
pub open spec fn is_dictionary(
    r: Result<&lopdf::Dictionary, String>,
    m: Result<Seq<(Seq<u8>, ObjectModel)>, Seq<char>>,
) -> bool {
    match (r, m) {
        (Ok(d), Ok(model)) => entries(*d) == model,
        (Err(e), Err(text)) => e@ == text,
        _ => false,
    }
}

/// The text that bytes spell in UTF-8, with a replacement character for each malformed part.
pub uninterp spec fn utf8_lossy(bytes: Seq<u8>) -> Seq<char>;

/// `String::from_utf8_lossy` reads bytes as UTF-8. Well-formed bytes come out as the text they
/// encode.
#[verifier::external_body]
pub(crate) fn lossy_text(bytes: &[u8]) -> (r: String)
    ensures
        r@ == utf8_lossy(bytes@),
        vstd::utf8::valid_utf8(bytes@) ==> r@ == vstd::utf8::decode_utf8(bytes@),
{
    String::from_utf8_lossy(bytes).to_string()
}

pub(crate) fn same_bytes(a: &[u8], b: &[u8]) -> (r: bool)
    ensures
        r == (a@ == b@),
{
    if a.len() != b.len() {
        return false;
    }
    for i in 0..a.len()
        invariant
            a@.len() == b@.len(),
            forall|k: int| 0 <= k < i ==> a@[k] == b@[k],
    {
        if a[i] != b[i] {
            return false;
        }
    }
    assert(a@ == b@);
    true
}

/// `lopdf::Dictionary::get` finds the value under a key, or complains that it is missing.
#[verifier::external_body]
pub(crate) fn get_entry<'a>(dict: &'a lopdf::Dictionary, key: &[u8]) -> (r: Result<
    &'a lopdf::Object,
    String,
>)
    ensures
        is_object(
            r,
            match lookup(entries(*dict), key@) {
                Some(o) => Ok(o),
                None => Err(missing_key(key@)),
            },
        ),
{
    dict.get(key).map_err(|e| e.to_string())
}

/// `lopdf::Object::as_dict` hands out the dictionary that an object is, and complains about any
/// other object.
#[verifier::external_body]
pub(crate) fn as_dictionary<'a>(object: &'a lopdf::Object) -> (r: Result<
    &'a lopdf::Dictionary,
    String,
>)
    ensures
        is_dictionary(r, dictionary_of(Ok(object_model(*object)))),
{
    object.as_dict().map_err(|e| e.to_string())
}

/// `lopdf::Object::as_name` hands out the bytes of a name, and complains about any other object.
#[verifier::external_body]
pub(crate) fn as_name<'a>(object: &'a lopdf::Object) -> (r: Result<&'a [u8], String>)
    ensures
        match object_model(*object) {
            ObjectModel::Name(name) => r matches Ok(bytes) && bytes@ == name,
            other => r matches Err(e) && e@ == wrong_type("Name"@, other),
        },
{
    object.as_name().map_err(|e| e.to_string())
}

/// `lopdf::Object::as_str` hands out the bytes of a string, and complains about any other
/// object.
#[verifier::external_body]
pub(crate) fn as_string<'a>(object: &'a lopdf::Object) -> (r: Result<&'a [u8], String>)
    ensures
        match object_model(*object) {
            ObjectModel::Text(text, _) => r matches Ok(bytes) && bytes@ == text,
            other => r matches Err(e) && e@ == wrong_type("String"@, other),
        },
{
    object.as_str().map_err(|e| e.to_string())
}

/// `lopdf::Object::as_i64` hands out an integer, and complains about any other object.
#[verifier::external_body]
pub(crate) fn as_integer(object: &lopdf::Object) -> (r: Result<i64, String>)
    ensures
        match object_model(*object) {
            ObjectModel::Integer(value) => r == Ok::<i64, String>(value),
            other => r matches Err(e) && e@ == wrong_type("Integer"@, other),
        },
{
    object.as_i64().map_err(|e| e.to_string())
}

/// `lopdf::Object::as_f32` hands out a real number, here by its bits, and complains about any
/// other object.
#[verifier::external_body]
pub(crate) fn as_real(object: &lopdf::Object) -> (r: Result<u32, String>)
    ensures
        match object_model(*object) {
            ObjectModel::Real(bits) => r == Ok::<u32, String>(bits),
            other => r matches Err(e) && e@ == wrong_type("Real"@, other),
        },
{
    object.as_f32().map(|value| value.to_bits()).map_err(|e| e.to_string())
}

/// `lopdf::Object::as_reference` hands out the number that an object refers to, and complains
/// about any other object.
#[verifier::external_body]
pub(crate) fn as_reference(object: &lopdf::Object) -> (r: Result<(u32, u16), String>)
    ensures
        match object_model(*object) {
            ObjectModel::Reference(id) => r == Ok::<(u32, u16), String>(id),
            other => r matches Err(e) && e@ == wrong_type("Reference"@, other),
        },
{
    object.as_reference().map_err(|e| e.to_string())
}

/// `lopdf::Object::as_array` hands out the items of an array, and complains about any other
/// object.
#[verifier::external_body]
pub(crate) fn as_array<'a>(object: &'a lopdf::Object) -> (r: Result<
    &'a Vec<lopdf::Object>,
    String,
>)
    ensures
        match object_model(*object) {
            ObjectModel::Array(items) => r matches Ok(array) && object_models(array@) == items,
            other => r matches Err(e) && e@ == wrong_type("Array"@, other),
        },
{
    object.as_array().map_err(|e| e.to_string())
}

/// `lopdf::Object::as_stream` hands out the stream that an object is, and complains about any
/// other object.
#[verifier::external_body]
pub(crate) fn as_stream<'a>(object: &'a lopdf::Object) -> (r: Result<&'a lopdf::Stream, String>)
    ensures
        match object_model(*object) {
            ObjectModel::Stream(dict, content) => r matches Ok(stream) && stream_parts(*stream)
                == (dict, content),
            other => r matches Err(e) && e@ == wrong_type("Stream"@, other),
        },
{
    object.as_stream().map_err(|e| e.to_string())
}

/// `lopdf::Stream::dict` is the dictionary of a stream.
#[verifier::external_body]
pub(crate) fn stream_dictionary<'a>(stream: &'a lopdf::Stream) -> (r: &'a lopdf::Dictionary)
    ensures
        entries(*r) == stream_parts(*stream).0,
{
    &stream.dict
}

/// `lopdf::Stream::content` are the bytes of a stream as they are stored.
#[verifier::external_body]
fn stored_bytes<'a>(stream: &'a lopdf::Stream) -> (r: &'a Vec<u8>)
    ensures
        r@ == stream_parts(*stream).1,
{
    &stream.content
}

// ---------------------------------------------------------------------------------------
// Undoing filters
// ---------------------------------------------------------------------------------------

/// The names that some objects are, where all of them are names.
pub open spec fn names_of(items: Seq<ObjectModel>) -> Option<Seq<Seq<u8>>> {
    if forall|i: int| 0 <= i < items.len() ==> (#[trigger] items[i]) is Name {
        Some(items.map_values(|o: ObjectModel| o->Name_0))
    } else {
        None
    }
}

/// The filters that the dictionary of a stream lists, in the order in which they are undone.
pub open spec fn filter_names(dict: Seq<(Seq<u8>, ObjectModel)>) -> Option<Seq<Seq<u8>>> {
    match lookup(dict, vstd::utf8::encode_utf8("Filter"@)) {
        Some(ObjectModel::Name(name)) => Some(seq![name]),
        Some(ObjectModel::Array(items)) => names_of(items),
        _ => None,
    }
}

/// A byte that stands for nothing between the digits of ASCII85.
pub open spec fn is_filler(byte: u8) -> bool {
    byte == 0x20 || byte == 0x09 || byte == 0x0a || byte == 0x0c || byte == 0x0d
}

/// A group of ASCII85 that ends early fits into four bytes once it is filled up with the highest
/// digit, or is refused on the way.
pub open spec fn short_group_fits(buffer: nat, missing: nat) -> bool
    decreases missing,
{
    if missing == 0 || buffer * 85 > u32::MAX {
        true
    } else {
        buffer * 85 + 84 <= u32::MAX && short_group_fits(buffer * 85 + 84, (missing - 1) as nat)
    }
}

/// From a byte on, every group of ASCII85 fits into four bytes, or is refused on the way: a
/// group is refused where it is too large without its last digit. The group that is under way
/// has `count` digits, which come to `buffer`.
pub open spec fn groups_fit(bytes: Seq<u8>, at: int, buffer: nat, count: nat) -> bool
    decreases bytes.len() - at,
{
    let ends = count == 0 || short_group_fits(buffer, (5 - count) as nat);
    if at < 0 || at >= bytes.len() {
        ends
    } else if bytes[at] == 0x7a {
        count != 0 || groups_fit(bytes, at + 1, buffer, count)
    } else if is_filler(bytes[at]) {
        groups_fit(bytes, at + 1, buffer, count)
    } else if bytes[at] < 0x21 || bytes[at] > 0x75 {
        ends
    } else if buffer * 85 > u32::MAX {
        true
    } else {
        let next = (buffer * 85 + (bytes[at] - 0x21)) as nat;
        next <= u32::MAX && if count == 4 {
            groups_fit(bytes, at + 1, 0, 0)
        } else {
            groups_fit(bytes, at + 1, next, count + 1)
        }
    }
}

/// The integer under a key, or `default` where there is none, but at least `least`.
pub open spec fn integer_under(
    dict: Seq<(Seq<u8>, ObjectModel)>,
    key: Seq<char>,
    default: i64,
    least: i64,
) -> i64 {
    let value = match lookup(dict, vstd::utf8::encode_utf8(key)) {
        Some(ObjectModel::Integer(value)) => value,
        _ => default,
    };
    if value < least {
        least
    } else {
        value
    }
}

/// The size of a row of samples that is predicted from the one before is one of the machine's
/// integers.
pub open spec fn rows_fit(dict: Seq<(Seq<u8>, ObjectModel)>) -> bool {
    match lookup(dict, vstd::utf8::encode_utf8("DecodeParms"@)) {
        Some(ObjectModel::Dictionary(parms)) => {
            let bits = integer_under(parms, "Colors"@, 1, 1) * integer_under(
                parms,
                "BitsPerComponent"@,
                8,
                8,
            );
            10 <= integer_under(parms, "Predictor"@, 1, i64::MIN) <= 15 ==> bits <= usize::MAX && (
            bits / 8) * integer_under(parms, "Columns"@, 1, 1) <= usize::MAX
        },
        _ => true,
    }
}

/// Undoing a filter meets no number beyond the machine's integers.
pub open spec fn filter_fits(
    dict: Seq<(Seq<u8>, ObjectModel)>,
    name: Seq<u8>,
    content: Seq<u8>,
) -> bool {
    &&& name == vstd::utf8::encode_utf8("ASCII85Decode"@) ==> groups_fit(content, 0, 0, 0)
    &&& name == vstd::utf8::encode_utf8("FlateDecode"@) || name == vstd::utf8::encode_utf8(
        "LZWDecode"@,
    ) ==> rows_fit(dict)
}

/// The dictionary lists one filter, and undoing it meets no number beyond the machine's integers.
pub open spec fn is_decodable(dict: Seq<(Seq<u8>, ObjectModel)>, content: Seq<u8>) -> bool {
    filter_names(dict) matches Some(names) && names.len() == 1 && filter_fits(
        dict,
        names[0],
        content,
    )
}

/// What the filter of a stream makes of its bytes, or why it fails.
pub uninterp spec fn plain_content_of(
    dict: Seq<(Seq<u8>, ObjectModel)>,
    content: Seq<u8>,
) -> Result<Seq<u8>, Seq<char>>;

/// `lopdf::Stream::get_plain_content` undoes the filter that the stream's dictionary lists. The
/// result depends on the dictionary and the stored bytes alone. It adds and multiplies without
/// looking whether an ASCII85 group, or the size of a row of samples, is beyond the machine's
/// integers, so such streams are left out.
#[verifier::external_body]
fn plain_content(stream: &lopdf::Stream) -> (r: Result<Vec<u8>, String>)
    requires
        is_decodable(stream_parts(*stream).0, stream_parts(*stream).1),
    ensures
        match plain_content_of(stream_parts(*stream).0, stream_parts(*stream).1) {
            Ok(bytes) => r matches Ok(v) && v@ == bytes,
            Err(text) => r matches Err(e) && e@ == text,
        },
{
    stream.get_plain_content().map_err(|e| e.to_string())
}

fn check_short_group(buffer: u32, missing: usize) -> (r: bool)
    ensures
        r == short_group_fits(buffer as nat, missing as nat),
    decreases missing,
{
    let product: u64 = buffer as u64 * 85;
    if missing == 0 || product > u32::MAX as u64 {
        true
    } else if product + 84 > u32::MAX as u64 {
        false
    } else {
        check_short_group((product + 84) as u32, missing - 1)
    }
}

fn check_groups(bytes: &Vec<u8>) -> (r: bool)
    ensures
        r == groups_fit(bytes@, 0, 0, 0),
{
    let mut buffer: u32 = 0;
    let mut count: usize = 0;
    let mut i: usize = 0;
    while i < bytes.len()
        invariant
            i <= bytes@.len(),
            count <= 4,
            groups_fit(bytes@, 0, 0, 0) == groups_fit(
                bytes@,
                i as int,
                buffer as nat,
                count as nat,
            ),
        decreases bytes@.len() - i,
    {
        let byte: u8 = bytes[i];
        if byte == 0x7a {
            if count != 0 {
                return true;
            }
        } else if byte == 0x20 || byte == 0x09 || byte == 0x0a || byte == 0x0c || byte == 0x0d {
        } else if byte < 0x21 || byte > 0x75 {
            return count == 0 || check_short_group(buffer, 5 - count);
        } else {
            let product: u64 = buffer as u64 * 85;
            if product > u32::MAX as u64 {
                return true;
            }
            let next: u64 = product + (byte - 0x21) as u64;
            if next > u32::MAX as u64 {
                return false;
            }
            if count == 4 {
                buffer = 0;
                count = 0;
            } else {
                buffer = next as u32;
                count = count + 1;
            }
        }
        i = i + 1;
    }
    count == 0 || check_short_group(buffer, 5 - count)
}

fn read_integer(dict: &lopdf::Dictionary, key: &str, default: i64, least: i64) -> (r: i64)
    ensures
        r == integer_under(entries(*dict), key@, default, least),
{
    let value: i64 = match get_entry(dict, key.as_bytes()) {
        Ok(object) => match as_integer(object) {
            Ok(value) => value,
            Err(_) => default,
        },
        Err(_) => default,
    };
    if value < least {
        least
    } else {
        value
    }
}

fn check_rows(dict: &lopdf::Dictionary) -> (r: bool)
    ensures
        r == rows_fit(entries(*dict)),
{
    let parms = match get_entry(dict, "DecodeParms".as_bytes()) {
        Ok(object) => match as_dictionary(object) {
            Ok(parms) => parms,
            Err(_) => {
                return true;
            },
        },
        Err(_) => {
            return true;
        },
    };
    let predictor: i64 = read_integer(parms, "Predictor", 1, i64::MIN);
    if predictor < 10 || predictor > 15 {
        return true;
    }
    let colors: i64 = read_integer(parms, "Colors", 1, 1);
    let depth: i64 = read_integer(parms, "BitsPerComponent", 8, 8);
    let columns: i64 = read_integer(parms, "Columns", 1, 1);
    assert(8 <= colors * depth <= i64::MAX * i64::MAX) by (nonlinear_arith)
        requires
            1 <= colors <= i64::MAX,
            8 <= depth <= i64::MAX,
    ;
    let bits: u128 = colors as u128 * depth as u128;
    if bits > usize::MAX as u128 {
        return false;
    }
    assert(0 <= (bits / 8) * columns <= u64::MAX * i64::MAX) by (nonlinear_arith)
        requires
            0 <= bits <= u64::MAX,
            1 <= columns <= i64::MAX,
    ;
    (bits / 8) * columns as u128 <= usize::MAX as u128
}

fn check_filter(dict: &lopdf::Dictionary, name: &[u8], content: &Vec<u8>) -> (r: bool)
    ensures
        r == filter_fits(entries(*dict), name@, content@),
{
    if same_bytes(name, "ASCII85Decode".as_bytes()) && !check_groups(content) {
        return false;
    }
    let predicts = same_bytes(name, "FlateDecode".as_bytes()) || same_bytes(
        name,
        "LZWDecode".as_bytes(),
    );
    !predicts || check_rows(dict)
}

/// A dictionary that lists one filter alone, for a stream of some length.
pub open spec fn with_one_filter(
    dict: Seq<(Seq<u8>, ObjectModel)>,
    name: Seq<u8>,
    length: nat,
) -> Seq<(Seq<u8>, ObjectModel)> {
    with_entry(
        with_entry(dict, vstd::utf8::encode_utf8("Filter"@), ObjectModel::Name(name)),
        vstd::utf8::encode_utf8("Length"@),
        ObjectModel::Integer(length as i64),
    )
}

/// `lopdf::Stream::new` makes a stream of a dictionary and some bytes, and enters their number.
/// The dictionary is a copy of the one given, in which `lopdf::Dictionary::set` replaced the
/// filters by a single one.
#[verifier::external_body]
fn one_filter_stream(dict: &lopdf::Dictionary, name: &[u8], content: Vec<u8>) -> (r: lopdf::Stream)
    ensures
        stream_parts(r) == (with_one_filter(entries(*dict), name@, content@.len()), content@),
{
    let mut dict = dict.clone();
    dict.set("Filter", lopdf::Object::Name(name.to_vec()));
    lopdf::Stream::new(dict, content)
}

proof fn lemma_keys_differ()
    ensures
        vstd::utf8::encode_utf8("Filter"@) != vstd::utf8::encode_utf8("Length"@),
        vstd::utf8::encode_utf8("Filter"@) != vstd::utf8::encode_utf8("DecodeParms"@),
        vstd::utf8::encode_utf8("Length"@) != vstd::utf8::encode_utf8("DecodeParms"@),
{
    reveal_strlit("Filter");
    reveal_strlit("Length");
    reveal_strlit("DecodeParms");
    assert("Filter"@[0] == 'F' && "Length"@[0] == 'L' && "DecodeParms"@[0] == 'D');
    vstd::utf8::encode_utf8_decode_utf8("Filter"@);
    vstd::utf8::encode_utf8_decode_utf8("Length"@);
    vstd::utf8::encode_utf8_decode_utf8("DecodeParms"@);
}

proof fn lemma_one_filter(dict: Seq<(Seq<u8>, ObjectModel)>, name: Seq<u8>, content: Seq<u8>)
    ensures
        is_decodable(with_one_filter(dict, name, content.len()), content) == filter_fits(
            dict,
            name,
            content,
        ),
{
    let (filter, length, parms) = (
        vstd::utf8::encode_utf8("Filter"@),
        vstd::utf8::encode_utf8("Length"@),
        vstd::utf8::encode_utf8("DecodeParms"@),
    );
    let size = ObjectModel::Integer(content.len() as i64);
    let listed = with_entry(dict, filter, ObjectModel::Name(name));
    lemma_keys_differ();
    an_entry_is_found_again(dict, filter, ObjectModel::Name(name));
    other_entries_stay(dict, filter, ObjectModel::Name(name), parms);
    other_entries_stay(listed, length, size, filter);
    other_entries_stay(listed, length, size, parms);
    assert(filter_names(with_one_filter(dict, name, content.len())) == Some(seq![name]));
}

/// The complaint about a stream whose numbers are beyond the machine's integers.
pub open spec fn undecodable() -> Seq<char> {
    "dados codificados fora dos limites"@
}

/// The bytes with one filter undone, or why there are none. A filter that would meet numbers beyond
/// the machine's integers counts as failed.
pub open spec fn undone(
    dict: Seq<(Seq<u8>, ObjectModel)>,
    name: Seq<u8>,
    content: Seq<u8>,
) -> Result<Seq<u8>, Seq<char>> {
    if filter_fits(dict, name, content) {
        plain_content_of(with_one_filter(dict, name, content.len()), content)
    } else {
        Err(undecodable())
    }
}

/// The bytes with some filters undone, from the first to the last, or why there are none.
pub open spec fn all_undone(
    dict: Seq<(Seq<u8>, ObjectModel)>,
    names: Seq<Seq<u8>>,
    content: Seq<u8>,
) -> Result<Seq<u8>, Seq<char>>
    decreases names.len(),
{
    if names.len() == 0 {
        Ok(content)
    } else {
        match all_undone(dict, names.drop_last(), content) {
            Ok(bytes) => undone(dict, names.last(), bytes),
            Err(e) => Err(e),
        }
    }
}

/// The bytes of a stream with its filters undone, or why there are none. Without a list of
/// filters they are the bytes that are stored.
pub open spec fn decoded_content(dict: Seq<(Seq<u8>, ObjectModel)>, content: Seq<u8>) -> Result<
    Seq<u8>,
    Seq<char>,
> {
    match filter_names(dict) {
        Some(names) => all_undone(dict, names, content),
        None => Ok(content),
    }
}

/// A stream that lists no filter has its bytes as they are stored. One filter is undone by itself,
/// and of a list the filters are undone one after the other, each on what the one before it gave.
pub proof fn filters_are_undone_in_their_order(
    dict: Seq<(Seq<u8>, ObjectModel)>,
    name: Seq<u8>,
    names: Seq<Seq<u8>>,
    more: Seq<Seq<u8>>,
    content: Seq<u8>,
)
    ensures
        lookup(dict, vstd::utf8::encode_utf8("Filter"@)) is None ==> decoded_content(dict, content)
            == Ok::<Seq<u8>, Seq<char>>(content),
        lookup(dict, vstd::utf8::encode_utf8("Filter"@)) == Some(ObjectModel::Name(name))
            ==> decoded_content(dict, content) == undone(dict, name, content),
        all_undone(dict, Seq::empty(), content) == Ok::<Seq<u8>, Seq<char>>(content),
        all_undone(dict, seq![name], content) == undone(dict, name, content),
        all_undone(dict, names + more, content) == (match all_undone(dict, names, content) {
            Ok(bytes) => all_undone(dict, more, bytes),
            Err(e) => Err(e),
        }),
    decreases more.len(),
{
    let one = seq![name];
    assert(one.drop_last() == Seq::<Seq<u8>>::empty());
    assert(all_undone(dict, one.drop_last(), content) == Ok::<Seq<u8>, Seq<char>>(content));
    if more.len() == 0 {
        assert(names + more == names);
    } else {
        let less = more.drop_last();
        filters_are_undone_in_their_order(dict, name, names, less, content);
        assert((names + more).drop_last() == names + less);
        assert((names + more).last() == more.last());
    }
}

/// A list of names under `Filter` lists those filters, in that order.
pub proof fn a_list_of_names_lists_its_filters(
    dict: Seq<(Seq<u8>, ObjectModel)>,
    names: Seq<Seq<u8>>,
    content: Seq<u8>,
)
    requires
        lookup(dict, vstd::utf8::encode_utf8("Filter"@)) == Some(
            ObjectModel::Array(names.map_values(|name: Seq<u8>| ObjectModel::Name(name))),
        ),
    ensures
        filter_names(dict) == Some(names),
        decoded_content(dict, content) == all_undone(dict, names, content),
{
    let items = names.map_values(|name: Seq<u8>| ObjectModel::Name(name));
    assert(names_of(items) == Some(names)) by {
        assert(items.map_values(|o: ObjectModel| o->Name_0) == names);
    }
}

/// A filter is refused only where it would meet numbers beyond the machine's integers. Filters
/// other than ASCII85, Flate and LZW never are, and neither are Flate and LZW where no row is
/// predicted from the one before.
pub proof fn ordinary_filters_are_not_refused(
    dict: Seq<(Seq<u8>, ObjectModel)>,
    name: Seq<u8>,
    content: Seq<u8>,
    parms: Seq<(Seq<u8>, ObjectModel)>,
)
    requires
        name != vstd::utf8::encode_utf8("ASCII85Decode"@),
        ({
            ||| name != vstd::utf8::encode_utf8("FlateDecode"@) && name
                != vstd::utf8::encode_utf8("LZWDecode"@)
            ||| lookup(dict, vstd::utf8::encode_utf8("DecodeParms"@)) is None
            ||| lookup(dict, vstd::utf8::encode_utf8("DecodeParms"@)) == Some(
                ObjectModel::Dictionary(parms),
            ) && lookup(parms, vstd::utf8::encode_utf8("Predictor"@)) is None
        }),
    ensures
        undone(dict, name, content) == plain_content_of(
            with_one_filter(dict, name, content.len()),
            content,
        ),
{
}

/// Rows of samples that are predicted from the one before are no reason to refuse a filter where
/// a row is not larger than any picture: up to four colours of up to sixteen bits in up to a
/// million columns.
pub proof fn ordinary_rows_are_not_refused(
    dict: Seq<(Seq<u8>, ObjectModel)>,
    name: Seq<u8>,
    content: Seq<u8>,
    parms: Seq<(Seq<u8>, ObjectModel)>,
    colors: i64,
    bits: i64,
    columns: i64,
)
    requires
        name == vstd::utf8::encode_utf8("FlateDecode"@) || name == vstd::utf8::encode_utf8(
            "LZWDecode"@,
        ),
        name != vstd::utf8::encode_utf8("ASCII85Decode"@),
        lookup(dict, vstd::utf8::encode_utf8("DecodeParms"@)) == Some(
            ObjectModel::Dictionary(parms),
        ),
        lookup(parms, vstd::utf8::encode_utf8("Colors"@)) == Some(ObjectModel::Integer(colors)),
        lookup(parms, vstd::utf8::encode_utf8("BitsPerComponent"@)) == Some(
            ObjectModel::Integer(bits),
        ),
        lookup(parms, vstd::utf8::encode_utf8("Columns"@)) == Some(ObjectModel::Integer(columns)),
        1 <= colors <= 4,
        1 <= bits <= 16,
        1 <= columns <= 1_000_000,
    ensures
        undone(dict, name, content) == plain_content_of(
            with_one_filter(dict, name, content.len()),
            content,
        ),
{
    let depth = integer_under(parms, "BitsPerComponent"@, 8, 8);
    assert(8 <= depth <= 16);
    assert(0 <= colors * depth <= 64) by (nonlinear_arith)
        requires
            1 <= colors <= 4,
            8 <= depth <= 16,
    ;
    let bytes = (colors * depth) / 8;
    assert(0 <= bytes <= 8);
    assert(0 <= bytes * columns <= 8_000_000) by (nonlinear_arith)
        requires
            0 <= bytes <= 8,
            1 <= columns <= 1_000_000,
    ;
    assert(usize::MAX >= 0xffff_ffff);
}

/// What a group of ASCII85 comes to at most, where no digit in it is above the eighty-first, but
/// those that fill it up.
spec fn most_of_group(count: nat) -> nat {
    if count == 0 {
        0
    } else if count == 1 {
        81
    } else if count == 2 {
        6_969
    } else if count == 3 {
        592_449
    } else if count == 4 {
        50_358_249
    } else {
        4_280_451_249
    }
}

proof fn lemma_low_groups_fit(bytes: Seq<u8>, at: int, buffer: nat, count: nat)
    requires
        forall|i: int|
            0 <= i < bytes.len() ==> is_filler(#[trigger] bytes[i]) || 0x21 <= bytes[i] <= 0x72,
        0 <= at <= bytes.len(),
        count <= 4,
        buffer <= most_of_group(count),
    ensures
        groups_fit(bytes, at, buffer, count),
    decreases bytes.len() - at,
{
    if count > 0 {
        reveal_with_fuel(short_group_fits, 6);
    }
    if at < bytes.len() {
        let byte = bytes[at];
        if is_filler(byte) {
            lemma_low_groups_fit(bytes, at + 1, buffer, count);
        } else {
            let next = (buffer * 85 + (byte - 0x21)) as nat;
            assert(next <= most_of_group(count + 1));
            if count == 4 {
                lemma_low_groups_fit(bytes, at + 1, 0, 0);
            } else {
                lemma_low_groups_fit(bytes, at + 1, next, count + 1);
            }
        }
    }
}

/// ASCII85 without its three highest digits is never refused, wherever its white space stands and
/// whatever its length: none of its groups is beyond the machine's integers.
pub proof fn low_digits_are_not_refused(
    dict: Seq<(Seq<u8>, ObjectModel)>,
    content: Seq<u8>,
)
    requires
        forall|i: int|
            0 <= i < content.len() ==> (#[trigger] content[i]) == 0x20 || content[i] == 0x0a
                || content[i] == 0x0d || 0x21 <= content[i] <= 0x72,
    ensures
        ({
            let name = vstd::utf8::encode_utf8("ASCII85Decode"@);
            undone(dict, name, content) == plain_content_of(
                with_one_filter(dict, name, content.len()),
                content,
            )
        }),
{
    reveal_strlit("ASCII85Decode");
    reveal_strlit("FlateDecode");
    reveal_strlit("LZWDecode");
    vstd::utf8::encode_utf8_decode_utf8("ASCII85Decode"@);
    vstd::utf8::encode_utf8_decode_utf8("FlateDecode"@);
    vstd::utf8::encode_utf8_decode_utf8("LZWDecode"@);
    assert("ASCII85Decode"@[0] == 'A' && "FlateDecode"@[0] == 'F' && "LZWDecode"@[0] == 'L');
    lemma_low_groups_fit(content, 0, 0, 0);
}

/// The call gave back these bytes, or this complaint.
pub open spec fn are_bytes(r: Result<Vec<u8>, String>, m: Result<Seq<u8>, Seq<char>>) -> bool {
    match (r, m) {
        (Ok(v), Ok(bytes)) => v@ == bytes,
        (Err(e), Err(text)) => e@ == text,
        _ => false,
    }
}

fn undo_filter(dict: &lopdf::Dictionary, name: &[u8], content: Vec<u8>) -> (r: Result<
    Vec<u8>,
    String,
>)
    ensures
        are_bytes(r, undone(entries(*dict), name@, content@)),
{
    if check_filter(dict, name, &content) {
        proof {
            lemma_one_filter(entries(*dict), name@, content@);
        }
        let stream = one_filter_stream(dict, name, content);
        plain_content(&stream)
    } else {
        Err("dados codificados fora dos limites".to_owned())
    }
}

fn are_names(items: &Vec<lopdf::Object>) -> (r: bool)
    ensures
        r == (names_of(object_models(items@)) is Some),
{
    let ghost models = object_models(items@);
    for i in 0..items.len()
        invariant
            models == object_models(items@),
            forall|k: int| 0 <= k < i ==> (#[trigger] models[k]) is Name,
    {
        assert(models[i as int] == object_model(items@[i as int]));
        if as_name(&items[i]).is_err() {
            assert(!(models[i as int] is Name));
            return false;
        }
    }
    true
}

fn undo_filters(dict: &lopdf::Dictionary, items: &Vec<lopdf::Object>, content: Vec<u8>) -> (r:
    Result<Vec<u8>, String>)
    requires
        names_of(object_models(items@)) is Some,
    ensures
        are_bytes(
            r,
            all_undone(entries(*dict), names_of(object_models(items@))->0, content@),
        ),
{
    let ghost models = object_models(items@);
    let ghost names = names_of(models)->0;
    let ghost stored = content@;
    let mut bytes = content;
    assert(names.take(0) == Seq::<Seq<u8>>::empty());
    for i in 0..items.len()
        invariant
            models == object_models(items@),
            forall|k: int| 0 <= k < models.len() ==> (#[trigger] models[k]) is Name,
            names == models.map_values(|o: ObjectModel| o->Name_0),
            names_of(models) == Some(names),
            stored == content@,
            all_undone(entries(*dict), names.take(i as int), stored) == Ok::<Seq<u8>, Seq<char>>(
                bytes@,
            ),
    {
        assert(models[i as int] == object_model(items@[i as int]));
        assert(models[i as int] is Name);
        let ghost done = names.take(i + 1);
        assert(done.drop_last() == names.take(i as int));
        assert(done.last() == names[i as int]);
        let name = match as_name(&items[i]) {
            Ok(name) => name,
            Err(e) => {
                return Err(e);
            },
        };
        match undo_filter(dict, name, bytes) {
            Ok(next) => {
                bytes = next;
            },
            Err(e) => {
                proof {
                    lemma_failure_stays(entries(*dict), names, stored, i + 1);
                }
                return Err(e);
            },
        }
    }
    assert(names.take(names.len() as int) == names);
    Ok(bytes)
}

/// Once a filter has failed, the filters behind it change nothing.
proof fn lemma_failure_stays(
    dict: Seq<(Seq<u8>, ObjectModel)>,
    names: Seq<Seq<u8>>,
    content: Seq<u8>,
    n: int,
)
    requires
        0 <= n <= names.len(),
        all_undone(dict, names.take(n), content) is Err,
    ensures
        all_undone(dict, names, content) == all_undone(dict, names.take(n), content),
    decreases names.len(),
{
    if n < names.len() {
        assert(names.drop_last().take(n) == names.take(n));
        lemma_failure_stays(dict, names.drop_last(), content, n);
    } else {
        assert(names.take(n) == names);
    }
}

/// Undoes the filters of a stream, one after the other: see `decoded_content`.
pub(crate) fn decode_stream(stream: &lopdf::Stream) -> (r: Result<Vec<u8>, String>)
    ensures
        are_bytes(r, decoded_content(stream_parts(*stream).0, stream_parts(*stream).1)),
{
    let dict = stream_dictionary(stream);
    let content = vstd::slice::slice_to_vec(stored_bytes(stream).as_slice());
    let filter = match get_entry(dict, "Filter".as_bytes()) {
        Ok(filter) => filter,
        Err(_) => {
            return Ok(content);
        },
    };
    if let Ok(name) = as_name(filter) {
        proof {
            let names = seq![name@];
            assert(names.drop_last() == Seq::<Seq<u8>>::empty());
            assert(all_undone(entries(*dict), names.drop_last(), content@) == Ok::<
                Seq<u8>,
                Seq<char>,
            >(content@));
        }
        return undo_filter(dict, name, content);
    }
    match as_array(filter) {
        Ok(items) => if are_names(items) {
            undo_filters(dict, items, content)
        } else {
            Ok(content)
        },
        Err(_) => Ok(content),
    }
}

/// `lopdf::Document::dereference` follows references, up to a limit, and complains about one
/// that leads nowhere.
#[verifier::external_body]
pub(crate) fn resolve<'a>(doc: &'a lopdf::Document, object: &'a lopdf::Object) -> (r: Result<
    &'a lopdf::Object,
    String,
>)
    ensures
        is_object(r, resolved(document_objects(*doc), object_model(*object))),
{
    doc.dereference(object).map(|(_, found)| found).map_err(|e| e.to_string())
}

/// `lopdf::Document::get_object` finds the object of that number and follows references.
#[verifier::external_body]
pub(crate) fn get_object<'a>(doc: &'a lopdf::Document, id: (u32, u16)) -> (r: Result<
    &'a lopdf::Object,
    String,
>)
    ensures
        is_object(r, object_at(document_objects(*doc), id)),
{
    doc.get_object(id).map_err(|e| e.to_string())
}

/// `lopdf::Document::get_dictionary` finds the dictionary of that number and follows references.
#[verifier::external_body]
pub(crate) fn get_dictionary<'a>(doc: &'a lopdf::Document, id: (u32, u16)) -> (r: Result<
    &'a lopdf::Dictionary,
    String,
>)
    ensures
        is_dictionary(r, dictionary_of(object_at(document_objects(*doc), id))),
{
    doc.get_dictionary(id).map_err(|e| e.to_string())
}

/// `lopdf::Document::get_dict_in_dict` finds the dictionary under a key and follows references.
#[verifier::external_body]
pub(crate) fn get_dictionary_under<'a>(
    doc: &'a lopdf::Document,
    dict: &'a lopdf::Dictionary,
    key: &[u8],
) -> (r: Result<&'a lopdf::Dictionary, String>)
    ensures
        is_dictionary(r, dictionary_under(document_objects(*doc), entries(*dict), key@)),
{
    doc.get_dict_in_dict(dict, key).map_err(|e| e.to_string())
}

/// The numbers that some objects refer to. Those that refer to nothing are passed over.
pub open spec fn references_of(items: Seq<ObjectModel>) -> Seq<(u32, u16)>
    decreases items.len(),
{
    if items.len() == 0 {
        Seq::empty()
    } else {
        let before = references_of(items.drop_last());
        match items.last() {
            ObjectModel::Reference(id) => before.push(id),
            _ => before,
        }
    }
}

/// The numbers of the streams that an entry for the content of a page leads to. No more than
/// `left` references are followed to a list of streams.
pub open spec fn content_streams(
    objects: Map<(u32, u16), ObjectModel>,
    entry: ObjectModel,
    left: nat,
) -> Seq<(u32, u16)>
    decreases left,
{
    match entry {
        ObjectModel::Reference(id) => if !objects.contains_key(id) || objects[id] is Stream {
            seq![id]
        } else if left == 0 {
            Seq::empty()
        } else {
            content_streams(objects, objects[id], (left - 1) as nat)
        },
        ObjectModel::Array(items) => references_of(items),
        _ => Seq::empty(),
    }
}

/// The numbers of the streams that hold the content of a page.
pub open spec fn page_streams(objects: Map<(u32, u16), ObjectModel>, page_id: (u32, u16)) -> Seq<
    (u32, u16),
> {
    match dictionary_of(object_at(objects, page_id)) {
        Ok(page) => match lookup(page, vstd::utf8::encode_utf8("Contents"@)) {
            Some(entry) => content_streams(objects, entry, (REFERENCE_LIMIT - 1) as nat),
            None => Seq::empty(),
        },
        Err(_) => Seq::empty(),
    }
}

/// `lopdf::Document::get_page_contents` gives the numbers of the streams that hold the content of
/// a page.
#[verifier::external_body]
fn content_ids(doc: &lopdf::Document, page_id: (u32, u16)) -> (r: Vec<(u32, u16)>)
    ensures
        r@ == page_streams(document_objects(*doc), page_id),
{
    doc.get_page_contents(page_id)
}

/// What a stream adds to the content of a page: its bytes with the filters undone, or as they
/// are stored where a filter fails, and a line break. An empty list of filters leaves nothing
/// of the bytes.
pub open spec fn stream_share(o: Result<ObjectModel, Seq<char>>) -> Seq<u8> {
    match o {
        Ok(ObjectModel::Stream(dict, content)) => (if filter_names(dict) == Some(
            Seq::<Seq<u8>>::empty(),
        ) {
            Seq::empty()
        } else {
            match decoded_content(dict, content) {
                Ok(bytes) => bytes,
                Err(_) => content,
            }
        }).push(0x0a),
        _ => Seq::empty(),
    }
}

/// What some streams add to the content of a page, one after the other.
pub open spec fn joined_streams(
    objects: Map<(u32, u16), ObjectModel>,
    ids: Seq<(u32, u16)>,
) -> Seq<u8>
    decreases ids.len(),
{
    if ids.len() == 0 {
        Seq::empty()
    } else {
        joined_streams(objects, ids.drop_last()) + stream_share(object_at(objects, ids.last()))
    }
}

/// The bytes of a page's content: its streams, strung together.
pub open spec fn page_content_of(
    objects: Map<(u32, u16), ObjectModel>,
    page_id: (u32, u16),
) -> Seq<u8> {
    joined_streams(objects, page_streams(objects, page_id))
}

/// The content of a page is that of its streams, one after the other, a line break behind each. A
/// stream counts with its filters undone, and as it is stored where one of them fails. Of one with
/// an empty list of filters only the line break is left.
pub proof fn streams_are_strung_together(
    objects: Map<(u32, u16), ObjectModel>,
    ids: Seq<(u32, u16)>,
    id: (u32, u16),
    dict: Seq<(Seq<u8>, ObjectModel)>,
    content: Seq<u8>,
)
    requires
        object_at(objects, id) == Ok::<ObjectModel, Seq<char>>(ObjectModel::Stream(dict, content)),
    ensures
        joined_streams(objects, Seq::empty()).len() == 0,
        lookup(dict, vstd::utf8::encode_utf8("Filter"@)) == Some(ObjectModel::Array(Seq::empty()))
            ==> joined_streams(objects, ids.push(id)) == joined_streams(objects, ids)
            + seq![0x0au8],
        !(filter_names(dict) matches Some(names) && names.len() == 0) ==> joined_streams(
            objects,
            ids.push(id),
        ) == joined_streams(objects, ids) + (
        match decoded_content(dict, content) {
            Ok(bytes) => bytes,
            Err(_) => content,
        }) + seq![0x0au8],
{
    assert(ids.push(id).drop_last() == ids);
    let share = stream_share(object_at(objects, id));
    let bytes = match decoded_content(dict, content) {
        Ok(bytes) => bytes,
        Err(_) => content,
    };
    if lookup(dict, vstd::utf8::encode_utf8("Filter"@)) == Some(
        ObjectModel::Array(Seq::empty()),
    ) {
        assert(filter_names(dict) == Some(Seq::<Seq<u8>>::empty()));
        assert(share == seq![0x0au8]);
    }
    if !(filter_names(dict) matches Some(names) && names.len() == 0) {
        assert(share == bytes + seq![0x0au8]);
        assert(joined_streams(objects, ids) + share == joined_streams(objects, ids) + bytes
            + seq![0x0au8]);
    }
}

fn lists_nothing(dict: &lopdf::Dictionary) -> (r: bool)
    ensures
        r == (filter_names(entries(*dict)) == Some(Seq::<Seq<u8>>::empty())),
{
    match get_entry(dict, "Filter".as_bytes()) {
        Ok(filter) => match as_array(filter) {
            Ok(items) => {
                let ghost models = object_models(items@);
                proof {
                    if let Some(names) = names_of(models) {
                        assert(names.len() == models.len());
                    }
                    if models.len() == 0 {
                        assert(names_of(models) == Some(Seq::<Seq<u8>>::empty()));
                    }
                }
                items.len() == 0
            },
            Err(_) => {
                proof {
                    if let ObjectModel::Name(name) = object_model(*filter) {
                        assert(seq![name].len() == 1);
                    }
                }
                false
            },
        },
        Err(_) => false,
    }
}

fn read_share(doc: &lopdf::Document, id: (u32, u16)) -> (r: Vec<u8>)
    ensures
        r@ == stream_share(object_at(document_objects(*doc), id)),
{
    let object = match get_object(doc, id) {
        Ok(object) => object,
        Err(_) => {
            return Vec::new();
        },
    };
    let stream = match as_stream(object) {
        Ok(stream) => stream,
        Err(_) => {
            return Vec::new();
        },
    };
    let mut bytes = if lists_nothing(stream_dictionary(stream)) {
        Vec::new()
    } else {
        match decode_stream(stream) {
            Ok(bytes) => bytes,
            Err(_) => vstd::slice::slice_to_vec(stored_bytes(stream).as_slice()),
        }
    };
    bytes.push(0x0a);
    bytes
}

/// Reads the content of a page: see `page_content_of`.
pub(crate) fn read_page_content(doc: &lopdf::Document, page_id: (u32, u16)) -> (r: Vec<u8>)
    ensures
        r@ == page_content_of(document_objects(*doc), page_id),
{
    let ids = content_ids(doc, page_id);
    let ghost objects = document_objects(*doc);
    let mut content: Vec<u8> = Vec::new();
    assert(ids@.take(0) == Seq::<(u32, u16)>::empty());
    for i in 0..ids.len()
        invariant
            objects == document_objects(*doc),
            content@ == joined_streams(objects, ids@.take(i as int)),
    {
        assert(ids@.take(i + 1).drop_last() == ids@.take(i as int));
        let mut share = read_share(doc, ids[i]);
        content.append(&mut share);
    }
    assert(ids@.take(ids@.len() as int) == ids@);
    content
}

/// `lopdf::Dictionary::iter` walks the entries of a dictionary in their order; here their values.
#[verifier::external_body]
pub(crate) fn entry_values<'a>(dict: &'a lopdf::Dictionary) -> (r: Vec<&'a lopdf::Object>)
    ensures
        r@.len() == entries(*dict).len(),
        forall|i: int|
            0 <= i < r@.len() ==> object_model(*#[trigger] r@[i]) == entries(*dict)[i].1,
{
    dict.iter().map(|(_, value)| value).collect()
}

/// `lopdf::Document::trailer` is the trailer.
#[verifier::external_body]
pub(crate) fn trailer<'a>(doc: &'a lopdf::Document) -> (r: &'a lopdf::Dictionary)
    ensures
        entries(*r) == document_trailer(*doc),
{
    &doc.trailer
}

/// `lopdf::Document::objects` has as many entries as there are objects.
#[verifier::external_body]
pub(crate) fn object_count(doc: &lopdf::Document) -> (r: usize)
    ensures
        r == document_objects(*doc).len(),
{
    doc.objects.len()
}

// ---------------------------------------------------------------------------------------
// Changing a document
// ---------------------------------------------------------------------------------------

/// The highest number that an object of the document was given.
pub uninterp spec fn document_last_id(doc: lopdf::Document) -> u32;

/// The dictionary with a value under a key. A value that is there already is replaced where it
/// stands.
pub open spec fn with_entry(
    dict: Seq<(Seq<u8>, ObjectModel)>,
    key: Seq<u8>,
    value: ObjectModel,
) -> Seq<(Seq<u8>, ObjectModel)>
    decreases dict.len(),
{
    if dict.len() == 0 {
        seq![(key, value)]
    } else if dict.last().0 == key {
        dict.drop_last().push((key, value))
    } else if lookup(dict, key) is Some {
        with_entry(dict.drop_last(), key, value).push(dict.last())
    } else {
        dict.push((key, value))
    }
}

/// The number of the object that a chain of references ends in.
pub open spec fn resting_id(
    objects: Map<(u32, u16), ObjectModel>,
    id: (u32, u16),
    left: nat,
) -> (u32, u16)
    decreases left,
{
    match objects[id] {
        ObjectModel::Reference(next) => if left == 0 {
            id
        } else {
            resting_id(objects, next, (left - 1) as nat)
        },
        _ => id,
    }
}

/// `lopdf::Document::max_id` is the highest number that was given.
#[verifier::external_body]
pub(crate) fn last_id(doc: &lopdf::Document) -> (r: u32)
    ensures
        r == document_last_id(*doc),
{
    doc.max_id
}

/// The stream that holds some bytes as they are.
pub open spec fn plain_stream(content: Seq<u8>) -> ObjectModel {
    ObjectModel::Stream(
        seq![
            (vstd::utf8::encode_utf8("Length"@), ObjectModel::Integer(content.len() as i64)),
        ],
        content,
    )
}

/// `lopdf::Document::add_object` gives an object the next number. The object is what
/// `lopdf::Stream::new` makes of some bytes and an empty dictionary: a stream of these bytes,
/// with their number in its dictionary.
#[verifier::external_body]
pub(crate) fn add_stream(doc: &mut lopdf::Document, content: Vec<u8>) -> (r: (u32, u16))
    requires
        document_last_id(*old(doc)) < u32::MAX,
    ensures
        r == ((document_last_id(*old(doc)) + 1) as u32, 0u16),
        document_objects(*final(doc)) == document_objects(*old(doc)).insert(
            r,
            plain_stream(content@),
        ),
        document_trailer(*final(doc)) == document_trailer(*old(doc)),
        document_last_id(*final(doc)) == document_last_id(*old(doc)) + 1,
{
    doc.add_object(lopdf::Stream::new(lopdf::Dictionary::new(), content))
}

/// `lopdf::Document::get_dictionary_mut` finds the dictionary of that number, following
/// references, and `lopdf::Dictionary::set` puts a reference there under a key. A failure
/// changes nothing.
#[verifier::external_body]
pub(crate) fn set_reference(
    doc: &mut lopdf::Document,
    id: (u32, u16),
    key: &str,
    target: (u32, u16),
) -> (r: Result<(), String>)
    ensures
        match dictionary_of(object_at(document_objects(*old(doc)), id)) {
            Ok(dict) => r is Ok && document_objects(*final(doc)) == document_objects(
                *old(doc),
            ).insert(
                resting_id(document_objects(*old(doc)), id, REFERENCE_LIMIT as nat),
                ObjectModel::Dictionary(
                    with_entry(
                        dict,
                        vstd::utf8::encode_utf8(key@),
                        ObjectModel::Reference(target),
                    ),
                ),
            ),
            Err(text) => (r matches Err(e) && e@ == text) && document_objects(*final(doc))
                == document_objects(*old(doc)),
        },
        document_trailer(*final(doc)) == document_trailer(*old(doc)),
        document_last_id(*final(doc)) == document_last_id(*old(doc)),
{
    let dict = doc.get_dictionary_mut(id).map_err(|e| e.to_string())?;
    dict.set(key, lopdf::Object::Reference(target));
    Ok(())
}

/// A value that was put under a key is found there.
pub proof fn an_entry_is_found_again(
    dict: Seq<(Seq<u8>, ObjectModel)>,
    key: Seq<u8>,
    value: ObjectModel,
)
    ensures
        lookup(with_entry(dict, key, value), key) == Some(value),
    decreases dict.len(),
{
    if dict.len() > 0 {
        let less = dict.drop_last();
        if dict.last().0 == key {
            assert(with_entry(dict, key, value).last() == (key, value));
        } else if lookup(dict, key) is Some {
            an_entry_is_found_again(less, key, value);
            assert(with_entry(dict, key, value).drop_last() == with_entry(less, key, value));
        } else {
            assert(with_entry(dict, key, value).last() == (key, value));
        }
    } else {
        assert(with_entry(dict, key, value).last() == (key, value));
    }
}

/// The other entries stay as they were.
pub proof fn other_entries_stay(
    dict: Seq<(Seq<u8>, ObjectModel)>,
    key: Seq<u8>,
    value: ObjectModel,
    other: Seq<u8>,
)
    requires
        other != key,
    ensures
        lookup(with_entry(dict, key, value), other) == lookup(dict, other),
    decreases dict.len(),
{
    let all = with_entry(dict, key, value);
    if dict.len() > 0 {
        let less = dict.drop_last();
        if dict.last().0 == key {
            assert(all.drop_last() == less);
        } else if lookup(dict, key) is Some {
            other_entries_stay(less, key, value, other);
            assert(all.drop_last() == with_entry(less, key, value));
        } else {
            assert(all.drop_last() == dict);
        }
    } else {
        assert(all.drop_last() == Seq::<(Seq<u8>, ObjectModel)>::empty());
        assert(lookup(all.drop_last(), other) is None);
    }
}

} // verus!
