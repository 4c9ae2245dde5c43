//! A preview of the book in a single HTML page.
use vstd::prelude::*;

use crate::cover::{Cover, CoverView};
use crate::epub_gen::{escape_html, escaped, fragment_views, ChapterHtml};
use crate::images::{is_named_here, is_path_char, picture_paths_are_simple};
use crate::pdf_model::{image_views, ImageAsset, ImageView};
use crate::text::{
    decimal, push_decimal, replaced, replacing_goes_from_the_left, stands_in,
};

verus! {

// ---------------------------------------------------------------------------------------
// Pictures as text
// ---------------------------------------------------------------------------------------

/// The character that stands for six bits.
pub open spec fn sextet(n: nat) -> char {
    if n < 26 {
        (65 + n) as char
    } else if n < 52 {
        (97 + n - 26) as char
    } else if n < 62 {
        (48 + n - 52) as char
    } else if n == 62 {
        '+'
    } else {
        '/'
    }
}

/// Bytes in base 64: four characters for every three bytes, padded at the end.
pub open spec fn base64_of(bytes: Seq<u8>) -> Seq<char>
    decreases bytes.len(),
{
    if bytes.len() == 0 {
        Seq::empty()
    } else if bytes.len() == 1 {
        let a = bytes[0] as nat;
        seq![sextet(a / 4), sextet(a % 4 * 16), '=', '=']
    } else if bytes.len() == 2 {
        let (a, b) = (bytes[0] as nat, bytes[1] as nat);
        seq![sextet(a / 4), sextet(a % 4 * 16 + b / 16), sextet(b % 16 * 4), '=']
    } else {
        let (a, b, c) = (bytes[0] as nat, bytes[1] as nat, bytes[2] as nat);
        seq![
            sextet(a / 4),
            sextet(a % 4 * 16 + b / 16),
            sextet(b % 16 * 4 + c / 64),
            sextet(c % 64),
        ] + base64_of(bytes.skip(3))
    }
}

/// `base64::Engine::encode` of the standard engine writes bytes in base 64, with padding.
#[verifier::external_body]
fn encode_base64(bytes: &[u8]) -> (r: String)
    ensures
        r@ == base64_of(bytes@),
{
    base64::Engine::encode(&base64::engine::general_purpose::STANDARD, bytes)
}

/// A picture as an address that holds the picture itself.
pub open spec fn data_uri_of(bytes: Seq<u8>, mime: Seq<char>) -> Seq<char> {
    "data:"@ + mime + ";base64,"@ + base64_of(bytes)
}

pub fn data_uri(bytes: &[u8], mime: &str) -> (r: String)
    ensures
        r@ == data_uri_of(bytes@, mime@),
{
    let code = encode_base64(bytes);
    let mut out: String = "data:".to_owned();
    out.append(mime);
    out.append(";base64,");
    out.append(code.as_str());
    out
}

// ---------------------------------------------------------------------------------------
// Replacing
// ---------------------------------------------------------------------------------------

/// The part occurs in the text.
pub open spec fn occurs(s: Seq<char>, part: Seq<char>) -> bool {
    exists|i: int| 0 <= i <= s.len() && part.is_prefix_of(#[trigger] s.skip(i))
}

/// A text in which a part does not occur stays as it is.
pub proof fn replacing_nothing_changes_nothing(s: Seq<char>, part: Seq<char>, with: Seq<char>)
    requires
        !occurs(s, part),
    ensures
        replaced(s, part, with) == s,
    decreases s.len(),
{
    if s.len() > 0 && part.len() > 0 {
        let rest = s.skip(1);
        assert(s.skip(0) == s);
        assert(!occurs(rest, part)) by {
            if occurs(rest, part) {
                let i = choose|i: int|
                    0 <= i <= rest.len() && part.is_prefix_of(#[trigger] rest.skip(i));
                assert(rest.skip(i) == s.skip(i + 1));
            }
        }
        replacing_nothing_changes_nothing(rest, part, with);
        assert(seq![s[0]] + rest == s);
    }
}

fn to_chars(s: &str) -> (r: Vec<char>)
    ensures
        r@ == s@,
{
    let mut out: Vec<char> = Vec::new();
    for c in it: s.chars()
        invariant
            it.seq() == s@,
            out@ == s@.take(it.index() as int),
    {
        out.push(c);
        assert(out@ == s@.take(it.index() + 1));
    }
    assert(s@.take(s@.len() as int) == s@);
    out
}

fn starts_at(s: &Vec<char>, i: usize, part: &Vec<char>) -> (r: bool)
    requires
        i <= s@.len(),
    ensures
        r == part@.is_prefix_of(s@.skip(i as int)),
{
    let ghost rest = s@.skip(i as int);
    if s.len() - i < part.len() {
        return false;
    }
    for k in 0..part.len()
        invariant
            i + part@.len() <= s@.len(),
            s@.len() <= usize::MAX,
            rest == s@.skip(i as int),
            forall|j: int| 0 <= j < k ==> #[trigger] part@[j] == rest[j],
    {
        assert(rest[k as int] == s@[i + k]);
        if s[i + k] != part[k] {
            return false;
        }
    }
    true
}

/// Replaces every occurrence of a part: see `replaced`.
pub fn replace_all(s: &str, part: &str, with: &str) -> (r: String)
    ensures
        r@ == replaced(s@, part@, with@),
{
    let text = to_chars(s);
    let wanted = to_chars(part);
    let n: usize = text.len();
    if wanted.len() == 0 {
        return s.to_owned();
    }
    let mut out = String::new();
    let mut i: usize = 0;
    assert(s@.skip(0) == s@);
    while i < n
        invariant
            n == text@.len(),
            text@ == s@,
            wanted@ == part@,
            part@.len() > 0,
            i <= n,
            out@ + replaced(s@.skip(i as int), part@, with@) == replaced(s@, part@, with@),
        decreases n - i,
    {
        let ghost before = out@;
        let ghost rest = s@.skip(i as int);
        if starts_at(&text, i, &wanted) {
            out.append(with);
            i = i + wanted.len();
            assert(rest.skip(part@.len() as int) == s@.skip(i as int));
            assert(before + (with@ + replaced(s@.skip(i as int), part@, with@)) == out@
                + replaced(s@.skip(i as int), part@, with@));
        } else {
            out.push(text[i]);
            i = i + 1;
            assert(rest.skip(1) == s@.skip(i as int));
            assert(before + (seq![rest[0]] + replaced(s@.skip(i as int), part@, with@)) == out@
                + replaced(s@.skip(i as int), part@, with@));
        }
    }
    assert(s@.skip(i as int) == Seq::<char>::empty());
    out
}

/// The page with the first pictures inlined, one after the other.
pub open spec fn inlined(html: Seq<char>, images: Seq<ImageView>) -> Seq<char>
    decreases images.len(),
{
    if images.len() == 0 {
        html
    } else {
        replaced(
            inlined(html, images.drop_last()),
            "images/"@ + images.last().filename,
            data_uri_of(images.last().bytes, images.last().mime),
        )
    }
}

/// A page that refers to none of the pictures stays as it is.
pub proof fn unreferenced_pictures_change_nothing(html: Seq<char>, images: Seq<ImageView>)
    requires
        forall|i: int|
            0 <= i < images.len() ==> !occurs(html, "images/"@ + (#[trigger] images[i]).filename),
    ensures
        inlined(html, images) == html,
    decreases images.len(),
{
    if images.len() > 0 {
        let less = images.drop_last();
        assert forall|i: int| 0 <= i < less.len() implies !occurs(
            html,
            "images/"@ + (#[trigger] less[i]).filename,
        ) by {
            assert(less[i] == images[i]);
        }
        unreferenced_pictures_change_nothing(html, less);
        assert(images.last() == images[images.len() - 1]);
        replacing_nothing_changes_nothing(
            html,
            "images/"@ + images.last().filename,
            data_uri_of(images.last().bytes, images.last().mime),
        );
    }
}

/// The six bits that a character of base 64 stands for.
pub open spec fn bits_of_sextet(c: char) -> int {
    let n = c as int;
    if 65 <= n <= 90 {
        n - 65
    } else if 97 <= n <= 122 {
        n - 97 + 26
    } else if 48 <= n <= 57 {
        n - 48 + 52
    } else if n == 43 {
        62
    } else {
        63
    }
}

/// The bytes that a text in base 64 spells.
pub open spec fn read_base64(code: Seq<char>) -> Seq<u8>
    decreases code.len(),
{
    if code.len() < 4 {
        Seq::empty()
    } else {
        let (a, b) = (bits_of_sextet(code[0]), bits_of_sextet(code[1]));
        let (c, d) = (bits_of_sextet(code[2]), bits_of_sextet(code[3]));
        let first = (a * 4 + b / 16) as u8;
        if code[2] == '=' {
            seq![first]
        } else {
            let second = (b % 16 * 16 + c / 4) as u8;
            if code[3] == '=' {
                seq![first, second]
            } else {
                seq![first, second, (c % 4 * 64 + d) as u8] + read_base64(code.skip(4))
            }
        }
    }
}

proof fn lemma_sextet(n: nat)
    requires
        n < 64,
    ensures
        bits_of_sextet(sextet(n)) == n,
        sextet(n) != '=',
{
    if n < 26 {
        assert(sextet(n) as int == 65 + n);
    } else if n < 52 {
        assert(sextet(n) as int == 97 + n - 26);
    } else if n < 62 {
        assert(sextet(n) as int == 48 + n - 52);
    }
}

/// A picture is read back from its text as it was.
pub proof fn base64_is_read_back(bytes: Seq<u8>)
    ensures
        read_base64(base64_of(bytes)) == bytes,
    decreases bytes.len(),
{
    let code = base64_of(bytes);
    if bytes.len() > 0 {
        let a = bytes[0] as nat;
        lemma_sextet(a / 4);
        if bytes.len() == 1 {
            lemma_sextet(a % 4 * 16);
            assert(read_base64(code) == bytes);
        } else {
            let b = bytes[1] as nat;
            lemma_sextet(a % 4 * 16 + b / 16);
            if bytes.len() == 2 {
                lemma_sextet(b % 16 * 4);
                assert(read_base64(code) == bytes);
            } else {
                let c = bytes[2] as nat;
                let rest = bytes.skip(3);
                lemma_sextet(b % 16 * 4 + c / 64);
                lemma_sextet(c % 64);
                base64_is_read_back(rest);
                assert(code.skip(4) == base64_of(rest));
                let first = seq![bytes[0], bytes[1], bytes[2]];
                assert(read_base64(code) == first + rest);
                assert(first + rest == bytes);
            }
        }
    }
}

/// Where the path of a picture stands in a page, the picture itself takes its place, with its type
/// and in base 64, and what stands around it stays. The path is taken to stand nowhere else.
pub proof fn a_picture_takes_the_place_of_its_path(
    before: Seq<char>,
    image: ImageView,
    after: Seq<char>,
)
    requires
        ({
            let path = "images/"@ + image.filename;
            &&& forall|k: int|
                0 <= k < before.len() ==> !#[trigger] stands_in(before + path + after, path, k)
            &&& forall|k: int| 0 <= k < after.len() ==> !#[trigger] stands_in(after, path, k)
        }),
    ensures
        inlined(before + "images/"@ + image.filename + after, seq![image]) == before + (
        "data:"@ + image.mime + ";base64,"@ + base64_of(image.bytes)) + after,
{
    reveal_strlit("images/");
    let path = "images/"@ + image.filename;
    let uri = data_uri_of(image.bytes, image.mime);
    let html = before + path + after;
    assert(before + "images/"@ + image.filename + after == html);
    assert(path.len() > 0);
    let at = before.len() as int;
    assert(html.subrange(at, at + path.len()) == path);
    assert(stands_in(html, path, at));
    replacing_goes_from_the_left(html, path, uri, at);
    replacing_goes_from_the_left(after, path, uri, after.len() as int);
    assert(html.skip(at + path.len()) == after);
    assert(html.take(at) == before);
    let one = seq![image];
    assert(one.drop_last() == Seq::<ImageView>::empty());
    assert(one.last() == image);
    assert(inlined(html, one.drop_last()) == html);
}

/// Where a path is replaced, what follows it spells another path together with the end of what
/// took its place.
pub open spec fn runs_on(s: Seq<char>, path: Seq<char>, with: Seq<char>, other: Seq<char>) -> bool {
    exists|k: int|
        0 < k < other.len() && k <= with.len() && with.skip(with.len() - k) == other.take(k)
            && occurs(s, path + #[trigger] other.skip(k))
}

proof fn lemma_occurs_later(s: Seq<char>, part: Seq<char>, n: int)
    requires
        0 <= n <= s.len(),
        occurs(s.skip(n), part),
    ensures
        occurs(s, part),
{
    let rest = s.skip(n);
    let i = choose|i: int| 0 <= i <= rest.len() && part.is_prefix_of(#[trigger] rest.skip(i));
    assert(rest.skip(i) == s.skip(n + i));
}

/// What begins a text after replacing stood there before, unless it has the first character of
/// what was put in.
proof fn lemma_beginning_is_old(s: Seq<char>, path: Seq<char>, with: Seq<char>, start: Seq<char>)
    requires
        with.len() > 0,
        !start.contains(with[0]),
        start.is_prefix_of(replaced(s, path, with)),
    ensures
        start.is_prefix_of(s),
    decreases s.len(),
{
    let r = replaced(s, path, with);
    if start.len() > 0 && s.len() > 0 && path.len() > 0 {
        assert(start.contains(start[0]));
        assert(r.take(start.len() as int) == start);
        assert(start[0] == r[0]);
        if path.is_prefix_of(s) {
            assert(r[0] == with[0]);
        } else {
            let less = start.skip(1);
            let rest = replaced(s.skip(1), path, with);
            assert(r == seq![s[0]] + rest);
            assert(less.is_prefix_of(rest)) by {
                assert forall|i: int| 0 <= i < less.len() implies less[i] == rest[i] by {
                    assert(less[i] == start[i + 1] && r[i + 1] == rest[i]);
                    assert(r.take(start.len() as int)[i + 1] == r[i + 1]);
                }
            }
            assert(!less.contains(with[0])) by {
                if less.contains(with[0]) {
                    let i = choose|i: int| 0 <= i < less.len() && less[i] == with[0];
                    assert(start[i + 1] == with[0]);
                }
            }
            lemma_beginning_is_old(s.skip(1), path, with, less);
            assert forall|i: int| 0 <= i < start.len() implies start[i] == s[i] by {
                if i > 0 {
                    assert(start[i] == less[i - 1] && s.skip(1)[i - 1] == s[i]);
                }
            }
            assert(start == s.take(start.len() as int));
        }
    }
}

/// Replacing a path leaves another path that did not occur out of the text, and the path itself.
#[verifier::spinoff_prover]
#[verifier::rlimit(60)]
proof fn lemma_replaced_for_good(
    s: Seq<char>,
    path: Seq<char>,
    with: Seq<char>,
    other: Seq<char>,
)
    requires
        path.len() > 0,
        other.len() > 0,
        with.len() > 0,
        !other.contains(with[0]),
        !occurs(with, other),
        other == path || !occurs(s, other),
        !runs_on(s, path, with, other),
    ensures
        !occurs(replaced(s, path, with), other),
    decreases s.len(),
{
    let r = replaced(s, path, with);
    if occurs(r, other) {
        let t = choose|t: int| 0 <= t <= r.len() && other.is_prefix_of(#[trigger] r.skip(t));
        assert(other == r.skip(t).take(other.len() as int));
        assert(other.contains(other[0]));
        if s.len() == 0 {
            assert(r.skip(t).len() == 0);
        } else {
            let n = if path.is_prefix_of(s) {
                path.len() as int
            } else {
                1int
            };
            let head = if path.is_prefix_of(s) {
                with
            } else {
                seq![s[0]]
            };
            let rest = s.skip(n);
            let tail = replaced(rest, path, with);
            assert(r == head + tail);
            if t >= head.len() {
                assert(r.skip(t) == tail.skip(t - head.len()));
                assert(occurs(tail, other));
                if other != path && occurs(rest, other) {
                    lemma_occurs_later(s, other, n);
                }
                if runs_on(rest, path, with, other) {
                    let k = choose|k: int|
                        0 < k < other.len() && k <= with.len() && with.skip(with.len() - k)
                            == other.take(k) && occurs(rest, path + #[trigger] other.skip(k));
                    lemma_occurs_later(s, path + other.skip(k), n);
                    assert(runs_on(s, path, with, other));
                }
                lemma_replaced_for_good(rest, path, with, other);
            } else if path.is_prefix_of(s) {
                assert(r.skip(t)[0] == r[t] && r[t] == with[t]);
                assert(t > 0);
                let k = with.len() - t;
                if other.len() <= k {
                    assert(with.skip(t).take(other.len() as int) == other);
                    assert(other.is_prefix_of(with.skip(t)));
                    assert(occurs(with, other));
                } else {
                    assert(r.skip(t) == with.skip(t) + tail);
                    assert(with.skip(t) == other.take(k));
                    let end = other.skip(k);
                    assert(end.is_prefix_of(tail)) by {
                        assert forall|i: int| 0 <= i < end.len() implies end[i] == tail[i] by {
                            assert(end[i] == other[k + i]);
                            assert(r.skip(t).take(other.len() as int)[k + i] == r.skip(t)[k + i]);
                        }
                        assert(end == tail.take(end.len() as int));
                    }
                    assert(!end.contains(with[0])) by {
                        if end.contains(with[0]) {
                            let i = choose|i: int| 0 <= i < end.len() && end[i] == with[0];
                            assert(other[k + i] == with[0]);
                        }
                    }
                    lemma_beginning_is_old(rest, path, with, end);
                    assert(s.skip(0) == s);
                    assert((path + end).is_prefix_of(s)) by {
                        assert(s == path + rest);
                        assert(s.take((path + end).len() as int) == path + end);
                    }
                    assert((path + end).is_prefix_of(s.skip(0)));
                    assert(occurs(s, path + other.skip(k)));
                    assert(runs_on(s, path, with, other));
                }
            } else {
                assert(t == 0 && r.skip(0) == r);
                lemma_beginning_is_old(s, path, with, other);
                assert(s.skip(0) == s);
                assert(occurs(s, other));
            }
        }
    }
}

/// The path of a picture in the book.
pub open spec fn picture_path(image: ImageView) -> Seq<char> {
    "images/"@ + image.filename
}

proof fn lemma_base64_has_no_underscore(bytes: Seq<u8>)
    ensures
        !base64_of(bytes).contains('_'),
    decreases bytes.len(),
{
    if bytes.len() > 2 {
        lemma_base64_has_no_underscore(bytes.skip(3));
        let rest = base64_of(bytes.skip(3));
        assert forall|i: int| 0 <= i < base64_of(bytes).len() implies base64_of(bytes)[i]
            != '_' by {
            if i >= 4 {
                assert(base64_of(bytes)[i] == rest[i - 4]);
                assert(rest.contains(rest[i - 4]));
            }
        }
    }
}

proof fn lemma_data_uri(image: ImageView)
    requires
        is_named_here(image),
    ensures
        data_uri_of(image.bytes, image.mime).len() > 0,
        data_uri_of(image.bytes, image.mime)[0] == 'd',
        !data_uri_of(image.bytes, image.mime).contains('_'),
{
    reveal_strlit("data:");
    reveal_strlit(";base64,");
    reveal_strlit("image/jpeg");
    reveal_strlit("image/png");
    lemma_base64_has_no_underscore(image.bytes);
    let code = base64_of(image.bytes);
    let (start, middle) = ("data:"@, ";base64,"@);
    let uri = data_uri_of(image.bytes, image.mime);
    assert(image.mime == "image/jpeg"@ || image.mime == "image/png"@);
    assert(uri == start + image.mime + middle + code);
    assert(uri[0] == start[0]);
    assert forall|i: int| 0 <= i < uri.len() implies uri[i] != '_' by {
        let (a, b, c) = (
            start.len() as int,
            (start + image.mime).len() as int,
            (start + image.mime + middle).len() as int,
        );
        if i < a {
            assert(uri[i] == start[i]);
        } else if i < b {
            assert(uri[i] == image.mime[i - a]);
        } else if i < c {
            assert(uri[i] == middle[i - b]);
        } else {
            assert(uri[i] == code[i - c]);
            assert(code.contains(code[i - c]));
        }
    }
}

proof fn lemma_path_and_uri(path_of: ImageView, uri_of: ImageView)
    requires
        is_named_here(path_of),
        is_named_here(uri_of),
    ensures
        picture_path(path_of).len() > 0,
        !picture_path(path_of).contains(data_uri_of(uri_of.bytes, uri_of.mime)[0]),
        !occurs(data_uri_of(uri_of.bytes, uri_of.mime), picture_path(path_of)),
{
    lemma_data_uri(uri_of);
    picture_paths_are_simple(path_of);
    reveal_strlit("images/img_");
    reveal_strlit("imagesjpn");
    let path = picture_path(path_of);
    let uri = data_uri_of(uri_of.bytes, uri_of.mime);
    assert("images/img_"@[10] == '_' && path[10] == "images/img_"@[10]);
    assert forall|i: int| 0 <= i < path.len() implies path[i] != 'd' by {
        assert(is_path_char(path[i]));
    }
    if occurs(uri, path) {
        let i = choose|i: int| 0 <= i <= uri.len() && path.is_prefix_of(#[trigger] uri.skip(i));
        assert(uri.skip(i)[10] == path[10]);
        assert(uri.skip(i)[10] == uri[i + 10]);
        assert(uri.contains(uri[i + 10]));
    }
}

/// Putting a picture into the page spells no path of another picture there.
pub open spec fn spells_no_path(
    html: Seq<char>,
    images: Seq<ImageView>,
    put: int,
    other: int,
) -> bool {
    !runs_on(
        inlined(html, images.take(put)),
        picture_path(images[put]),
        data_uri_of(images[put].bytes, images[put].mime),
        picture_path(images[other]),
    )
}

/// The preview needs no file of its pictures: once they were put into the page, it has the path of
/// none of them. Left out are pages where a path is followed by what spells a path again behind
/// the data of a picture.
pub proof fn no_path_of_a_picture_is_left(html: Seq<char>, images: Seq<ImageView>, i: int)
    requires
        forall|j: int| 0 <= j < images.len() ==> is_named_here(#[trigger] images[j]),
        forall|j: int, k: int|
            0 <= j <= k < images.len() ==> #[trigger] spells_no_path(html, images, k, j),
        0 <= i < images.len(),
    ensures
        !occurs(inlined(html, images), picture_path(images[i])),
    decreases images.len(),
{
    let less = images.drop_last();
    let n = images.len() - 1;
    let last = images[n];
    let text = inlined(html, less);
    assert(less == images.take(n));
    assert(images.take(n + 1) == images);
    assert(is_named_here(images[i]) && is_named_here(last));
    lemma_path_and_uri(images[i], last);
    lemma_path_and_uri(last, last);
    lemma_data_uri(last);
    if i < n {
        assert forall|j: int| 0 <= j < less.len() implies is_named_here(#[trigger] less[j]) by {
            assert(less[j] == images[j]);
        }
        assert forall|j: int, k: int| 0 <= j <= k < less.len() implies #[trigger] spells_no_path(
            html,
            less,
            k,
            j,
        ) by {
            assert(less.take(k) == images.take(k));
            assert(less[k] == images[k] && less[j] == images[j]);
            assert(spells_no_path(html, images, k, j));
        }
        no_path_of_a_picture_is_left(html, less, i);
        assert(less[i] == images[i]);
    }
    assert(spells_no_path(html, images, n, i));
    lemma_replaced_for_good(
        text,
        picture_path(last),
        data_uri_of(last.bytes, last.mime),
        picture_path(images[i]),
    );
}

/// Puts every picture that a page refers to into the page itself.
pub fn inline_images(html: &str, images: &[ImageAsset]) -> (r: String)
    ensures
        r@ == inlined(html@, image_views(images@)),
{
    let mut out: String = html.to_owned();
    let ghost views = image_views(images@);
    assert(views.take(0) == Seq::<ImageView>::empty());
    for i in 0..images.len()
        invariant
            views == image_views(images@),
            out@ == inlined(html@, views.take(i as int)),
    {
        assert(views.take(i + 1).drop_last() == views.take(i as int));
        assert(views.take(i + 1).last() == images@[i as int]@);
        let mut path: String = "images/".to_owned();
        path.append(images[i].filename.as_str());
        let uri = data_uri(images[i].bytes.as_slice(), images[i].mime);
        out = replace_all(out.as_str(), path.as_str(), uri.as_str());
    }
    assert(views.take(images@.len() as int) == views);
    out
}

// ---------------------------------------------------------------------------------------
// The page
// ---------------------------------------------------------------------------------------

/// The chapters of the preview, each with a heading that can be linked to.
pub open spec fn preview_chapters(fragments: Seq<(Seq<char>, Seq<char>)>) -> Seq<char>
    decreases fragments.len(),
{
    if fragments.len() == 0 {
        Seq::empty()
    } else {
        preview_chapters(fragments.drop_last()) + "<h2 id=\"chap"@ + decimal(fragments.len())
            + "\">"@ + escaped(fragments.last().0) + "</h2>\n"@ + fragments.last().1
            + "\n<hr/>\n"@
    }
}

/// The chapters of the preview stand one after the other: those of the first fragments, and then
/// the next one under its number, with its title escaped and its text as it is.
pub proof fn the_preview_shows_the_chapters_in_order(
    fragments: Seq<(Seq<char>, Seq<char>)>,
    title: Seq<char>,
    html: Seq<char>,
)
    ensures
        preview_chapters(Seq::empty()).len() == 0,
        preview_chapters(fragments.push((title, html))) == preview_chapters(fragments)
            + "<h2 id=\"chap"@ + decimal(fragments.len() + 1) + "\">"@ + escaped(title)
            + "</h2>\n"@ + html + "\n<hr/>\n"@,
{
    assert(fragments.push((title, html)).drop_last() == fragments);
}

/// The body of the preview, before the pictures are inlined: the cover, the title, the author
/// and the chapters.
pub open spec fn preview_body(
    fragments: Seq<(Seq<char>, Seq<char>)>,
    cover: CoverView,
    title: Seq<char>,
    author: Seq<char>,
) -> Seq<char> {
    "<img class=\"cover\" src=\""@ + data_uri_of(cover.bytes, cover.mime)
        + "\" alt=\"Capa\"/>\n<h1>"@ + escaped(title) + "</h1>\n<p><em>"@ + escaped(author)
        + "</em></p>\n"@ + preview_chapters(fragments)
}

/// The whole preview. It holds everything that it shows, so that it can be opened from anywhere.
pub open spec fn preview_of(
    fragments: Seq<(Seq<char>, Seq<char>)>,
    images: Seq<ImageView>,
    cover: CoverView,
    title: Seq<char>,
    author: Seq<char>,
) -> Seq<char> {
    "<!doctype html><html><head><meta charset=\"utf-8\"><title>Preview: "@ + escaped(title)
        + "</title>\
<style>body{max-width:700px;margin:2rem auto;font-family:Georgia,serif;line-height:1.5;padding:0 1rem}\
img{max-width:100%;display:block;margin:1rem auto}\
img.cover{max-height:80vh;box-shadow:0 2px 12px rgba(0,0,0,.3)}h2{border-top:1px solid #ccc;padding-top:1rem}</style>\
</head><body>"@
        + inlined(preview_body(fragments, cover, title, author), images) + "</body></html>"@
}

/// The preview is one page: its body holds the cover, then the title, the author and the chapters,
/// the texts escaped, and every picture stands in it in place of its path.
pub proof fn the_preview_is_one_page(
    fragments: Seq<(Seq<char>, Seq<char>)>,
    images: Seq<ImageView>,
    cover: CoverView,
    title: Seq<char>,
    author: Seq<char>,
)
    ensures
        exists|at: int| #[trigger]
            stands_in(
                preview_of(fragments, images, cover, title, author),
                "<body>"@ + inlined(preview_body(fragments, cover, title, author), images)
                    + "</body>"@,
                at,
            ),
        exists|at: int| #[trigger]
            stands_in(
                preview_body(fragments, cover, title, author),
                data_uri_of(cover.bytes, cover.mime),
                at,
            ),
        exists|at: int| #[trigger]
            stands_in(
                preview_body(fragments, cover, title, author),
                "<h1>"@ + escaped(title) + "</h1>"@,
                at,
            ),
        exists|at: int| #[trigger]
            stands_in(
                preview_body(fragments, cover, title, author),
                "<p><em>"@ + escaped(author) + "</em></p>\n"@ + preview_chapters(fragments),
                at,
            ),
{
    let body = preview_body(fragments, cover, title, author);
    let full = inlined(body, images);
    let page = preview_of(fragments, images, cover, title, author);
    let name = escaped(title);
    let by = escaped(author);
    let uri = data_uri_of(cover.bytes, cover.mime);
    let chapters = preview_chapters(fragments);
    let head = "</title>\
<style>body{max-width:700px;margin:2rem auto;font-family:Georgia,serif;line-height:1.5;padding:0 1rem}\
img{max-width:100%;display:block;margin:1rem auto}\
img.cover{max-height:80vh;box-shadow:0 2px 12px rgba(0,0,0,.3)}h2{border-top:1px solid #ccc;padding-top:1rem}</style>\
</head><body>"@;
    reveal_strlit(
        "</title>\
<style>body{max-width:700px;margin:2rem auto;font-family:Georgia,serif;line-height:1.5;padding:0 1rem}\
img{max-width:100%;display:block;margin:1rem auto}\
img.cover{max-height:80vh;box-shadow:0 2px 12px rgba(0,0,0,.3)}h2{border-top:1px solid #ccc;padding-top:1rem}</style>\
</head><body>",
    );
    reveal_strlit("<body>");
    reveal_strlit("</body>");
    reveal_strlit("</body></html>");
    reveal_strlit("\" alt=\"Capa\"/>\n<h1>");
    reveal_strlit("<h1>");
    reveal_strlit("</h1>");
    reveal_strlit("</h1>\n<p><em>");
    reveal_strlit("<p><em>");
    let start = "<!doctype html><html><head><meta charset=\"utf-8\"><title>Preview: "@;
    let end = "</body></html>"@;
    assert(page == start + name + head + full + end);
    let part = "<body>"@ + full + "</body>"@;
    let at = start.len() + name.len() + head.len() - 6;
    assert(head.skip(head.len() - 6) == "<body>"@);
    assert(end.take(7) == "</body>"@);
    assert(page.subrange(at, at + part.len()) == part);
    assert(stands_in(page, part, at));
    let first = "<img class=\"cover\" src=\""@;
    let second = "\" alt=\"Capa\"/>\n<h1>"@;
    let third = "</h1>\n<p><em>"@;
    let fourth = "</em></p>\n"@;
    assert(body == first + uri + second + name + third + by + fourth + chapters);
    let one = first.len() as int;
    assert(body.subrange(one, one + uri.len()) == uri);
    assert(stands_in(body, uri, one));
    let heading = "<h1>"@ + name + "</h1>"@;
    let two = one + uri.len() + second.len() - 4;
    assert(second.skip(second.len() - 4) == "<h1>"@);
    assert(third.take(5) == "</h1>"@);
    assert(body.subrange(two, two + heading.len()) == heading);
    assert(stands_in(body, heading, two));
    let rest = "<p><em>"@ + by + fourth + chapters;
    let three = one + uri.len() + second.len() + name.len() + third.len() - 7;
    assert(third.skip(third.len() - 7) == "<p><em>"@);
    assert(body.subrange(three, three + rest.len()) == rest);
    assert(stands_in(body, rest, three));
}

/// Builds a page that holds the same chapters as the book, with every picture in it.
pub fn preview_page(
    chapters_html: &[ChapterHtml],
    images: &[ImageAsset],
    cover: &Cover,
    title: &str,
    author: &str,
) -> (r: String)
    ensures
        r@ == preview_of(
            fragment_views(chapters_html@),
            image_views(images@),
            cover@,
            title@,
            author@,
        ),
{
    let ghost views = fragment_views(chapters_html@);
    let name = escape_html(title);
    let art = data_uri(cover.bytes.as_slice(), cover.mime);
    let by = escape_html(author);
    let mut chapters = String::new();
    assert(views.take(0) == Seq::<(Seq<char>, Seq<char>)>::empty());
    for i in 0..chapters_html.len()
        invariant
            views == fragment_views(chapters_html@),
            chapters_html@.len() <= usize::MAX,
            chapters@ == preview_chapters(views.take(i as int)),
    {
        assert(views.take(i + 1).drop_last() == views.take(i as int));
        assert(views.take(i + 1).last() == (
            chapters_html@[i as int].0@,
            chapters_html@[i as int].1@,
        ));
        let heading = escape_html(chapters_html[i].0.as_str());
        chapters.append("<h2 id=\"chap");
        push_decimal(&mut chapters, (i + 1) as u128);
        chapters.append("\">");
        chapters.append(heading.as_str());
        chapters.append("</h2>\n");
        chapters.append(chapters_html[i].1.as_str());
        chapters.append("\n<hr/>\n");
    }
    assert(views.take(chapters_html@.len() as int) == views);
    let mut body: String = "<img class=\"cover\" src=\"".to_owned();
    body.append(art.as_str());
    body.append("\" alt=\"Capa\"/>\n<h1>");
    body.append(name.as_str());
    body.append("</h1>\n<p><em>");
    body.append(by.as_str());
    body.append("</em></p>\n");
    body.append(chapters.as_str());
    let full = inline_images(body.as_str(), images);
    let mut page: String =
        "<!doctype html><html><head><meta charset=\"utf-8\"><title>Preview: ".to_owned();
    page.append(name.as_str());
    page.append(
        "</title>\
<style>body{max-width:700px;margin:2rem auto;font-family:Georgia,serif;line-height:1.5;padding:0 1rem}\
img{max-width:100%;display:block;margin:1rem auto}\
img.cover{max-height:80vh;box-shadow:0 2px 12px rgba(0,0,0,.3)}h2{border-top:1px solid #ccc;padding-top:1rem}</style>\
</head><body>",
    );
    page.append(full.as_str());
    page.append("</body></html>");
    page
}

} // verus!
