//! The archive that a book is written to.
use vstd::prelude::*;

verus! {

/// What a page of the book is for.
#[derive(Debug, Clone, Copy, PartialEq, Eq, Structural)]
pub enum PageRole {
    Cover,
    Text,
}

/// A part of the book, in the order in which the parts were added.
#[verifier::ext_equal]
pub ghost enum BookPart {
    /// The stylesheet, in the file `stylesheet.css`.
    Stylesheet { content: Seq<u8> },
    /// A file that pages refer to.
    Resource { path: Seq<char>, content: Seq<u8>, mime: Seq<char> },
    /// The picture that stands for the book in a library.
    CoverImage { path: Seq<char>, content: Seq<u8>, mime: Seq<char> },
    /// A page that is read in turn. Only a page with a title is listed in the contents.
    Page { path: Seq<char>, content: Seq<u8>, title: Seq<char>, role: PageRole },
    /// The table of contents, as a page of its own.
    Contents,
}

/// The place of a part in the archive.
pub open spec fn part_path(part: BookPart) -> Seq<char> {
    match part {
        BookPart::Stylesheet { .. } => "stylesheet.css"@,
        BookPart::Resource { path, .. } => path,
        BookPart::CoverImage { path, .. } => path,
        BookPart::Page { path, .. } => path,
        BookPart::Contents => "toc.xhtml"@,
    }
}

/// The length of a text in the archive.
pub open spec fn byte_length(text: Seq<char>) -> nat {
    vstd::utf8::encode_utf8(text).len()
}

/// No two parts stand at the same place. The contents do not count: they are written last.
pub open spec fn paths_differ(parts: Seq<BookPart>) -> bool {
    forall|i: int, j: int|
        0 <= i < j < parts.len() && !(parts[i] is Contents) && !(parts[j] is Contents)
            ==> part_path(#[trigger] parts[i]) != part_path(#[trigger] parts[j])
}

/// The path is a relative one that reads the same on every system.
pub open spec fn is_plain_path(path: Seq<char>) -> bool {
    path.len() > 0 && path[0] != '/' && !path.contains('\\') && !path.contains(':')
}

/// An archive has two bytes for the length of a file's name, which begins with `OEBPS/` here.
pub open spec fn fits_entry(path: Seq<char>) -> bool {
    byte_length(path) <= 65_529
}

/// More bytes than a text takes up where the builder writes it down: it is escaped, and stands in
/// up to four lists.
pub open spec fn text_weight(text: Seq<char>) -> nat {
    1024 + 64 * byte_length(text)
}

/// More bytes than some texts take up.
pub open spec fn texts_weight(texts: Seq<Seq<char>>) -> nat
    decreases texts.len(),
{
    if texts.len() == 0 {
        0
    } else {
        texts_weight(texts.drop_last()) + text_weight(texts.last())
    }
}

/// More bytes than a part takes up, before it is compressed.
pub open spec fn part_weight(part: BookPart) -> nat {
    text_weight(part_path(part)) + match part {
        BookPart::Stylesheet { content } => content.len(),
        BookPart::Resource { content, mime, .. } => content.len() + text_weight(mime),
        BookPart::CoverImage { content, mime, .. } => content.len() + text_weight(mime),
        BookPart::Page { content, title, .. } => content.len() + text_weight(title),
        BookPart::Contents => 0,
    }
}

/// More bytes than some parts take up.
pub open spec fn parts_weight(parts: Seq<BookPart>) -> nat
    decreases parts.len(),
{
    if parts.len() == 0 {
        0
    } else {
        parts_weight(parts.drop_last()) + part_weight(parts.last())
    }
}

/// Books of this size are far from the four gigabytes that an archive without extensions holds.
pub const ORDINARY_WEIGHT: u32 = 0x4000_0000;

/// Every path is plain.
pub open spec fn have_plain_paths(parts: Seq<BookPart>) -> bool {
    forall|i: int| 0 <= i < parts.len() ==> is_plain_path(part_path(#[trigger] parts[i]))
}

/// The parts are not too large for an archive, and their paths are plain.
pub open spec fn are_ordinary(parts: Seq<BookPart>) -> bool {
    parts_weight(parts) <= ORDINARY_WEIGHT && have_plain_paths(parts)
}

/// The parts are not too large for an archive together with the metadata, and their paths are
/// plain.
pub open spec fn is_ordinary_book(
    parts: Seq<BookPart>,
    metadata: Map<Seq<char>, Seq<Seq<char>>>,
) -> bool {
    &&& are_ordinary(parts)
    &&& parts_weight(parts) + texts_weight(metadata["title"@]) + texts_weight(metadata["author"@])
        + texts_weight(metadata["lang"@]) <= ORDINARY_WEIGHT
}

/// Some part stands at this place.
pub open spec fn is_taken(parts: Seq<BookPart>, path: Seq<char>) -> bool {
    exists|i: int|
        0 <= i < parts.len() && !(parts[i] is Contents) && part_path(#[trigger] parts[i]) == path
}

/// The table of contents is among the parts.
pub open spec fn has_contents(parts: Seq<BookPart>) -> bool {
    exists|i: int| 0 <= i < parts.len() && (#[trigger] parts[i]) is Contents
}

/// A stylesheet is among the parts.
pub open spec fn has_stylesheet(parts: Seq<BookPart>) -> bool {
    exists|i: int| 0 <= i < parts.len() && (#[trigger] parts[i]) is Stylesheet
}

/// No part stands where the builder writes a file of its own: the lists of what the book holds,
/// the table of contents, and a stylesheet where the book has none.
pub open spec fn leaves_room(parts: Seq<BookPart>) -> bool {
    &&& !is_taken(parts, "content.opf"@)
    &&& !is_taken(parts, "toc.ncx"@)
    &&& !is_taken(parts, "nav.xhtml"@)
    &&& has_contents(parts) ==> !is_taken(parts, "toc.xhtml"@)
    &&& has_stylesheet(parts) || !is_taken(parts, "stylesheet.css"@)
}

/// Adding a part to these parts is decided by its path: it succeeds exactly where no other part
/// stands there. Nothing is said of books that are not ordinary.
pub open spec fn is_decided(parts: Seq<BookPart>, part: BookPart, ok: bool) -> bool {
    are_ordinary(parts.push(part)) && paths_differ(parts) ==> ok == paths_differ(parts.push(part))
}

/// A book that is being put together. `epub_builder::EpubBuilder` is generic over a trait that
/// its crate keeps to itself, so the builder stands inside a type of the library.
#[verifier::external_body]
pub struct BookWriter {
    inner: epub_builder::EpubBuilder<epub_builder::ZipLibrary>,
}

/// The parts that were added to a book so far.
pub uninterp spec fn book_parts(book: BookWriter) -> Seq<BookPart>;

/// The values of a book's metadata under "title", "author" and "lang".
pub uninterp spec fn book_metadata(book: BookWriter) -> Map<Seq<char>, Seq<Seq<char>>>;

/// The metadata of a book that was just begun.
pub open spec fn no_metadata() -> Map<Seq<char>, Seq<Seq<char>>> {
    Map::empty().insert("title"@, seq![Seq::empty()]).insert("author"@, Seq::empty()).insert(
        "lang"@,
        Seq::empty(),
    )
}

/// `epub_builder::ZipLibrary::new` opens an archive in memory and `epub_builder::EpubBuilder::new`
/// begins a book in it: with no parts, an empty title, no authors and no languages. What they
/// write to the archive are three small files, so that neither fails.
#[verifier::external_body]
pub(crate) fn begin_book() -> (r: Result<BookWriter, String>)
    ensures
        r is Ok,
        r matches Ok(book) ==> book_parts(book) == Seq::<BookPart>::empty() && book_metadata(book)
            == no_metadata(),
{
    let zip = epub_builder::ZipLibrary::new().map_err(|e| e.to_string())?;
    let inner = epub_builder::EpubBuilder::new(zip).map_err(|e| e.to_string())?;
    Ok(BookWriter { inner })
}

/// `epub_builder::EpubBuilder::set_title` replaces the title.
#[verifier::external_body]
pub(crate) fn set_title(book: &mut BookWriter, title: &str)
    ensures
        book_parts(*final(book)) == book_parts(*old(book)),
        book_metadata(*final(book)) == book_metadata(*old(book)).insert("title"@, seq![title@]),
{
    book.inner.set_title(title);
}

/// `epub_builder::EpubBuilder::add_author` adds one more author at the end.
#[verifier::external_body]
pub(crate) fn add_author(book: &mut BookWriter, author: &str)
    ensures
        book_parts(*final(book)) == book_parts(*old(book)),
        book_metadata(*final(book)) == book_metadata(*old(book)).insert(
            "author"@,
            book_metadata(*old(book))["author"@].push(author@),
        ),
{
    book.inner.add_author(author);
}

/// `epub_builder::EpubBuilder::set_languages` replaces the languages.
#[verifier::external_body]
pub(crate) fn set_language(book: &mut BookWriter, lang: &str)
    ensures
        book_parts(*final(book)) == book_parts(*old(book)),
        book_metadata(*final(book)) == book_metadata(*old(book)).insert("lang"@, seq![lang@]),
{
    book.inner.set_languages(vec![lang.to_owned()]);
}

/// `epub_builder::EpubBuilder::stylesheet` adds the file `stylesheet.css`, of type `text/css`,
/// and has the pages that the builder writes itself refer to it. It fails where the archive has
/// that file already.
#[verifier::external_body]
pub(crate) fn set_stylesheet(book: &mut BookWriter, content: &[u8]) -> (r: Result<(), String>)
    ensures
        r is Ok ==> book_parts(*final(book)) == book_parts(*old(book)).push(
            BookPart::Stylesheet { content: content@ },
        ) && book_metadata(*final(book)) == book_metadata(*old(book)),
        is_decided(
            book_parts(*old(book)),
            BookPart::Stylesheet { content: content@ },
            r is Ok,
        ),
{
    book.inner.stylesheet(content).map(|_| ()).map_err(|e| e.to_string())
}

/// `epub_builder::EpubBuilder::add_cover_image` adds the picture that stands for the book.
/// It fails where the archive has a file of that name already, and may fail on a book that is not
/// ordinary. A name that is too long stops the program.
#[verifier::external_body]
pub(crate) fn add_cover_image(
    book: &mut BookWriter,
    path: &str,
    content: &[u8],
    mime: &str,
) -> (r: Result<(), String>)
    requires
        fits_entry(path@),
    ensures
        r is Ok ==> book_parts(*final(book)) == book_parts(*old(book)).push(
            BookPart::CoverImage { path: path@, content: content@, mime: mime@ },
        ) && book_metadata(*final(book)) == book_metadata(*old(book)),
        is_decided(
            book_parts(*old(book)),
            BookPart::CoverImage { path: path@, content: content@, mime: mime@ },
            r is Ok,
        ),
{
    book.inner.add_cover_image(path, content, mime).map(|_| ()).map_err(|e| e.to_string())
}

/// `epub_builder::EpubBuilder::add_resource` adds a file that pages refer to. It fails where the
/// archive has a file of that name already, and may fail on a book that is not ordinary. A name
/// that is too long stops the program.
#[verifier::external_body]
pub(crate) fn add_resource(
    book: &mut BookWriter,
    path: &str,
    content: &[u8],
    mime: &str,
) -> (r: Result<(), String>)
    requires
        fits_entry(path@),
    ensures
        r is Ok ==> book_parts(*final(book)) == book_parts(*old(book)).push(
            BookPart::Resource { path: path@, content: content@, mime: mime@ },
        ) && book_metadata(*final(book)) == book_metadata(*old(book)),
        is_decided(
            book_parts(*old(book)),
            BookPart::Resource { path: path@, content: content@, mime: mime@ },
            r is Ok,
        ),
{
    book.inner.add_resource(path, content, mime).map(|_| ()).map_err(|e| e.to_string())
}

/// `epub_builder::EpubBuilder::inline_toc` puts the table of contents at this place of the
/// reading order.
#[verifier::external_body]
pub(crate) fn add_contents(book: &mut BookWriter)
    ensures
        book_parts(*final(book)) == book_parts(*old(book)).push(BookPart::Contents),
        book_metadata(*final(book)) == book_metadata(*old(book)),
{
    book.inner.inline_toc();
}

/// `epub_builder::EpubBuilder::add_content` adds a page at the end of the reading order, with
/// the given title and reference type. It fails where the archive has a file of that name already,
/// and may fail on a book that is not ordinary. A name that is too long stops the program.
#[verifier::external_body]
pub(crate) fn add_page(
    book: &mut BookWriter,
    path: &str,
    content: &[u8],
    title: &str,
    role: PageRole,
) -> (r: Result<(), String>)
    requires
        fits_entry(path@),
    ensures
        r is Ok ==> book_parts(*final(book)) == book_parts(*old(book)).push(
            BookPart::Page { path: path@, content: content@, title: title@, role },
        ) && book_metadata(*final(book)) == book_metadata(*old(book)),
        is_decided(
            book_parts(*old(book)),
            BookPart::Page { path: path@, content: content@, title: title@, role },
            r is Ok,
        ),
{
    let reftype = match role {
        PageRole::Cover => epub_builder::ReferenceType::Cover,
        PageRole::Text => epub_builder::ReferenceType::Text,
    };
    let page = epub_builder::EpubContent::new(path, content).title(title).reftype(reftype);
    book.inner.add_content(page).map(|_| ()).map_err(|e| e.to_string())
}

/// A text with every pair of a carriage return and a line feed written as a line feed.
pub open spec fn with_line_feeds(s: Seq<char>) -> Seq<char>
    decreases s.len(),
{
    if s.len() == 0 {
        s
    } else if s.len() >= 2 && s[0] == '\r' && s[1] == '\n' {
        seq!['\n'] + with_line_feeds(s.skip(2))
    } else {
        seq![s[0]] + with_line_feeds(s.skip(1))
    }
}

/// A part as the archive holds it: its title or its type has line feeds alone.
pub open spec fn archived(part: BookPart) -> BookPart {
    match part {
        BookPart::Resource { path, content, mime } => BookPart::Resource {
            path,
            content,
            mime: with_line_feeds(mime),
        },
        BookPart::CoverImage { path, content, mime } => BookPart::CoverImage {
            path,
            content,
            mime: with_line_feeds(mime),
        },
        BookPart::Page { path, content, title, role } => BookPart::Page {
            path,
            content,
            title: with_line_feeds(title),
            role,
        },
        other => other,
    }
}

/// Some parts as the archive holds them.
pub open spec fn archived_parts(parts: Seq<BookPart>) -> Seq<BookPart> {
    parts.map_values(|part: BookPart| archived(part))
}

/// A text without carriage returns stands in the archive as it is.
pub proof fn a_text_without_returns_stays(s: Seq<char>)
    requires
        !s.contains('\r'),
    ensures
        with_line_feeds(s) == s,
    decreases s.len(),
{
    if s.len() > 0 {
        assert(s[0] != '\r');
        assert forall|i: int| 0 <= i < s.skip(1).len() implies s.skip(1)[i] != '\r' by {
            assert(s.skip(1)[i] == s[i + 1]);
        }
        a_text_without_returns_stays(s.skip(1));
        assert(seq![s[0]] + s.skip(1) == s);
    }
}

/// The parts and the metadata that the archive of a book holds.
pub uninterp spec fn archive_contents(bytes: Seq<u8>) -> (
    Seq<BookPart>,
    Map<Seq<char>, Seq<Seq<char>>>,
);

/// `epub_builder::EpubBuilder::generate` closes the archive and hands out its bytes: they hold
/// the parts and the metadata of the book. Titles and types stand in lists that are indented
/// line by line, which drops the carriage return before a line feed. What a path is that is not
/// plain depends on the system, so nothing is claimed of a book with such a path. A book without a
/// stylesheet is given an empty one, so such a book is left out. The bytes also hold the time of
/// the call and an identifier drawn at random, so that two calls give different bytes. It writes a
/// few files of its own first, and fails where the archive has one of them already. It may fail on
/// a book that is not ordinary.
#[verifier::external_body]
pub(crate) fn finish_book(book: BookWriter) -> (r: Result<Vec<u8>, String>)
    requires
        has_stylesheet(book_parts(book)),
    ensures
        have_plain_paths(book_parts(book)) ==> (r matches Ok(bytes) ==> archive_contents(bytes@)
            == (archived_parts(book_parts(book)), book_metadata(book))),
        is_ordinary_book(book_parts(book), book_metadata(book)) && paths_differ(book_parts(book))
            ==> (r is Ok) == leaves_room(book_parts(book)),
{
    let mut out = Vec::new();
    book.inner.generate(&mut out).map_err(|e| e.to_string())?;
    Ok(out)
}

/// Fewer parts are as ordinary, and their paths as different, as more are.
pub proof fn lemma_fewer_parts(parts: Seq<BookPart>, n: int)
    requires
        0 <= n <= parts.len(),
    ensures
        are_ordinary(parts) ==> are_ordinary(parts.take(n)),
        paths_differ(parts) ==> paths_differ(parts.take(n)),
        parts_weight(parts.take(n)) <= parts_weight(parts),
    decreases parts.len(),
{
    let fewer = parts.take(n);
    if n < parts.len() {
        let less = parts.drop_last();
        assert(less.take(n) == fewer);
        lemma_fewer_parts(less, n);
    } else {
        assert(fewer == parts);
    }
    assert forall|i: int| are_ordinary(parts) && 0 <= i < n implies is_plain_path(
        part_path(#[trigger] fewer[i]),
    ) by {
        assert(fewer[i] == parts[i]);
    }
    assert forall|i: int, j: int|
        paths_differ(parts) && 0 <= i < j < n && !(fewer[i] is Contents) && !(fewer[j] is Contents)
        implies part_path(#[trigger] fewer[i]) != part_path(#[trigger] fewer[j]) by {
        assert(fewer[i] == parts[i] && fewer[j] == parts[j]);
    }
}

/// A character takes up at most four bytes.
pub proof fn lemma_byte_length(text: Seq<char>)
    ensures
        byte_length(text) <= 4 * text.len(),
    decreases text.len(),
{
    if text.len() > 0 {
        lemma_byte_length(text.drop_first());
    }
}

} // verus!
