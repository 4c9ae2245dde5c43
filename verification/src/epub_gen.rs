//! Renders chapters to XHTML and gathers the files of the book.
use vstd::prelude::*;

use crate::chapters::{chapter_views, Chapter, ChapterView};
use crate::cover::{cover_page, cover_xhtml, Cover, CoverView};
use crate::epub_writer::{
    add_author, add_contents, add_cover_image, add_page, add_resource, archive_contents,
    archived_parts, are_ordinary, begin_book, book_metadata, book_parts, finish_book, fits_entry,
    has_stylesheet, have_plain_paths, is_ordinary_book, is_plain_path, leaves_room,
    lemma_byte_length, lemma_fewer_parts, no_metadata, part_path, paths_differ, set_language,
    set_stylesheet, set_title, BookPart, BookWriter, PageRole,
};
use crate::layout::{
    block_views, blocks, blocks_make_up_no_pictures, blocks_of, Block, BlockView, Kind,
    LayoutMetrics,
};
use crate::pdf_model::{
    event_views, image_views, EventView, FlowEvent, ImageAsset, ImageView,
};
use crate::images::{is_named_here, picture_paths_are_simple};
use crate::text::{
    decimal2, is_blank, lemma_decimal_length, power_of_ten, push_decimal2, replaced, stands_in,
    two_digit_numbers_differ,
};

verus! {

/// The book's stylesheet. Without one the reader falls back to its own defaults and the
/// text loses every distinction the PDF made: paragraph indents, caption size, centring.
pub const STYLESHEET: &'static str = "\
body { margin: 0 5%; line-height: 1.5; text-align: justify; }
h1 { font-size: 1.5em; line-height: 1.25; text-align: left; margin: 2em 0 1em; }
h2 { font-size: 1.2em; line-height: 1.3; text-align: left; margin: 1.8em 0 0.6em; }
p { margin: 0; text-indent: 1.4em; }
h1 + p, h2 + p, img + p { text-indent: 0; }
p.legenda { font-size: 0.85em; text-align: center; text-indent: 0; margin: 0.4em 0 1.4em; }
p.direita { text-align: right; text-indent: 0; margin: 0.2em 0 1.2em; }
img { max-width: 100%; display: block; margin: 1.4em auto; }
";

/// A chapter's title and its body as an HTML fragment: the same fragments that the book's
/// chapter files hold and that the HTML preview shows, so that both always agree.
pub type ChapterHtml = (String, String);

// ---------------------------------------------------------------------------------------
// Escaping
// ---------------------------------------------------------------------------------------

/// How a character is written in XHTML.
pub open spec fn escaped_char(c: char) -> Seq<char> {
    if c == '&' {
        seq!['&', 'a', 'm', 'p', ';']
    } else if c == '<' {
        seq!['&', 'l', 't', ';']
    } else if c == '>' {
        seq!['&', 'g', 't', ';']
    } else if c == '"' {
        seq!['&', 'q', 'u', 'o', 't', ';']
    } else {
        seq![c]
    }
}

/// How a text is written in XHTML.
pub open spec fn escaped(s: Seq<char>) -> Seq<char>
    decreases s.len(),
{
    if s.len() == 0 {
        Seq::empty()
    } else {
        escaped(s.drop_last()) + escaped_char(s.last())
    }
}

/// What a reader makes of XHTML text: each of the four entities stands for its character, and
/// everything else for itself.
pub open spec fn unescaped(s: Seq<char>) -> Seq<char>
    decreases s.len(),
{
    if s.len() == 0 {
        Seq::empty()
    } else if escaped_char('&').is_prefix_of(s) {
        seq!['&'] + unescaped(s.skip(5))
    } else if escaped_char('<').is_prefix_of(s) {
        seq!['<'] + unescaped(s.skip(4))
    } else if escaped_char('>').is_prefix_of(s) {
        seq!['>'] + unescaped(s.skip(4))
    } else if escaped_char('"').is_prefix_of(s) {
        seq!['"'] + unescaped(s.skip(6))
    } else {
        seq![s[0]] + unescaped(s.skip(1))
    }
}

proof fn lemma_escaped_concat(a: Seq<char>, b: Seq<char>)
    ensures
        escaped(a + b) == escaped(a) + escaped(b),
    decreases b.len(),
{
    if b.len() == 0 {
        assert(a + b == a);
    } else {
        assert((a + b).drop_last() == a + b.drop_last());
        lemma_escaped_concat(a, b.drop_last());
        assert(escaped(a + b) == escaped(a) + escaped(b));
    }
}

/// A text is escaped character by character: the ampersand, the two angle brackets and the
/// quotation mark become entities, and every other character stays as it is.
pub proof fn characters_are_escaped_by_themselves(a: Seq<char>, b: Seq<char>, c: char)
    requires
        c != '&' && c != '<' && c != '>' && c != '"',
    ensures
        escaped(a + b) == escaped(a) + escaped(b),
        escaped(Seq::empty()) == Seq::<char>::empty(),
        escaped(seq!['&']) == "&amp;"@,
        escaped(seq!['<']) == "&lt;"@,
        escaped(seq!['>']) == "&gt;"@,
        escaped(seq!['"']) == "&quot;"@,
        escaped(seq![c]) == seq![c],
{
    reveal_strlit("&amp;");
    reveal_strlit("&lt;");
    reveal_strlit("&gt;");
    reveal_strlit("&quot;");
    lemma_escaped_concat(a, b);
    lemma_escaped_single('&');
    lemma_escaped_single('<');
    lemma_escaped_single('>');
    lemma_escaped_single('"');
    lemma_escaped_single(c);
}

proof fn lemma_escaped_single(c: char)
    ensures
        escaped(seq![c]) == escaped_char(c),
{
    let one = seq![c];
    assert(one.drop_last() == Seq::<char>::empty());
    assert(escaped(one.drop_last()) == Seq::<char>::empty());
    assert(one.last() == c);
    assert(Seq::<char>::empty() + escaped_char(c) == escaped_char(c));
}

/// Escaped text has no character that could open or close a tag or end an attribute.
pub proof fn escaping_leaves_no_markup(s: Seq<char>)
    ensures
        !escaped(s).contains('<'),
        !escaped(s).contains('>'),
        !escaped(s).contains('"'),
    decreases s.len(),
{
    if s.len() > 0 {
        escaping_leaves_no_markup(s.drop_last());
        assert forall|i: int| 0 <= i < escaped(s).len() implies (#[trigger] escaped(s)[i]) != '<'
            && escaped(s)[i] != '>' && escaped(s)[i] != '"' by {
            let before = escaped(s.drop_last());
            if i < before.len() {
                assert(before.contains(before[i]));
                assert(escaped(s)[i] == before[i]);
            } else {
                assert(escaped(s)[i] == escaped_char(s.last())[i - before.len()]);
            }
        }
    }
}

/// Nothing is lost by escaping: a reader sees the text as it was.
pub proof fn escaping_is_undone_by_the_reader(s: Seq<char>)
    ensures
        unescaped(escaped(s)) == s,
    decreases s.len(),
{
    if s.len() > 0 {
        let first = seq![s[0]];
        let rest = s.drop_first();
        let code = escaped_char(s[0]);
        assert(first + rest == s);
        lemma_escaped_concat(first, rest);
        assert(first.drop_last() == Seq::<char>::empty());
        assert(escaped(first.drop_last()) == Seq::<char>::empty());
        assert(first.last() == s[0]);
        assert(escaped(first) == code);
        let all = escaped(s);
        assert(all == code + escaped(rest));
        escaping_is_undone_by_the_reader(rest);
        assert(all.skip(code.len() as int) == escaped(rest));
        assert(all.take(code.len() as int) == code);
        assert(all[0] == code[0]);
        if code.len() > 1 {
            assert(all[1] == code[1]);
            assert(code.is_prefix_of(all));
            if s[0] != '&' {
                assert(escaped_char('&')[1] == 'a');
                assert(!escaped_char('&').is_prefix_of(all));
            }
            if s[0] == '>' || s[0] == '"' {
                assert(escaped_char('<')[1] == 'l');
                assert(!escaped_char('<').is_prefix_of(all));
            }
            if s[0] == '"' {
                assert(escaped_char('>')[1] == 'g');
                assert(!escaped_char('>').is_prefix_of(all));
            }
        } else {
            assert(escaped_char('&')[0] == '&' && escaped_char('<')[0] == '&' && escaped_char(
                '>',
            )[0] == '&' && escaped_char('"')[0] == '&');
            assert(all[0] != '&');
        }
        assert(unescaped(all) == first + unescaped(escaped(rest)));
    }
}

/// Different texts are escaped differently.
pub proof fn escaping_keeps_texts_apart(a: Seq<char>, b: Seq<char>)
    requires
        escaped(a) == escaped(b),
    ensures
        a == b,
{
    escaping_is_undone_by_the_reader(a);
    escaping_is_undone_by_the_reader(b);
}

/// One of the four entities begins here.
pub open spec fn begins_entity(s: Seq<char>, at: int) -> bool {
    let rest = s.skip(at);
    ||| escaped_char('&').is_prefix_of(rest)
    ||| escaped_char('<').is_prefix_of(rest)
    ||| escaped_char('>').is_prefix_of(rest)
    ||| escaped_char('"').is_prefix_of(rest)
}

proof fn lemma_escaped_first(s: Seq<char>)
    requires
        s.len() > 0,
    ensures
        escaped(s) == escaped_char(s[0]) + escaped(s.drop_first()),
{
    let first = seq![s[0]];
    assert(first + s.drop_first() == s);
    lemma_escaped_concat(first, s.drop_first());
    assert(first.drop_last() == Seq::<char>::empty());
    assert(escaped(first.drop_last()) == Seq::<char>::empty());
    assert(first.last() == s[0]);
}

/// Every ampersand in escaped text begins one of the four entities.
pub proof fn every_ampersand_begins_an_entity(s: Seq<char>, at: int)
    requires
        0 <= at < escaped(s).len(),
        escaped(s)[at] == '&',
    ensures
        begins_entity(escaped(s), at),
    decreases s.len(),
{
    let code = escaped_char(s[0]);
    let rest = escaped(s.drop_first());
    lemma_escaped_first(s);
    if at < code.len() {
        assert(code[at] == '&');
        assert(at == 0 && code.len() > 1);
        assert(escaped(s).skip(0) == escaped(s));
        assert(code.is_prefix_of(escaped(s)));
    } else {
        assert(rest[at - code.len()] == '&');
        every_ampersand_begins_an_entity(s.drop_first(), at - code.len());
        assert(escaped(s).skip(at) == rest.skip(at - code.len()));
    }
}

/// A text in which all but some characters are escaped.
spec fn escaped_but(s: Seq<char>, plain: Set<char>) -> Seq<char>
    decreases s.len(),
{
    if s.len() == 0 {
        Seq::empty()
    } else {
        (if plain.contains(s[0]) {
            seq![s[0]]
        } else {
            escaped_char(s[0])
        }) + escaped_but(s.drop_first(), plain)
    }
}

proof fn lemma_nothing_to_replace(p: Seq<char>, t: Seq<char>, from: Seq<char>, to: Seq<char>)
    requires
        from.len() > 0,
        from[0] == '&',
        !p.contains('&'),
    ensures
        replaced(p + t, from, to) == p + replaced(t, from, to),
    decreases p.len(),
{
    if p.len() == 0 {
        assert(p + t == t);
        assert(p + replaced(t, from, to) == replaced(t, from, to));
    } else {
        let all = p + t;
        let less = p.drop_first();
        assert(p.contains(p[0]));
        assert(all[0] == p[0]);
        assert(!from.is_prefix_of(all));
        assert(all.skip(1) == less + t);
        assert forall|i: int| 0 <= i < less.len() implies less[i] != '&' by {
            assert(p.contains(p[i + 1]));
        }
        lemma_nothing_to_replace(less, t, from, to);
        assert(seq![p[0]] + (less + replaced(t, from, to)) == p + replaced(t, from, to));
    }
}

/// Replacing one of the entities leaves a text in which its character is no longer escaped.
proof fn lemma_one_entity(s: Seq<char>, plain: Set<char>, c: char)
    requires
        c == '&' || c == '<' || c == '>' || c == '"',
        !plain.contains('&'),
        !plain.contains(c),
    ensures
        replaced(escaped_but(s, plain), escaped_char(c), seq![c]) == escaped_but(
            s,
            plain.insert(c),
        ),
    decreases s.len(),
{
    if s.len() > 0 {
        let first = s[0];
        let rest = s.drop_first();
        let code = escaped_char(c);
        let tail = escaped_but(rest, plain);
        let all = escaped_but(s, plain);
        lemma_one_entity(rest, plain, c);
        let after = replaced(tail, code, seq![c]);
        if first == c {
            assert(all == code + tail);
            assert(code.is_prefix_of(all));
            assert(all.skip(code.len() as int) == tail);
        } else if plain.contains(first) || escaped_char(first).len() == 1 {
            let piece = seq![first];
            assert(all == piece + tail);
            assert(first != '&');
            lemma_nothing_to_replace(piece, tail, code, seq![c]);
        } else {
            let other = escaped_char(first);
            let end = other.drop_first();
            assert(all == other + tail);
            assert(all[1] == other[1]);
            assert(code[1] != other[1]);
            assert(!code.is_prefix_of(all));
            assert(all.skip(1) == end + tail);
            assert(all[0] == '&');
            assert(!end.contains('&'));
            lemma_nothing_to_replace(end, tail, code, seq![c]);
            assert(seq!['&'] + (end + after) == other + after);
        }
    }
}

proof fn lemma_escaped_but(s: Seq<char>, plain: Set<char>)
    ensures
        escaped_but(s, Set::empty()) == escaped(s),
        plain.contains('&') && plain.contains('<') && plain.contains('>') && plain.contains('"')
            ==> escaped_but(s, plain) == s,
    decreases s.len(),
{
    if s.len() > 0 {
        lemma_escaped_but(s.drop_first(), plain);
        lemma_escaped_first(s);
        assert(seq![s[0]] + s.drop_first() == s);
    }
}

/// Replacing the entities one after the other gives the text back, so long as the ampersand comes
/// last.
pub proof fn escaping_is_undone_by_replacing(s: Seq<char>)
    ensures
        ({
            let less = replaced(escaped(s), escaped_char('<'), seq!['<']);
            let greater = replaced(less, escaped_char('>'), seq!['>']);
            let quote = replaced(greater, escaped_char('"'), seq!['"']);
            replaced(quote, escaped_char('&'), seq!['&']) == s
        }),
{
    let none = Set::<char>::empty();
    let less = none.insert('<');
    let greater = less.insert('>');
    let quote = greater.insert('"');
    lemma_escaped_but(s, quote.insert('&'));
    lemma_one_entity(s, none, '<');
    lemma_one_entity(s, less, '>');
    lemma_one_entity(s, greater, '"');
    lemma_one_entity(s, quote, '&');
}

/// Escapes text for XHTML. Double quotes are escaped too, because callers also use this to
/// guard attribute values (the cover page's `xlink:href`). `&quot;` in a text node is valid
/// and renders identically, so one always-safe function beats two easily confused ones.
pub fn escape_html(s: &str) -> (r: String)
    ensures
        r@ == escaped(s@),
{
    let mut out = String::new();
    assert(s@.take(0) == Seq::<char>::empty());
    proof {
        reveal_strlit("&amp;");
        reveal_strlit("&lt;");
        reveal_strlit("&gt;");
        reveal_strlit("&quot;");
    }
    for c in it: s.chars()
        invariant
            it.seq() == s@,
            out@ == escaped(s@.take(it.index() as int)),
            "&amp;"@ == escaped_char('&'),
            "&lt;"@ == escaped_char('<'),
            "&gt;"@ == escaped_char('>'),
            "&quot;"@ == escaped_char('"'),
    {
        let ghost after = s@.take(it.index() + 1);
        assert(after.drop_last() == s@.take(it.index() as int));
        assert(after.last() == c);
        match c {
            '&' => out.append("&amp;"),
            '<' => out.append("&lt;"),
            '>' => out.append("&gt;"),
            '"' => out.append("&quot;"),
            _ => out.push(c),
        }
        assert(out@ == escaped(after));
    }
    assert(s@.take(s@.len() as int) == s@);
    out
}

// ---------------------------------------------------------------------------------------
// Pages
// ---------------------------------------------------------------------------------------

/// A complete XHTML page: the title stands in its head and as its first heading, escaped in
/// both places, and the body follows as it is.
pub open spec fn document_of(title: Seq<char>, body: Seq<char>) -> Seq<char> {
    "<?xml version=\"1.0\" encoding=\"UTF-8\"?>\n\
<!DOCTYPE html>\n\
<html xmlns=\"http://www.w3.org/1999/xhtml\" xmlns:epub=\"http://www.idpf.org/2007/ops\">\n\
<head><title>"@
        + escaped(title) + "</title><meta charset=\"utf-8\"/></head>\n<body>\n<h1>"@ + escaped(
        title,
    ) + "</h1>\n"@ + body + "\n</body>\n</html>\n"@
}

/// A page shows its title, escaped, as its only heading of the first rank, and right behind it the
/// body, as it is. The title stands in the head, too.
pub proof fn a_page_shows_its_title_and_its_body(title: Seq<char>, body: Seq<char>)
    ensures
        exists|at: int| #[trigger]
            stands_in(
                document_of(title, body),
                "<body>\n<h1>"@ + escaped(title) + "</h1>\n"@ + body + "\n</body>"@,
                at,
            ),
        exists|at: int| #[trigger]
            stands_in(
                document_of(title, body),
                "<head><title>"@ + escaped(title) + "</title>"@,
                at,
            ),
{
    let page = document_of(title, body);
    let name = escaped(title);
    let start = "<?xml version=\"1.0\" encoding=\"UTF-8\"?>\n\
<!DOCTYPE html>\n\
<html xmlns=\"http://www.w3.org/1999/xhtml\" xmlns:epub=\"http://www.idpf.org/2007/ops\">\n\
<head><title>"@;
    let middle = "</title><meta charset=\"utf-8\"/></head>\n<body>\n<h1>"@;
    let end = "\n</body>\n</html>\n"@;
    reveal_strlit("<body>\n<h1>");
    reveal_strlit("</title><meta charset=\"utf-8\"/></head>\n<body>\n<h1>");
    reveal_strlit("\n</body>");
    reveal_strlit("\n</body>\n</html>\n");
    reveal_strlit("<head><title>");
    reveal_strlit("</title>");
    reveal_strlit(
        "<?xml version=\"1.0\" encoding=\"UTF-8\"?>\n\
<!DOCTYPE html>\n\
<html xmlns=\"http://www.w3.org/1999/xhtml\" xmlns:epub=\"http://www.idpf.org/2007/ops\">\n\
<head><title>",
    );
    assert(page == start + name + middle + name + "</h1>\n"@ + body + end);
    let tail = "<body>\n<h1>"@;
    let cut = middle.len() - tail.len();
    assert(middle.skip(cut) == tail);
    let part = tail + name + "</h1>\n"@ + body + "\n</body>"@;
    let at = start.len() + name.len() + cut;
    assert(end.take(8) == "\n</body>"@);
    assert(page.subrange(at, at + part.len()) == part);
    assert(stands_in(page, part, at));
    let head = "<head><title>"@ + name + "</title>"@;
    let from = start.len() - "<head><title>"@.len();
    assert(start.skip(from) == "<head><title>"@);
    assert(middle.take(8) == "</title>"@);
    assert(page.subrange(from, from + head.len()) == head);
    assert(stands_in(page, head, from));
}

pub fn xhtml_document(title: &str, body: &str) -> (r: String)
    ensures
        r@ == document_of(title@, body@),
{
    let heading = escape_html(title);
    let mut out = String::new();
    out.append(
        "<?xml version=\"1.0\" encoding=\"UTF-8\"?>\n\
<!DOCTYPE html>\n\
<html xmlns=\"http://www.w3.org/1999/xhtml\" xmlns:epub=\"http://www.idpf.org/2007/ops\">\n\
<head><title>",
    );
    out.append(heading.as_str());
    out.append("</title><meta charset=\"utf-8\"/></head>\n<body>\n<h1>");
    out.append(heading.as_str());
    out.append("</h1>\n");
    out.append(body);
    out.append("\n</body>\n</html>\n");
    assert(out@ == document_of(title@, body@));
    out
}

/// A line of text between two tags.
pub open spec fn tagged(open: Seq<char>, text: Seq<char>, close: Seq<char>) -> Seq<char> {
    (open + escaped(text) + close).push('\n')
}

pub fn push_tag(html: &mut String, open: &str, text: &str, close: &str)
    ensures
        final(html)@ == old(html)@ + tagged(open@, text@, close@),
{
    let ghost before = html@;
    let code = escape_html(text);
    html.append(open);
    html.append(code.as_str());
    html.append(close);
    html.push('\n');
    assert(html@ == before + tagged(open@, text@, close@));
}

/// The markup of a block. A picture that is not there leaves nothing behind.
pub open spec fn block_html(block: BlockView, images: Seq<ImageView>) -> Seq<char> {
    match block {
        BlockView::Text(Kind::Heading, text) => tagged("<h2>"@, text, "</h2>"@),
        BlockView::Text(Kind::Paragraph, text) => tagged("<p>"@, text, "</p>"@),
        BlockView::Text(Kind::Caption, text) => tagged("<p class=\"legenda\">"@, text, "</p>"@),
        BlockView::Text(Kind::RightAligned, text) => tagged(
            "<p class=\"direita\">"@,
            text,
            "</p>"@,
        ),
        BlockView::Image(idx) => if idx < images.len() {
            "<img src=\"images/"@ + images[idx as int].filename + "\" alt=\"\"/>\n"@
        } else {
            Seq::empty()
        },
    }
}

/// The markup of some blocks, one after the other.
pub open spec fn html_of(blocks: Seq<BlockView>, images: Seq<ImageView>) -> Seq<char>
    decreases blocks.len(),
{
    if blocks.len() == 0 {
        Seq::empty()
    } else {
        html_of(blocks.drop_last(), images) + block_html(blocks.last(), images)
    }
}

/// Renders blocks to markup: see `block_html`.
pub fn blocks_to_html(blocks: &[Block], images: &[ImageAsset]) -> (r: String)
    ensures
        r@ == html_of(block_views(blocks@), image_views(images@)),
{
    let mut html = String::new();
    let ghost views = block_views(blocks@);
    assert(views.take(0) == Seq::<BlockView>::empty());
    for i in 0..blocks.len()
        invariant
            views == block_views(blocks@),
            html@ == html_of(views.take(i as int), image_views(images@)),
    {
        let ghost before = html@;
        assert(views.take(i + 1).drop_last() == views.take(i as int));
        assert(views.take(i + 1).last() == blocks@[i as int]@);
        match &blocks[i] {
            Block::Heading(t) => push_tag(&mut html, "<h2>", t.as_str(), "</h2>"),
            Block::Paragraph(t) => push_tag(&mut html, "<p>", t.as_str(), "</p>"),
            Block::Caption(t) => push_tag(&mut html, "<p class=\"legenda\">", t.as_str(), "</p>"),
            Block::RightAligned(t) => push_tag(
                &mut html,
                "<p class=\"direita\">",
                t.as_str(),
                "</p>",
            ),
            Block::Image(idx) => {
                if *idx < images.len() {
                    html.append("<img src=\"images/");
                    html.append(images[*idx].filename.as_str());
                    html.append("\" alt=\"\"/>\n");
                }
                assert(html@ == before + block_html(views[i as int], image_views(images@)));
            },
        }
    }
    assert(views.take(blocks@.len() as int) == views);
    html
}

/// The event shows the picture that became the cover.
pub open spec fn is_cover_event(e: EventView, skip: Option<usize>) -> bool {
    e matches EventView::Image(idx) && skip matches Some(cover) && idx == cover
}

/// The events without the picture that became the cover.
pub open spec fn without_cover(events: Seq<EventView>, skip: Option<usize>) -> Seq<EventView> {
    events.filter(|e: EventView| !is_cover_event(e, skip))
}

/// The body of a chapter. The picture that became the cover is not shown again in it.
pub open spec fn body_of(
    events: Seq<EventView>,
    images: Seq<ImageView>,
    skip: Option<usize>,
    m: LayoutMetrics,
) -> Seq<char> {
    html_of(blocks_of(without_cover(events, skip), m), images)
}

/// A heading is a heading of the second rank, a paragraph is a plain one, a caption and a line set
/// flush right are paragraphs of their own classes, and a picture is shown by the path of its
/// file. Texts are escaped. A picture that is not there leaves nothing behind.
pub proof fn every_kind_of_block_has_its_markup(
    text: Seq<char>,
    idx: nat,
    images: Seq<ImageView>,
)
    ensures
        block_html(BlockView::Text(Kind::Heading, text), images) == "<h2>"@ + escaped(text)
            + "</h2>"@ + seq!['\n'],
        block_html(BlockView::Text(Kind::Paragraph, text), images) == "<p>"@ + escaped(text)
            + "</p>"@ + seq!['\n'],
        block_html(BlockView::Text(Kind::Caption, text), images) == "<p class=\"legenda\">"@
            + escaped(text) + "</p>"@ + seq!['\n'],
        block_html(BlockView::Text(Kind::RightAligned, text), images) == "<p class=\"direita\">"@
            + escaped(text) + "</p>"@ + seq!['\n'],
        idx < images.len() ==> block_html(BlockView::Image(idx), images) == "<img src=\""@
            + "images/"@ + images[idx as int].filename + "\" alt=\"\"/>"@ + seq!['\n'],
        idx >= images.len() ==> block_html(BlockView::Image(idx), images).len() == 0,
{
    reveal_strlit("<img src=\"images/");
    reveal_strlit("<img src=\"");
    reveal_strlit("images/");
    reveal_strlit("\" alt=\"\"/>\n");
    reveal_strlit("\" alt=\"\"/>");
    assert("<img src=\"images/"@ == "<img src=\""@ + "images/"@);
    assert("\" alt=\"\"/>\n"@ == "\" alt=\"\"/>"@ + seq!['\n']);
}

/// The markup of blocks is that of the first ones and then that of the others.
pub proof fn blocks_are_rendered_one_by_one(
    a: Seq<BlockView>,
    b: Seq<BlockView>,
    images: Seq<ImageView>,
)
    ensures
        html_of(a + b, images) == html_of(a, images) + html_of(b, images),
        html_of(Seq::empty(), images).len() == 0,
        a.len() == 1 ==> html_of(a, images) == block_html(a[0], images),
    decreases b.len(),
{
    if a.len() == 1 {
        assert(a.drop_last() == Seq::<BlockView>::empty());
        assert(html_of(a.drop_last(), images) == Seq::<char>::empty());
        assert(Seq::<char>::empty() + block_html(a.last(), images) == block_html(
            a.last(),
            images,
        ));
    }
    if b.len() == 0 {
        assert(a + b == a);
        assert(html_of(a, images) + html_of(b, images) == html_of(a, images));
    } else {
        let less = b.drop_last();
        blocks_are_rendered_one_by_one(a, less, images);
        assert((a + b).drop_last() == a + less);
        assert(html_of(a, images) + html_of(less, images) + block_html(b.last(), images)
            == html_of(a, images) + (html_of(less, images) + block_html(b.last(), images)));
    }
}

/// Every picture but the one that became the cover is shown, and so is every line: only that
/// picture is left out, and wherever no cover was taken from the document nothing is.
pub proof fn only_the_cover_is_left_out(
    events: Seq<EventView>,
    e: EventView,
    cover: usize,
)
    ensures
        without_cover(events, None) == events,
        without_cover(events.push(EventView::Image(cover as nat)), Some(cover)) == without_cover(
            events,
            Some(cover),
        ),
        e != EventView::Image(cover as nat) ==> without_cover(events.push(e), Some(cover))
            == without_cover(events, Some(cover)).push(e),
    decreases events.len(),
{
    reveal(Seq::filter);
    assert(events.push(e).drop_last() == events);
    assert(events.push(EventView::Image(cover as nat)).drop_last() == events);
    if events.len() > 0 {
        only_the_cover_is_left_out(events.drop_last(), e, cover);
        assert(events.drop_last().push(events.last()) == events);
    }
}

/// Recovers the chapter's visual structure and renders it. `skip_image` drops the picture that
/// became the cover, so that it is not shown again a page after the cover itself.
pub fn build_body_html(
    events: &[FlowEvent],
    images: &[ImageAsset],
    skip_image: Option<usize>,
    metrics: &LayoutMetrics,
) -> (r: String)
    ensures
        r@ == body_of(event_views(events@), image_views(images@), skip_image, *metrics),
{
    let mut kept: Vec<FlowEvent> = Vec::new();
    let ghost views = event_views(events@);
    let ghost keeps = |e: EventView| !is_cover_event(e, skip_image);
    assert(views.take(0) == Seq::<EventView>::empty());
    assert(event_views(kept@) == without_cover(views.take(0), skip_image)) by {
        reveal(Seq::filter);
    }
    for i in 0..events.len()
        invariant
            views == event_views(events@),
            keeps == (|e: EventView| !is_cover_event(e, skip_image)),
            event_views(kept@) == without_cover(views.take(i as int), skip_image),
    {
        let ghost before = kept@;
        assert(views.take(i + 1).drop_last() == views.take(i as int));
        assert(views.take(i + 1).last() == events@[i as int]@);
        let is_cover = match (&events[i], skip_image) {
            (FlowEvent::Image(idx), Some(cover)) => *idx == cover,
            _ => false,
        };
        if !is_cover {
            kept.push(events[i].clone());
            assert(event_views(kept@) == event_views(before).push(events@[i as int]@));
        }
        assert(event_views(kept@) == without_cover(views.take(i + 1), skip_image)) by {
            reveal(Seq::filter);
        }
    }
    assert(views.take(events@.len() as int) == views);
    let structure = blocks(kept.as_slice(), metrics);
    blocks_to_html(structure.as_slice(), images)
}

// ---------------------------------------------------------------------------------------
// Files of the book
// ---------------------------------------------------------------------------------------

/// The picture became the cover.
pub open spec fn is_skipped(skip: Option<usize>, i: int) -> bool {
    skip matches Some(cover) && cover == i
}

/// The picture belongs in the book, and no picture before it that does has its name.
pub open spec fn is_first_use(images: Seq<ImageView>, skip: Option<usize>, i: int) -> bool {
    &&& !is_skipped(skip, i)
    &&& forall|j: int|
        0 <= j < i && !is_skipped(skip, j) ==> (#[trigger] images[j]).filename
            != images[i].filename
}

/// The pictures to write, by their indices, in order.
pub open spec fn written_indices(images: Seq<ImageView>, skip: Option<usize>) -> Seq<int>
    decreases images.len(),
{
    if images.len() == 0 {
        Seq::empty()
    } else {
        let before = written_indices(images.drop_last(), skip);
        let last = images.len() - 1;
        if is_first_use(images, skip, last) {
            before.push(last)
        } else {
            before
        }
    }
}

proof fn lemma_written_indices(images: Seq<ImageView>, skip: Option<usize>)
    ensures
        forall|k: int|
            0 <= k < written_indices(images, skip).len() ==> 0 <= (#[trigger] written_indices(
                images,
                skip,
            )[k]) < images.len() && is_first_use(images, skip, written_indices(images, skip)[k]),
        forall|a: int, b: int|
            0 <= a < b < written_indices(images, skip).len() ==> (#[trigger] written_indices(
                images,
                skip,
            )[a]) < (#[trigger] written_indices(images, skip)[b]),
        forall|i: int|
            0 <= i < images.len() && #[trigger] is_first_use(images, skip, i) ==> written_indices(
                images,
                skip,
            ).contains(i),
    decreases images.len(),
{
    if images.len() > 0 {
        let less = images.drop_last();
        let before = written_indices(less, skip);
        let all = written_indices(images, skip);
        let last = images.len() - 1;
        lemma_written_indices(less, skip);
        assert forall|i: int| 0 <= i < last implies (#[trigger] is_first_use(images, skip, i)
            == is_first_use(less, skip, i)) by {
            assert forall|j: int| 0 <= j < i implies #[trigger] images[j] == less[j] by {}
            if is_first_use(less, skip, i) {
                assert forall|j: int| 0 <= j < i && !is_skipped(skip, j) implies (
                #[trigger] images[j]).filename != images[i].filename by {
                    assert(less[j].filename != less[i].filename);
                }
            }
            if is_first_use(images, skip, i) {
                assert forall|j: int| 0 <= j < i && !is_skipped(skip, j) implies (
                #[trigger] less[j]).filename != less[i].filename by {
                    assert(images[j].filename != images[i].filename);
                }
            }
        }
        assert forall|k: int| 0 <= k < all.len() implies 0 <= (#[trigger] all[k]) < images.len()
            && is_first_use(images, skip, all[k]) by {
            if k < before.len() {
                assert(before[k] == all[k]);
                assert(is_first_use(less, skip, before[k]));
            }
        }
        assert forall|i: int| 0 <= i < images.len() && #[trigger] is_first_use(
            images,
            skip,
            i,
        ) implies all.contains(i) by {
            if i < last {
                assert(is_first_use(less, skip, i));
                let k = choose|k: int| 0 <= k < before.len() && before[k] == i;
                assert(all[k] == i);
            } else {
                assert(all[all.len() - 1] == i);
            }
        }
    }
}

/// No two of the pictures that are written share a name.
pub proof fn written_names_are_distinct(
    images: Seq<ImageView>,
    skip: Option<usize>,
    a: int,
    b: int,
)
    requires
        0 <= a < b < written_indices(images, skip).len(),
    ensures
        images[written_indices(images, skip)[a]].filename != images[written_indices(
            images,
            skip,
        )[b]].filename,
{
    lemma_written_indices(images, skip);
    let i = written_indices(images, skip)[a];
    let j = written_indices(images, skip)[b];
    assert(is_first_use(images, skip, i));
    assert(is_first_use(images, skip, j));
    assert(images[i].filename != images[j].filename);
}

/// Every picture but the cover has a file of its name in the book, so that a page that shows
/// it finds it there.
pub proof fn every_shown_picture_is_written(images: Seq<ImageView>, skip: Option<usize>, i: int)
    requires
        0 <= i < images.len(),
        !is_skipped(skip, i),
    ensures
        exists|k: int|
            0 <= k < written_indices(images, skip).len() && images[#[trigger] written_indices(
                images,
                skip,
            )[k]].filename == images[i].filename,
    decreases i,
{
    lemma_written_indices(images, skip);
    let all = written_indices(images, skip);
    if is_first_use(images, skip, i) {
        let k = choose|k: int| 0 <= k < all.len() && all[k] == i;
        assert(images[all[k]].filename == images[i].filename);
    } else {
        let j = choose|j: int|
            0 <= j < i && !is_skipped(skip, j) && (#[trigger] images[j]).filename
                == images[i].filename;
        every_shown_picture_is_written(images, skip, j);
    }
}

/// Every picture that the body of a chapter shows has a file of its name in the book.
pub proof fn body_pictures_are_written(
    events: Seq<EventView>,
    images: Seq<ImageView>,
    skip: Option<usize>,
    m: LayoutMetrics,
    idx: nat,
)
    requires
        blocks_of(without_cover(events, skip), m).contains(BlockView::Image(idx)),
        idx < images.len(),
    ensures
        exists|k: int|
            0 <= k < written_indices(images, skip).len() && images[#[trigger] written_indices(
                images,
                skip,
            )[k]].filename == images[idx as int].filename,
{
    let kept = without_cover(events, skip);
    blocks_make_up_no_pictures(kept, m, idx);
    lemma_kept_is_not_cover(events, skip, EventView::Image(idx));
    every_shown_picture_is_written(images, skip, idx as int);
}

proof fn lemma_kept_is_not_cover(events: Seq<EventView>, skip: Option<usize>, e: EventView)
    requires
        without_cover(events, skip).contains(e),
    ensures
        !is_cover_event(e, skip),
    decreases events.len(),
{
    reveal(Seq::filter);
    if events.len() > 0 {
        let all = without_cover(events, skip);
        let less = without_cover(events.drop_last(), skip);
        let k = choose|k: int| 0 <= k < all.len() && all[k] == e;
        if k < less.len() {
            assert(less[k] == e);
            lemma_kept_is_not_cover(events.drop_last(), skip, e);
        }
    }
}

/// The picture that became the cover is not among the files that are written.
pub proof fn the_cover_is_not_written_again(images: Seq<ImageView>, cover: usize)
    ensures
        !written_indices(images, Some(cover)).contains(cover as int),
{
    lemma_written_indices(images, Some(cover));
    let all = written_indices(images, Some(cover));
    if all.contains(cover as int) {
        let k = choose|k: int| 0 <= k < all.len() && all[k] == cover;
        assert(is_first_use(images, Some(cover), all[k]));
    }
}

fn is_first(images: &[ImageAsset], skip_image: Option<usize>, i: usize) -> (r: bool)
    requires
        i < images@.len(),
    ensures
        r == is_first_use(image_views(images@), skip_image, i as int),
{
    let ghost views = image_views(images@);
    if skip_image == Some(i) {
        return false;
    }
    for j in 0..i
        invariant
            i < images@.len(),
            views == image_views(images@),
            !is_skipped(skip_image, i as int),
            forall|k: int|
                0 <= k < j && !is_skipped(skip_image, k) ==> (#[trigger] views[k]).filename
                    != views[i as int].filename,
    {
        if skip_image != Some(j) && images[j].filename == images[i].filename {
            assert(views[j as int].filename == views[i as int].filename);
            return false;
        }
    }
    true
}

/// The pictures that belong in the book as files of their own, each with its index, so that
/// the chapters keep referring to them correctly. The picture that became the cover is left
/// out, and a name that shows up more than once (the same picture drawn on several pages) is
/// written only the first time.
pub fn resources_to_write<'a>(images: &'a [ImageAsset], skip_image: Option<usize>) -> (r: Vec<
    (usize, &'a ImageAsset),
>)
    ensures
        r@.map_values(|p: (usize, &'a ImageAsset)| p.0 as int) == written_indices(
            image_views(images@),
            skip_image,
        ),
        forall|k: int|
            0 <= k < r@.len() ==> (#[trigger] r@[k]).0 < images@.len() && *r@[k].1
                == images@[r@[k].0 as int],
{
    let mut out: Vec<(usize, &'a ImageAsset)> = Vec::new();
    let ghost views = image_views(images@);
    let ghost index = |p: (usize, &'a ImageAsset)| p.0 as int;
    assert(out@.map_values(index) == Seq::<int>::empty());
    for i in 0..images.len()
        invariant
            views == image_views(images@),
            index == (|p: (usize, &'a ImageAsset)| p.0 as int),
            out@.map_values(index) == written_indices(views.take(i as int), skip_image),
            forall|k: int|
                0 <= k < out@.len() ==> (#[trigger] out@[k]).0 < images@.len() && *out@[k].1
                    == images@[out@[k].0 as int],
    {
        let ghost before = out@;
        let ghost now = views.take(i + 1);
        assert(now.drop_last() == views.take(i as int));
        let first = is_first(images, skip_image, i);
        assert(first == is_first_use(now, skip_image, i as int)) by {
            if is_first_use(now, skip_image, i as int) {
                assert forall|j: int| 0 <= j < i && !is_skipped(skip_image, j) implies (
                #[trigger] views[j]).filename != views[i as int].filename by {
                    assert(now[j].filename != now[i as int].filename);
                }
            }
            if is_first_use(views, skip_image, i as int) {
                assert forall|j: int| 0 <= j < i && !is_skipped(skip_image, j) implies (
                #[trigger] now[j]).filename != now[i as int].filename by {
                    assert(views[j].filename != views[i as int].filename);
                }
            }
        }
        if first {
            out.push((i, &images[i]));
            assert(out@.map_values(index) == before.map_values(index).push(i as int));
        }
    }
    assert(views.take(images@.len() as int) == views);
    out
}

/// The title and the body of each chapter that has anything to show. One whose body came out
/// blank (most often a chapter that held nothing but the picture on the cover) would be a dead
/// entry in the table of contents, so it is left out.
pub open spec fn fragments_of(
    chapters: Seq<ChapterView>,
    images: Seq<ImageView>,
    skip: Option<usize>,
    m: LayoutMetrics,
) -> Seq<(Seq<char>, Seq<char>)>
    decreases chapters.len(),
{
    if chapters.len() == 0 {
        Seq::empty()
    } else {
        let before = fragments_of(chapters.drop_last(), images, skip, m);
        let body = body_of(chapters.last().events, images, skip, m);
        if is_blank(body) {
            before
        } else {
            before.push((chapters.last().title, body))
        }
    }
}

/// The fragments are the chapters with anything to show, in their order, each with its own title
/// and the markup of its events. Only a chapter that comes out blank is left out.
pub proof fn fragments_are_the_chapters_with_a_body(
    chapters: Seq<ChapterView>,
    images: Seq<ImageView>,
    skip: Option<usize>,
    m: LayoutMetrics,
)
    ensures
        fragments_of(chapters, images, skip, m) == chapters.filter(
            |c: ChapterView|
                !is_blank(html_of(blocks_of(without_cover(c.events, skip), m), images)),
        ).map_values(
            |c: ChapterView|
                (c.title, html_of(blocks_of(without_cover(c.events, skip), m), images)),
        ),
    decreases chapters.len(),
{
    reveal(Seq::filter);
    let shows = |c: ChapterView|
        !is_blank(html_of(blocks_of(without_cover(c.events, skip), m), images));
    let fragment = |c: ChapterView|
        (c.title, html_of(blocks_of(without_cover(c.events, skip), m), images));
    if chapters.len() > 0 {
        let less = chapters.drop_last();
        fragments_are_the_chapters_with_a_body(less, images, skip, m);
        assert(less.filter(shows).push(chapters.last()).map_values(fragment) == less.filter(
            shows,
        ).map_values(fragment).push(fragment(chapters.last())));
    } else {
        assert(chapters.filter(shows).map_values(fragment) == Seq::<
            (Seq<char>, Seq<char>),
        >::empty());
    }
}

/// The contents of a list of fragments.
pub open spec fn fragment_views(fragments: Seq<ChapterHtml>) -> Seq<(Seq<char>, Seq<char>)> {
    fragments.map_values(|f: ChapterHtml| (f.0@, f.1@))
}

/// The file that holds a picture.
pub open spec fn picture_part(image: ImageView) -> BookPart {
    BookPart::Resource {
        path: "images/"@ + image.filename,
        content: image.bytes,
        mime: image.mime,
    }
}

/// The files of the pictures with these indices.
pub open spec fn picture_parts(images: Seq<ImageView>, indices: Seq<int>) -> Seq<BookPart> {
    indices.map_values(|i: int| picture_part(images[i]))
}

/// The page of the fragment at an index. Pages are numbered from one.
pub open spec fn chapter_part(fragment: (Seq<char>, Seq<char>), i: int) -> BookPart {
    BookPart::Page {
        path: "chap_"@ + decimal2((i + 1) as nat) + ".xhtml"@,
        content: vstd::utf8::encode_utf8(document_of(fragment.0, fragment.1)),
        title: fragment.0,
        role: PageRole::Text,
    }
}

/// The pages of the fragments, in order.
pub open spec fn chapter_parts(fragments: Seq<(Seq<char>, Seq<char>)>) -> Seq<BookPart> {
    Seq::new(fragments.len(), |i: int| chapter_part(fragments[i], i))
}

/// What stands before the pictures and the chapters: the stylesheet, the cover, which is the
/// first thing the reader opens, and the table of contents. The cover's page has no title, so
/// that it is not listed there.
pub open spec fn front_parts(cover: CoverView) -> Seq<BookPart> {
    seq![
        BookPart::Stylesheet { content: vstd::utf8::encode_utf8(STYLESHEET@) },
        BookPart::CoverImage { path: cover.filename, content: cover.bytes, mime: cover.mime },
        BookPart::Page {
            path: "cover.xhtml"@,
            content: vstd::utf8::encode_utf8(cover_page(cover)),
            title: ""@,
            role: PageRole::Cover,
        },
        BookPart::Contents,
    ]
}

/// All parts of a book, in order.
pub open spec fn parts_of(
    chapters: Seq<ChapterView>,
    images: Seq<ImageView>,
    cover: CoverView,
    m: LayoutMetrics,
) -> Seq<BookPart> {
    front_parts(cover) + picture_parts(images, written_indices(images, cover.consumed_image))
        + chapter_parts(fragments_of(chapters, images, cover.consumed_image, m))
}

/// The metadata of a book. A blank author is none.
pub open spec fn metadata_of(title: Seq<char>, author: Seq<char>, lang: Seq<char>) -> Map<
    Seq<char>,
    Seq<Seq<char>>,
> {
    no_metadata().insert("title"@, seq![title]).insert(
        "author"@,
        if is_blank(author) {
            Seq::empty()
        } else {
            seq![author]
        },
    ).insert("lang"@, seq![lang])
}

/// A book begins with its stylesheet, the picture of its cover, the page that shows the cover and
/// the table of contents. The cover's page is not listed there, since it has no title.
pub proof fn a_book_begins_with_its_cover(
    chapters: Seq<ChapterView>,
    images: Seq<ImageView>,
    cover: CoverView,
    m: LayoutMetrics,
)
    ensures
        ({
            let parts = parts_of(chapters, images, cover, m);
            &&& parts.len() >= 4
            &&& parts[0] is Stylesheet
            &&& parts[1] == (BookPart::CoverImage {
                path: cover.filename,
                content: cover.bytes,
                mime: cover.mime,
            })
            &&& parts[2] == (BookPart::Page {
                path: "cover.xhtml"@,
                content: vstd::utf8::encode_utf8(cover_page(cover)),
                title: Seq::empty(),
                role: PageRole::Cover,
            })
            &&& parts[3] is Contents
        }),
{
    reveal_strlit("");
    assert(""@ == Seq::<char>::empty());
}

/// Behind that stand the files of the pictures that pages show, each under its name and with its
/// bytes, and then the pages of the chapters, numbered from one in their order, each with its
/// title in the table of contents.
pub proof fn a_book_holds_its_pictures_and_its_chapters(
    chapters: Seq<ChapterView>,
    images: Seq<ImageView>,
    cover: CoverView,
    m: LayoutMetrics,
    k: int,
    i: int,
)
    ensures
        ({
            let parts = parts_of(chapters, images, cover, m);
            let pictures = written_indices(images, cover.consumed_image);
            let fragments = fragments_of(chapters, images, cover.consumed_image, m);
            let image = images[pictures[k]];
            &&& parts.len() == 4 + pictures.len() + fragments.len()
            &&& 0 <= k < pictures.len() ==> parts[4 + k] == (BookPart::Resource {
                path: "images/"@ + image.filename,
                content: image.bytes,
                mime: image.mime,
            })
            &&& 0 <= i < fragments.len() ==> parts[4 + pictures.len() + i] == (BookPart::Page {
                path: "chap_"@ + decimal2((i + 1) as nat) + ".xhtml"@,
                content: vstd::utf8::encode_utf8(document_of(fragments[i].0, fragments[i].1)),
                title: fragments[i].0,
                role: PageRole::Text,
            })
        }),
{
    let front = front_parts(cover);
    let pictures = picture_parts(images, written_indices(images, cover.consumed_image));
    let pages = chapter_parts(fragments_of(chapters, images, cover.consumed_image, m));
    let parts = parts_of(chapters, images, cover, m);
    assert(front.len() == 4);
    assert(0 <= k < pictures.len() ==> parts[4 + k] == pictures[k]);
    assert(0 <= i < pages.len() ==> parts[4 + pictures.len() + i] == pages[i]);
}

/// A picture has a file of its own where it is not the cover and no picture before it that has a
/// file has its name, and only there. The files stand in the order of the pictures.
pub proof fn first_pictures_of_a_name_are_written(
    images: Seq<ImageView>,
    skip: Option<usize>,
    i: int,
)
    requires
        0 <= i < images.len(),
    ensures
        written_indices(images, skip).contains(i) <==> (skip != Some(i as usize) || i
            > usize::MAX) && forall|j: int|
            0 <= j < i && (skip != Some(j as usize) || j > usize::MAX) ==> (
            #[trigger] images[j]).filename != images[i].filename,
        forall|a: int, b: int|
            0 <= a < b < written_indices(images, skip).len() ==> (#[trigger] written_indices(
                images,
                skip,
            )[a]) < (#[trigger] written_indices(images, skip)[b]),
{
    lemma_written_indices(images, skip);
    let all = written_indices(images, skip);
    assert forall|j: int| 0 <= j <= i implies is_skipped(skip, j) == !(skip != Some(j as usize) || j
        > usize::MAX) by {}
    if all.contains(i) {
        let k = choose|k: int| 0 <= k < all.len() && all[k] == i;
        assert(is_first_use(images, skip, all[k]));
    }
    if (skip != Some(i as usize) || i > usize::MAX) && forall|j: int|
        0 <= j < i && (skip != Some(j as usize) || j > usize::MAX) ==> (
        #[trigger] images[j]).filename != images[i].filename {
        assert(is_first_use(images, skip, i));
    }
}

/// The metadata of a book are its title, its language and, unless it is blank, its author.
pub proof fn a_book_states_what_it_was_given(
    title: Seq<char>,
    author: Seq<char>,
    lang: Seq<char>,
)
    ensures
        metadata_of(title, author, lang)["title"@] == seq![title],
        metadata_of(title, author, lang)["lang"@] == seq![lang],
        is_blank(author) ==> metadata_of(title, author, lang)["author"@].len() == 0,
        !is_blank(author) ==> metadata_of(title, author, lang)["author"@] == seq![author],
{
    reveal_strlit("title");
    reveal_strlit("author");
    reveal_strlit("lang");
    assert("title"@.len() == 5 && "author"@.len() == 6 && "lang"@.len() == 4);
}

proof fn lemma_front_paths(cover: CoverView)
    requires
        cover.filename == "cover.jpg"@ || cover.filename == "cover.png"@,
    ensures
        forall|a: int, b: int|
            0 <= a < b < 4 ==> part_path(#[trigger] front_parts(cover)[a]) != part_path(
                #[trigger] front_parts(cover)[b],
            ),
        forall|a: int|
            0 <= a < 4 ==> part_path(#[trigger] front_parts(cover)[a]).len() > 1 && part_path(
                front_parts(cover)[a],
            )[0] != 'i' && part_path(front_parts(cover)[a])[1] != 'h',
{
    reveal_strlit("stylesheet.css");
    reveal_strlit("cover.xhtml");
    reveal_strlit("cover.jpg");
    reveal_strlit("cover.png");
    reveal_strlit("toc.xhtml");
    let parts = front_parts(cover);
    assert(part_path(parts[0]) == "stylesheet.css"@);
    assert(part_path(parts[1]) == cover.filename);
    assert(part_path(parts[2]) == "cover.xhtml"@);
    assert(part_path(parts[3]) == "toc.xhtml"@);
    assert("cover.jpg"@.len() == 9 && "cover.png"@.len() == 9 && "toc.xhtml"@.len() == 9);
    assert("stylesheet.css"@.len() == 14 && "cover.xhtml"@.len() == 11);
    assert("cover.jpg"@[0] == 'c' && "cover.png"@[0] == 'c' && "toc.xhtml"@[0] == 't');
    assert("stylesheet.css"@[0] == 's' && "cover.xhtml"@[0] == 'c');
    assert("cover.jpg"@[1] == 'o' && "cover.png"@[1] == 'o' && "toc.xhtml"@[1] == 'o');
    assert("stylesheet.css"@[1] == 't' && "cover.xhtml"@[1] == 'o');
}

proof fn lemma_picture_paths(images: Seq<ImageView>, skip: Option<usize>)
    ensures
        forall|a: int|
            0 <= a < written_indices(images, skip).len() ==> part_path(
                #[trigger] picture_parts(images, written_indices(images, skip))[a],
            ).len() > 1 && part_path(
                picture_parts(images, written_indices(images, skip))[a],
            )[0] == 'i',
        forall|a: int, b: int|
            0 <= a < b < written_indices(images, skip).len() ==> part_path(
                #[trigger] picture_parts(images, written_indices(images, skip))[a],
            ) != part_path(#[trigger] picture_parts(images, written_indices(images, skip))[b]),
{
    reveal_strlit("images/");
    let indices = written_indices(images, skip);
    let parts = picture_parts(images, indices);
    assert("images/"@.len() == 7 && "images/"@[0] == 'i');
    assert forall|a: int| 0 <= a < indices.len() implies part_path(#[trigger] parts[a])
        == "images/"@ + images[indices[a]].filename by {}
    assert forall|a: int, b: int| 0 <= a < b < indices.len() implies part_path(
        #[trigger] parts[a],
    ) != part_path(#[trigger] parts[b]) by {
        written_names_are_distinct(images, skip, a, b);
        let one = part_path(parts[a]);
        let other = part_path(parts[b]);
        assert(one.skip(7) == images[indices[a]].filename);
        assert(other.skip(7) == images[indices[b]].filename);
    }
}

proof fn lemma_chapter_paths(fragments: Seq<(Seq<char>, Seq<char>)>)
    ensures
        forall|a: int|
            0 <= a < fragments.len() ==> part_path(#[trigger] chapter_parts(fragments)[a]).len()
                > 1 && part_path(chapter_parts(fragments)[a])[0] == 'c' && part_path(
                chapter_parts(fragments)[a],
            )[1] == 'h',
        forall|a: int, b: int|
            0 <= a < b < fragments.len() ==> part_path(#[trigger] chapter_parts(fragments)[a])
                != part_path(#[trigger] chapter_parts(fragments)[b]),
{
    reveal_strlit("chap_");
    reveal_strlit(".xhtml");
    let parts = chapter_parts(fragments);
    assert("chap_"@.len() == 5 && "chap_"@[0] == 'c' && "chap_"@[1] == 'h');
    assert(".xhtml"@.len() == 6);
    assert forall|a: int| 0 <= a < fragments.len() implies part_path(#[trigger] parts[a])
        == "chap_"@ + decimal2((a + 1) as nat) + ".xhtml"@ by {}
    assert forall|a: int, b: int| 0 <= a < b < fragments.len() implies part_path(
        #[trigger] parts[a],
    ) != part_path(#[trigger] parts[b]) by {
        let one = part_path(parts[a]);
        let other = part_path(parts[b]);
        assert(one.subrange(5, one.len() - 6) == decimal2((a + 1) as nat));
        assert(other.subrange(5, other.len() - 6) == decimal2((b + 1) as nat));
        two_digit_numbers_differ((a + 1) as nat, (b + 1) as nat);
    }
}

/// No two parts of a book stand at the same place in its archive, whatever the pictures are
/// called, as long as the cover has one of the names that covers are given.
pub proof fn book_paths_are_distinct(
    chapters: Seq<ChapterView>,
    images: Seq<ImageView>,
    cover: CoverView,
    m: LayoutMetrics,
    a: int,
    b: int,
)
    requires
        cover.filename == "cover.jpg"@ || cover.filename == "cover.png"@,
        0 <= a < b < parts_of(chapters, images, cover, m).len(),
    ensures
        part_path(parts_of(chapters, images, cover, m)[a]) != part_path(
            parts_of(chapters, images, cover, m)[b],
        ),
{
    let skip = cover.consumed_image;
    let front = front_parts(cover);
    let pictures = picture_parts(images, written_indices(images, skip));
    let pages = chapter_parts(fragments_of(chapters, images, skip, m));
    let all = parts_of(chapters, images, cover, m);
    lemma_front_paths(cover);
    lemma_picture_paths(images, skip);
    lemma_chapter_paths(fragments_of(chapters, images, skip, m));
    let n = front.len() as int;
    let p = n + pictures.len();
    assert(n == 4);
    assert(all[a] == if a < n {
        front[a]
    } else if a < p {
        pictures[a - n]
    } else {
        pages[a - p]
    });
    assert(all[b] == if b < n {
        front[b]
    } else if b < p {
        pictures[b - n]
    } else {
        pages[b - p]
    });
}

/// The parts of a book stand at places of their own, and leave those of the builder alone, as long
/// as the cover has one of the names that covers are given. So an ordinary book is always written.
pub proof fn a_book_leaves_room_for_its_lists(
    chapters: Seq<ChapterView>,
    images: Seq<ImageView>,
    cover: CoverView,
    m: LayoutMetrics,
)
    requires
        cover.filename == "cover.jpg"@ || cover.filename == "cover.png"@,
    ensures
        paths_differ(parts_of(chapters, images, cover, m)),
        leaves_room(parts_of(chapters, images, cover, m)),
{
    let skip = cover.consumed_image;
    let front = front_parts(cover);
    let pictures = picture_parts(images, written_indices(images, skip));
    let pages = chapter_parts(fragments_of(chapters, images, skip, m));
    let all = parts_of(chapters, images, cover, m);
    assert forall|i: int, j: int|
        0 <= i < j < all.len() && !(all[i] is Contents) && !(all[j] is Contents) implies part_path(
        #[trigger] all[i],
    ) != part_path(#[trigger] all[j]) by {
        book_paths_are_distinct(chapters, images, cover, m, i, j);
    }
    lemma_picture_paths(images, skip);
    lemma_chapter_paths(fragments_of(chapters, images, skip, m));
    reveal_strlit("stylesheet.css");
    reveal_strlit("cover.xhtml");
    reveal_strlit("cover.jpg");
    reveal_strlit("cover.png");
    reveal_strlit("content.opf");
    reveal_strlit("toc.ncx");
    reveal_strlit("nav.xhtml");
    reveal_strlit("toc.xhtml");
    let lists = seq!["content.opf"@, "toc.ncx"@, "nav.xhtml"@, "toc.xhtml"@];
    assert("content.opf"@[0] == 'c' && "content.opf"@[1] == 'o' && "content.opf"@[2] == 'n');
    assert("toc.ncx"@[0] == 't' && "nav.xhtml"@[0] == 'n' && "toc.xhtml"@[0] == 't');
    assert("cover.xhtml"@[0] == 'c' && "cover.xhtml"@[2] == 'v');
    assert("cover.jpg"@[0] == 'c' && "cover.jpg"@[2] == 'v');
    assert("cover.png"@[0] == 'c' && "cover.png"@[2] == 'v');
    assert("stylesheet.css"@[0] == 's');
    assert forall|k: int, i: int|
        0 <= k < 4 && 0 <= i < all.len() && !(all[i] is Contents) implies part_path(
        #[trigger] all[i],
    ) != #[trigger] lists[k] by {
        let n = front.len() as int;
        let p = n + pictures.len();
        assert(n == 4);
        if i < n {
            assert(all[i] == front[i]);
        } else if i < p {
            assert(all[i] == pictures[i - n]);
        } else {
            assert(all[i] == pages[i - p]);
        }
    }
    assert(lists[0] == "content.opf"@ && lists[1] == "toc.ncx"@);
    assert(lists[2] == "nav.xhtml"@ && lists[3] == "toc.xhtml"@);
    assert(all[0] == front[0]);
    assert(has_stylesheet(all));
}

/// The paths of a book's parts are plain, as long as its pictures and its cover have names that
/// pictures and covers are given.
pub proof fn a_book_has_plain_paths(
    chapters: Seq<ChapterView>,
    images: Seq<ImageView>,
    cover: CoverView,
    m: LayoutMetrics,
)
    requires
        cover.filename == "cover.jpg"@ || cover.filename == "cover.png"@,
        forall|i: int| 0 <= i < images.len() ==> is_named_here(#[trigger] images[i]),
    ensures
        have_plain_paths(parts_of(chapters, images, cover, m)),
{
    let skip = cover.consumed_image;
    let front = front_parts(cover);
    let indices = written_indices(images, skip);
    let pictures = picture_parts(images, indices);
    let fragments = fragments_of(chapters, images, skip, m);
    let pages = chapter_parts(fragments);
    let all = parts_of(chapters, images, cover, m);
    lemma_written_indices(images, skip);
    reveal_strlit("stylesheet.css");
    reveal_strlit("cover.xhtml");
    reveal_strlit("cover.jpg");
    reveal_strlit("cover.png");
    reveal_strlit("toc.xhtml");
    reveal_strlit("images/img_");
    reveal_strlit("imagesjpn");
    reveal_strlit("chap_");
    reveal_strlit(".xhtml");
    assert forall|i: int| 0 <= i < all.len() implies is_plain_path(
        part_path(#[trigger] all[i]),
    ) by {
        let n = front.len() as int;
        let p = n + pictures.len();
        assert(n == 4);
        if i < n {
            assert(all[i] == front[i]);
        } else if i < p {
            let image = images[indices[i - n]];
            assert(all[i] == pictures[i - n]);
            assert(is_named_here(image));
            picture_paths_are_simple(image);
            let path = "images/"@ + image.filename;
            assert("images/img_"@[0] == 'i' && path[0] == "images/img_"@[0]);
        } else {
            let k = i - p;
            let path = part_path(pages[k]);
            let number = decimal2((k + 1) as nat);
            assert(all[i] == pages[k]);
            assert(path == "chap_"@ + number + ".xhtml"@);
            crate::text::lemma_decimal_digits((k + 1) as nat);
            assert forall|j: int| 0 <= j < path.len() implies path[j] != '\\' && path[j] != ':' by {
                if j < 5 {
                    assert(path[j] == "chap_"@[j]);
                } else if j < 5 + number.len() {
                    assert(path[j] == number[j - 5]);
                } else {
                    assert(path[j] == ".xhtml"@[j - 5 - number.len()]);
                }
            }
            assert(path[0] == "chap_"@[0]);
        }
    }
}

/// The names of the files fit an archive.
pub open spec fn names_fit(images: Seq<ImageView>, cover: CoverView) -> bool {
    &&& fits_entry(cover.filename)
    &&& forall|i: int|
        0 <= i < images.len() ==> fits_entry("images/"@ + (#[trigger] images[i]).filename)
}

/// Whether the names of the pictures and of the cover fit an archive: see `names_fit`.
pub fn check_names(images: &[ImageAsset], cover: &Cover) -> (r: bool)
    ensures
        r == names_fit(image_views(images@), cover@),
{
    let ghost views = image_views(images@);
    if cover.filename.as_str().as_bytes().len() > 65_529 {
        return false;
    }
    for i in 0..images.len()
        invariant
            views == image_views(images@),
            forall|k: int|
                0 <= k < i ==> fits_entry("images/"@ + (#[trigger] views[k]).filename),
    {
        let mut path: String = "images/".to_owned();
        path.append(images[i].filename.as_str());
        assert(path@ == "images/"@ + views[i as int].filename);
        if path.as_str().as_bytes().len() > 65_529 {
            return false;
        }
    }
    true
}

/// Adding parts to a book is decided by their paths: it succeeds exactly where each of them stands
/// at a place of its own. Nothing is said of books that are not ordinary.
pub open spec fn all_decided(before: Seq<BookPart>, added: Seq<BookPart>, ok: bool) -> bool {
    are_ordinary(before + added) && paths_differ(before) ==> ok == paths_differ(before + added)
}

/// Where one more part cannot be added, the rest of the parts cannot be, either.
proof fn lemma_stuck(before: Seq<BookPart>, added: Seq<BookPart>, k: int)
    requires
        0 <= k < added.len(),
        are_ordinary((before + added.take(k)).push(added[k])) && paths_differ(
            before + added.take(k),
        ) ==> !paths_differ((before + added.take(k)).push(added[k])),
        paths_differ(before + added) ==> paths_differ(before + added.take(k)),
    ensures
        all_decided(before, added, false),
{
    let all = before + added;
    let next = (before + added.take(k)).push(added[k]);
    assert(all.take(before.len() + k + 1) == next);
    lemma_fewer_parts(all, before.len() + k + 1);
}

/// Where one more part could be added, it stands at a place of its own.
proof fn lemma_one_more(before: Seq<BookPart>, added: Seq<BookPart>, k: int)
    requires
        0 <= k < added.len(),
        are_ordinary((before + added.take(k)).push(added[k])) && paths_differ(
            before + added.take(k),
        ) ==> paths_differ((before + added.take(k)).push(added[k])),
        are_ordinary(before + added) && paths_differ(before) ==> paths_differ(
            before + added.take(k),
        ),
    ensures
        before + added.take(k + 1) == (before + added.take(k)).push(added[k]),
        are_ordinary(before + added) && paths_differ(before) ==> paths_differ(
            before + added.take(k + 1),
        ),
{
    let all = before + added;
    let next = (before + added.take(k)).push(added[k]);
    assert(before + added.take(k + 1) == next);
    assert(all.take(before.len() + k + 1) == next);
    lemma_fewer_parts(all, before.len() + k + 1);
}

proof fn lemma_paths_of_fewer(before: Seq<BookPart>, added: Seq<BookPart>, k: int)
    requires
        0 <= k <= added.len(),
    ensures
        paths_differ(before + added) ==> paths_differ(before + added.take(k)),
{
    assert((before + added).take(before.len() + k) == before + added.take(k));
    lemma_fewer_parts(before + added, before.len() + k);
}

fn add_front(book: &mut BookWriter, cover: &Cover) -> (r: Result<(), String>)
    requires
        fits_entry(cover.filename@),
    ensures
        r is Ok ==> book_parts(*final(book)) == book_parts(*old(book)) + front_parts(cover@)
            && book_metadata(*final(book)) == book_metadata(*old(book)),
        all_decided(book_parts(*old(book)), front_parts(cover@), r is Ok),
{
    let ghost before = book_parts(*book);
    let ghost front = front_parts(cover@);
    proof {
        lemma_paths_of_fewer(before, front, 0);
        lemma_paths_of_fewer(before, front, 1);
        lemma_paths_of_fewer(before, front, 2);
        assert(before + front.take(0) == before);
        reveal_strlit("cover.xhtml");
        lemma_byte_length("cover.xhtml"@);
    }
    if let Err(e) = set_stylesheet(book, STYLESHEET.as_bytes()) {
        proof {
            lemma_stuck(before, front, 0);
        }
        return Err(e);
    }
    proof {
        lemma_one_more(before, front, 0);
    }
    // The cover goes in before the contents: the reading order is the order of these calls,
    // and the cover page must be the first thing the reader opens.
    if let Err(e) = add_cover_image(
        book,
        cover.filename.as_str(),
        cover.bytes.as_slice(),
        cover.mime,
    ) {
        proof {
            lemma_stuck(before, front, 1);
        }
        return Err(e);
    }
    proof {
        lemma_one_more(before, front, 1);
    }
    let page = cover_xhtml(cover);
    if let Err(e) = add_page(
        book,
        "cover.xhtml",
        page.as_str().as_bytes(),
        "",
        PageRole::Cover,
    ) {
        proof {
            lemma_stuck(before, front, 2);
        }
        return Err(e);
    }
    proof {
        lemma_one_more(before, front, 2);
        let written = before + front.take(3);
        let all = before + front;
        assert(all == written.push(BookPart::Contents));
        assert(paths_differ(written) ==> paths_differ(all));
    }
    add_contents(book);
    Ok(())
}

fn add_pictures(book: &mut BookWriter, images: &[ImageAsset], skip_image: Option<usize>) -> (r:
    Result<(), String>)
    requires
        forall|i: int|
            0 <= i < images@.len() ==> fits_entry(
                "images/"@ + (#[trigger] image_views(images@)[i]).filename,
            ),
    ensures
        r is Ok ==> book_parts(*final(book)) == book_parts(*old(book)) + picture_parts(
            image_views(images@),
            written_indices(image_views(images@), skip_image),
        ) && book_metadata(*final(book)) == book_metadata(*old(book)),
        all_decided(
            book_parts(*old(book)),
            picture_parts(
                image_views(images@),
                written_indices(image_views(images@), skip_image),
            ),
            r is Ok,
        ),
{
    let ghost before = book_parts(*book);
    let ghost metadata = book_metadata(*book);
    let ghost views = image_views(images@);
    let resources = resources_to_write(images, skip_image);
    let ghost index = |p: (usize, &ImageAsset)| p.0 as int;
    let ghost indices = resources@.map_values(index);
    let ghost parts = picture_parts(views, indices);
    assert(before + parts.take(0) == before);
    for k in 0..resources.len()
        invariant
            views == image_views(images@),
            index == (|p: (usize, &ImageAsset)| p.0 as int),
            indices == resources@.map_values(index),
            parts == picture_parts(views, indices),
            forall|k: int|
                0 <= k < resources@.len() ==> (#[trigger] resources@[k]).0 < images@.len()
                    && *resources@[k].1 == images@[resources@[k].0 as int],
            forall|i: int|
                0 <= i < images@.len() ==> fits_entry(
                    "images/"@ + (#[trigger] views[i]).filename,
                ),
            book_parts(*book) == before + parts.take(k as int),
            book_metadata(*book) == metadata,
            are_ordinary(before + parts) && paths_differ(before) ==> paths_differ(
                before + parts.take(k as int),
            ),
            before == book_parts(*old(book)),
            parts.len() == resources@.len(),
            parts == picture_parts(views, written_indices(views, skip_image)),
    {
        let (at, image) = resources[k];
        let mut path: String = "images/".to_owned();
        path.append(image.filename.as_str());
        assert(views[at as int] == image@);
        assert(path@ == "images/"@ + views[at as int].filename);
        assert(indices[k as int] == at);
        assert(parts[k as int] == picture_part(image@));
        proof {
            lemma_paths_of_fewer(before, parts, k as int);
        }
        if let Err(e) = add_resource(book, path.as_str(), image.bytes.as_slice(), image.mime) {
            proof {
                lemma_stuck(before, parts, k as int);
            }
            return Err(e);
        }
        proof {
            lemma_one_more(before, parts, k as int);
        }
        assert(before + parts.take(k + 1) == (before + parts.take(k as int)).push(
            parts[k as int],
        ));
    }
    assert(parts.take(resources@.len() as int) == parts);
    Ok(())
}

proof fn lemma_fragments_grow(
    chapters: Seq<ChapterView>,
    images: Seq<ImageView>,
    skip: Option<usize>,
    m: LayoutMetrics,
    n: int,
)
    requires
        0 <= n <= chapters.len(),
    ensures
        ({
            let some = fragments_of(chapters.take(n), images, skip, m);
            let all = fragments_of(chapters, images, skip, m);
            some.len() <= all.len() && all.take(some.len() as int) == some
        }),
    decreases chapters.len(),
{
    let some = fragments_of(chapters.take(n), images, skip, m);
    let all = fragments_of(chapters, images, skip, m);
    if n == chapters.len() {
        assert(chapters.take(n) == chapters);
        assert(all.take(some.len() as int) == some);
    } else {
        let less = chapters.drop_last();
        assert(less.take(n) == chapters.take(n));
        lemma_fragments_grow(less, images, skip, m, n);
        let before = fragments_of(less, images, skip, m);
        assert(all.take(some.len() as int) == before.take(some.len() as int));
    }
}

proof fn lemma_chapter_path_fits(n: nat)
    requires
        n <= 0x1_0000_0000_0000_0000,
    ensures
        fits_entry("chap_"@ + decimal2(n) + ".xhtml"@),
{
    reveal_strlit("chap_");
    reveal_strlit(".xhtml");
    reveal_with_fuel(power_of_ten, 21);
    assert(power_of_ten(20) == 100_000_000_000_000_000_000);
    lemma_decimal_length(n, 20);
    lemma_byte_length("chap_"@ + decimal2(n) + ".xhtml"@);
}

fn add_chapters(
    book: &mut BookWriter,
    chapters: &[Chapter],
    images: &[ImageAsset],
    skip_image: Option<usize>,
    metrics: &LayoutMetrics,
) -> (r: Result<Vec<ChapterHtml>, String>)
    ensures
        r matches Ok(fragments) ==> fragment_views(fragments@) == fragments_of(
            chapter_views(chapters@),
            image_views(images@),
            skip_image,
            *metrics,
        ) && book_parts(*final(book)) == book_parts(*old(book)) + chapter_parts(
            fragment_views(fragments@),
        ) && book_metadata(*final(book)) == book_metadata(*old(book)),
        all_decided(
            book_parts(*old(book)),
            chapter_parts(
                fragments_of(
                    chapter_views(chapters@),
                    image_views(images@),
                    skip_image,
                    *metrics,
                ),
            ),
            r is Ok,
        ),
{
    let ghost before = book_parts(*book);
    let ghost metadata = book_metadata(*book);
    let ghost views = chapter_views(chapters@);
    let mut fragments: Vec<ChapterHtml> = Vec::new();
    assert(views.take(0) == Seq::<ChapterView>::empty());
    assert(fragment_views(fragments@) == Seq::<(Seq<char>, Seq<char>)>::empty());
    assert(before + chapter_parts(fragment_views(fragments@)) == before);
    let ghost all = fragments_of(views, image_views(images@), skip_image, *metrics);
    let ghost parts = chapter_parts(all);
    for i in 0..chapters.len()
        invariant
            views == chapter_views(chapters@),
            all == fragments_of(views, image_views(images@), skip_image, *metrics),
            parts == chapter_parts(all),
            before == book_parts(*old(book)),
            are_ordinary(before + parts) && paths_differ(before) ==> paths_differ(
                before + chapter_parts(fragment_views(fragments@)),
            ),
            fragments@.len() <= i,
            fragment_views(fragments@) == fragments_of(
                views.take(i as int),
                image_views(images@),
                skip_image,
                *metrics,
            ),
            book_parts(*book) == before + chapter_parts(fragment_views(fragments@)),
            book_metadata(*book) == metadata,
    {
        assert(views.take(i + 1).drop_last() == views.take(i as int));
        assert(views.take(i + 1).last() == chapters@[i as int]@);
        let chapter = &chapters[i];
        let body = build_body_html(chapter.events.as_slice(), images, skip_image, metrics);
        if !body.as_str().trim().is_empty() {
            let doc = xhtml_document(chapter.title.as_str(), body.as_str());
            let mut path: String = "chap_".to_owned();
            push_decimal2(&mut path, (fragments.len() + 1) as u128);
            path.append(".xhtml");
            let ghost name = "chap_"@ + decimal2((fragments@.len() + 1) as nat) + ".xhtml"@;
            assert(path@ == name);
            let ghost held = fragment_views(fragments@);
            let ghost fragment = (chapter.title@, body@);
            let ghost k = held.len() as int;
            proof {
                lemma_fragments_grow(views, image_views(images@), skip_image, *metrics, i + 1);
                assert(held.push(fragment) == all.take(k + 1));
                assert(all[k] == all.take(k + 1)[k]);
                assert(held.push(fragment).drop_last() == held);
                assert(all.take(k + 1).drop_last() == all.take(k));
                assert(chapter_parts(held) == parts.take(k));
                assert(parts[k] == chapter_part(fragment, k));
                lemma_paths_of_fewer(before, parts, k);
                lemma_chapter_path_fits((k + 1) as nat);
            }
            if let Err(e) = add_page(
                book,
                path.as_str(),
                doc.as_str().as_bytes(),
                chapter.title.as_str(),
                PageRole::Text,
            ) {
                proof {
                    lemma_stuck(before, parts, k);
                }
                return Err(e);
            }
            proof {
                lemma_one_more(before, parts, k);
                assert(chapter_parts(held.push(fragment)) == parts.take(k + 1));
            }
            fragments.push((chapter.title.clone(), body));
            assert(fragment_views(fragments@) == held.push(fragment));
            assert(before + chapter_parts(held.push(fragment)) == (before + chapter_parts(
                held,
            )).push(chapter_part(fragment, held.len() as int)));
        }
    }
    assert(views.take(chapters@.len() as int) == views);
    Ok(fragments)
}

/// Puts a book together: see `parts_of` and `metadata_of`. Also hands out the fragments that
/// the chapter pages were made of. Of an ordinary book it fails exactly where two parts stand at
/// one place.
pub fn assemble_book(
    chapters: &[Chapter],
    images: &[ImageAsset],
    cover: &Cover,
    metrics: &LayoutMetrics,
    title: &str,
    author: &str,
    lang: &str,
) -> (r: Result<(BookWriter, Vec<ChapterHtml>), String>)
    requires
        names_fit(image_views(images@), cover@),
    ensures
        ({
            let parts = parts_of(
                chapter_views(chapters@),
                image_views(images@),
                cover@,
                *metrics,
            );
            are_ordinary(parts) ==> (r is Ok) == paths_differ(parts)
        }),
        r matches Ok((book, fragments)) ==> book_parts(book) == parts_of(
            chapter_views(chapters@),
            image_views(images@),
            cover@,
            *metrics,
        ) && book_metadata(book) == metadata_of(title@, author@, lang@) && fragment_views(
            fragments@,
        ) == fragments_of(
            chapter_views(chapters@),
            image_views(images@),
            cover.consumed_image,
            *metrics,
        ),
{
    let mut book = begin_book()?;
    set_title(&mut book, title);
    if !author.trim().is_empty() {
        proof {
            reveal_strlit("title");
            reveal_strlit("author");
            assert("title"@.len() != "author"@.len());
        }
        add_author(&mut book, author);
    }
    set_language(&mut book, lang);
    proof {
        reveal_strlit("title");
        reveal_strlit("author");
        reveal_strlit("lang");
        assert("title"@.len() == 5 && "author"@.len() == 6 && "lang"@.len() == 4);
        assert(Seq::<Seq<char>>::empty().push(author@) == seq![author@]);
        assert(book_metadata(book) == metadata_of(title@, author@, lang@));
    }
    let ghost front = front_parts(cover@);
    let ghost pictures = picture_parts(
        image_views(images@),
        written_indices(image_views(images@), cover.consumed_image),
    );
    let ghost parts = parts_of(
        chapter_views(chapters@),
        image_views(images@),
        cover@,
        *metrics,
    );
    proof {
        let some = front + pictures;
        assert(Seq::<BookPart>::empty() + front == front);
        assert(parts.take(front.len() as int) == front);
        assert(parts.take(some.len() as int) == some);
        lemma_fewer_parts(parts, front.len() as int);
        lemma_fewer_parts(parts, some.len() as int);
    }
    add_front(&mut book, cover)?;
    add_pictures(&mut book, images, cover.consumed_image)?;
    let fragments = add_chapters(&mut book, chapters, images, cover.consumed_image, metrics)?;
    assert(book_parts(book) == parts_of(
        chapter_views(chapters@),
        image_views(images@),
        cover@,
        *metrics,
    ));
    Ok((book, fragments))
}

/// Builds the book and hands out the bytes of its archive, along with the fragments that its
/// chapter pages were made of. Of an ordinary book it fails exactly where two parts, or a part and
/// a list that the builder writes, stand at one place. The archive also holds the time and an
/// identifier drawn at random, of which nothing is said.
pub fn build_epub(
    chapters: &[Chapter],
    images: &[ImageAsset],
    cover: &Cover,
    metrics: &LayoutMetrics,
    title: &str,
    author: &str,
    lang: &str,
) -> (r: Result<(Vec<u8>, Vec<ChapterHtml>), String>)
    requires
        names_fit(image_views(images@), cover@),
    ensures
        ({
            let parts = parts_of(
                chapter_views(chapters@),
                image_views(images@),
                cover@,
                *metrics,
            );
            is_ordinary_book(parts, metadata_of(title@, author@, lang@)) ==> (r is Ok) == (
            paths_differ(parts) && leaves_room(parts))
        }),
        ({
            let parts = parts_of(
                chapter_views(chapters@),
                image_views(images@),
                cover@,
                *metrics,
            );
            have_plain_paths(parts) ==> (r matches Ok((bytes, _)) ==> archive_contents(bytes@) == (
                archived_parts(parts),
                metadata_of(title@, author@, lang@),
            ))
        }),
        r matches Ok((bytes, fragments)) ==> fragment_views(fragments@) == fragments_of(
            chapter_views(chapters@),
            image_views(images@),
            cover.consumed_image,
            *metrics,
        ),
{
    let (book, fragments) = assemble_book(chapters, images, cover, metrics, title, author, lang)?;
    assert(book_parts(book)[0] is Stylesheet);
    let bytes = finish_book(book)?;
    Ok((bytes, fragments))
}

} // verus!
