//! The steps of a conversion and what is reported of them.
use vstd::prelude::*;

use crate::chapters::{
    baseline_of, body_events, chapter_events, chapters_keep_every_event, chapters_of,
    detect_chapters, document_flow, flow_of, heading_messages, ChapterView,
};
use crate::cover::{Cover, CoverView};
use crate::epub_gen::{
    build_epub, document_of, fragments_of, metadata_of, names_fit, parts_of, without_cover,
};
use crate::epub_writer::{
    a_text_without_returns_stays, archive_contents, archived_parts, have_plain_paths,
    is_ordinary_book, leaves_room, paths_differ, BookPart, PageRole,
};
use crate::layout::{
    blocks_glyphs, blocks_keep_the_reading_order, blocks_of, flow_glyphs,
    is_visible, measure, metrics_of, visible, Glyph, LayoutMetrics,
};
use crate::pdf_model::{image_views, DocView, EventView, ExtractedDoc};
use crate::preview::{preview_of, preview_page};
use crate::session::{MessageView, Outcome, ProgressMsg};
use crate::text::{
    decimal, decimal2, joined, one_decimal, percent, push_decimal, push_one_decimal, push_percent,
    stands_in, texts,
};

verus! {

/// A step of a conversion, in the order in which the steps are taken.
#[derive(Debug, Clone, Copy, PartialEq, Eq, Structural)]
pub enum Step {
    Extract,
    ChooseCover,
    FindChapters,
    BuildBook,
    BuildPreview,
}

/// What a step is called.
pub open spec fn step_name(step: Step) -> Seq<char> {
    match step {
        Step::Extract => "Extraindo texto e imagens do PDF"@,
        Step::ChooseCover => "Escolhendo a capa"@,
        Step::FindChapters => "Detectando capítulos"@,
        Step::BuildBook => "Gerando EPUB"@,
        Step::BuildPreview => "Gerando preview HTML"@,
    }
}

/// The step after a step that went well.
pub open spec fn next_step(step: Step) -> Option<Step> {
    match step {
        Step::Extract => Some(Step::ChooseCover),
        Step::ChooseCover => Some(Step::FindChapters),
        Step::FindChapters => Some(Step::BuildBook),
        Step::BuildBook => Some(Step::BuildPreview),
        Step::BuildPreview => None,
    }
}

/// What is reported of a step that failed. Choosing a cover and finding chapters never fail.
pub open spec fn failure_of(step: Step, reason: Seq<char>) -> Seq<char> {
    match step {
        Step::Extract => "Falha ao ler o PDF: "@ + reason,
        Step::BuildPreview => "Falha ao gerar o preview: "@ + reason,
        _ => "Falha ao gerar o EPUB: "@ + reason,
    }
}

/// Reports that a step begins.
pub fn announce(step: Step) -> (r: ProgressMsg)
    ensures
        r@ == MessageView::Stage(step_name(step)),
{
    let name = match step {
        Step::Extract => "Extraindo texto e imagens do PDF",
        Step::ChooseCover => "Escolhendo a capa",
        Step::FindChapters => "Detectando capítulos",
        Step::BuildBook => "Gerando EPUB",
        Step::BuildPreview => "Gerando preview HTML",
    };
    ProgressMsg::Stage(name.to_owned())
}

/// What follows a step: the next one, with its announcement, or the end, with a report.
pub open spec fn transition(
    step: Step,
    result: Result<(), Seq<char>>,
) -> (Option<Step>, Option<MessageView>) {
    match result {
        Err(reason) => (None, Some(MessageView::Error(failure_of(step, reason)))),
        Ok(_) => match next_step(step) {
            Some(next) => (Some(next), Some(MessageView::Stage(step_name(next)))),
            None => (None, None),
        },
    }
}

/// Goes on from a step: see `transition`. Once the last step went well there is no more to say
/// here, since only the outcome is left to report.
pub fn advance(step: Step, result: Result<(), String>) -> (r: (Option<Step>, Option<ProgressMsg>))
    ensures
        ({
            let (next, message) = transition(
                step,
                match result {
                    Ok(_) => Ok(()),
                    Err(e) => Err(e@),
                },
            );
            &&& r.0 == next
            &&& match (r.1, message) {
                (Some(msg), Some(view)) => msg@ == view,
                (None, None) => true,
                _ => false,
            }
        }),
{
    match result {
        Err(e) => {
            let text = match step {
                Step::Extract => joined("Falha ao ler o PDF: ", e.as_str()),
                Step::BuildPreview => joined("Falha ao gerar o preview: ", e.as_str()),
                _ => joined("Falha ao gerar o EPUB: ", e.as_str()),
            };
            (None, Some(ProgressMsg::Error(text)))
        },
        Ok(_) => {
            let next = match step {
                Step::Extract => Step::ChooseCover,
                Step::ChooseCover => Step::FindChapters,
                Step::FindChapters => Step::BuildBook,
                Step::BuildBook => Step::BuildPreview,
                Step::BuildPreview => {
                    return (None, None);
                },
            };
            (Some(next), Some(announce(next)))
        },
    }
}

/// How many steps are left after a step.
pub open spec fn steps_left(step: Step) -> nat {
    match step {
        Step::Extract => 4,
        Step::ChooseCover => 3,
        Step::FindChapters => 2,
        Step::BuildBook => 1,
        Step::BuildPreview => 0,
    }
}

/// A conversion comes to an end: every step leaves fewer to take, and a failure leaves none.
pub proof fn every_step_leads_on(step: Step, result: Result<(), Seq<char>>)
    ensures
        transition(step, result).0 matches Some(next) ==> steps_left(next) < steps_left(step),
        result is Err ==> transition(step, result).0 is None && (transition(step, result).1 matches
            Some(MessageView::Error(_))),
        result is Ok && steps_left(step) > 0 ==> transition(step, result).0 is Some,
{
}

/// A conversion that goes well takes its five steps in this order: the PDF is read, a cover is
/// chosen, chapters are found, the book is built and then the preview. Each step is announced as
/// it begins, and behind the last one there is nothing more to take.
pub proof fn steps_are_taken_in_order()
    ensures
        transition(Step::Extract, Ok(())).0 == Some(Step::ChooseCover),
        transition(Step::ChooseCover, Ok(())).0 == Some(Step::FindChapters),
        transition(Step::FindChapters, Ok(())).0 == Some(Step::BuildBook),
        transition(Step::BuildBook, Ok(())).0 == Some(Step::BuildPreview),
        transition(Step::BuildPreview, Ok(())).0 is None,
        transition(Step::BuildPreview, Ok(())).1 is None,
        forall|step: Step|
            transition(step, Ok(())).0 matches Some(next) ==> (#[trigger] transition(
                step,
                Ok(()),
            )).1 == Some(MessageView::Stage(step_name(next))),
{
}

/// A report of a failure ends in the reason, and says whether reading, building or the preview
/// failed.
pub proof fn failures_give_their_reason(step: Step, reason: Seq<char>)
    ensures
        transition(step, Err(reason)).1 matches Some(MessageView::Error(text)) && {
            &&& text.len() >= reason.len()
            &&& text.skip(text.len() - reason.len()) == reason
            &&& step == Step::Extract ==> "Falha ao ler o PDF: "@.is_prefix_of(text)
            &&& step == Step::BuildBook ==> "Falha ao gerar o EPUB: "@.is_prefix_of(text)
            &&& step == Step::BuildPreview ==> "Falha ao gerar o preview: "@.is_prefix_of(text)
        },
{
    let text = failure_of(step, reason);
    let start = match step {
        Step::Extract => "Falha ao ler o PDF: "@,
        Step::BuildPreview => "Falha ao gerar o preview: "@,
        _ => "Falha ao gerar o EPUB: "@,
    };
    assert(text == start + reason);
    assert(text.skip(text.len() - reason.len()) == reason);
    assert(text.take(start.len() as int) == start);
}

/// What is reported of the measures of a document.
pub open spec fn layout_report(m: LayoutMetrics) -> Seq<char> {
    "layout: corpo "@ + one_decimal(m.baseline_font as int) + "pt, entrelinha "@ + one_decimal(
        m.line_gap as int,
    ) + "pt"@
}

/// What is reported of the measures of a document, its margin included.
pub open spec fn full_layout_report(m: LayoutMetrics) -> Seq<char> {
    "layout: corpo "@ + one_decimal(m.baseline_font as int) + "pt, margem em "@ + percent(
        m.left_margin as int,
    ) + "% da página, entrelinha "@ + one_decimal(m.line_gap as int) + "pt"@
}

pub fn report_layout(m: &LayoutMetrics) -> (r: String)
    ensures
        r@ == layout_report(*m),
{
    let mut text: String = "layout: corpo ".to_owned();
    push_one_decimal(&mut text, m.baseline_font as i128);
    text.append("pt, entrelinha ");
    push_one_decimal(&mut text, m.line_gap);
    text.append("pt");
    text
}

pub fn report_full_layout(m: &LayoutMetrics) -> (r: String)
    ensures
        r@ == full_layout_report(*m),
{
    let mut text: String = "layout: corpo ".to_owned();
    push_one_decimal(&mut text, m.baseline_font as i128);
    text.append("pt, margem em ");
    push_percent(&mut text, m.left_margin);
    text.append("% da página, entrelinha ");
    push_one_decimal(&mut text, m.line_gap);
    text.append("pt");
    text
}

/// What is reported of a document that was read.
pub open spec fn extraction_report(doc: DocView) -> Seq<char> {
    "extração concluída: "@ + decimal(doc.pages.len()) + " páginas, "@ + decimal(doc.images.len())
        + " imagens"@
}

pub fn report_extraction(doc: &ExtractedDoc) -> (r: String)
    ensures
        r@ == extraction_report(doc@),
{
    assert(doc@.pages.len() == doc.pages@.len() && doc@.images.len() == doc.images@.len());
    let mut text: String = "extração concluída: ".to_owned();
    push_decimal(&mut text, doc.pages.len() as u128);
    text.append(" páginas, ");
    push_decimal(&mut text, doc.images.len() as u128);
    text.append(" imagens");
    text
}

/// The reports of a document's measures tell the size of its body and the distance of its lines,
/// and the fuller one its margin between the two. The report of its reading counts its pages and
/// then its pictures.
pub proof fn reports_tell_what_was_measured(m: LayoutMetrics, doc: DocView)
    ensures
        exists|at: int| #[trigger]
            stands_in(
                layout_report(m),
                one_decimal(m.baseline_font as int) + "pt, entrelinha "@ + one_decimal(
                    m.line_gap as int,
                ) + "pt"@,
                at,
            ),
        exists|at: int| #[trigger]
            stands_in(
                full_layout_report(m),
                one_decimal(m.baseline_font as int) + "pt, margem em "@ + percent(
                    m.left_margin as int,
                ) + "% da página, entrelinha "@ + one_decimal(m.line_gap as int) + "pt"@,
                at,
            ),
        exists|at: int| #[trigger]
            stands_in(
                extraction_report(doc),
                decimal(doc.pages.len()) + " páginas, "@ + decimal(doc.images.len())
                    + " imagens"@,
                at,
            ),
{
    let part = one_decimal(m.baseline_font as int) + "pt, entrelinha "@ + one_decimal(
        m.line_gap as int,
    ) + "pt"@;
    let more = one_decimal(m.baseline_font as int) + "pt, margem em "@ + percent(
        m.left_margin as int,
    ) + "% da página, entrelinha "@ + one_decimal(m.line_gap as int) + "pt"@;
    let counts = decimal(doc.pages.len()) + " páginas, "@ + decimal(doc.images.len())
        + " imagens"@;
    let at = "layout: corpo "@.len() as int;
    assert(layout_report(m).subrange(at, at + part.len()) == part);
    assert(stands_in(layout_report(m), part, at));
    assert(full_layout_report(m).subrange(at, at + more.len()) == more);
    assert(stands_in(full_layout_report(m), more, at));
    let from = "extração concluída: "@.len() as int;
    assert(extraction_report(doc).subrange(from, from + counts.len()) == counts);
    assert(stands_in(extraction_report(doc), counts, from));
}

/// A book and its preview, ready to be saved.
#[derive(Debug)]
pub struct Book {
    /// The bytes of the EPUB.
    pub epub: Vec<u8>,
    /// The preview, as a page of HTML.
    pub preview: String,
    pub metrics: LayoutMetrics,
    pub chapter_count: usize,
    pub image_count: usize,
}

/// The chapters of a document.
pub open spec fn document_chapters(doc: DocView) -> Seq<ChapterView> {
    chapters_of(document_flow(doc.pages), baseline_of(flow_of(doc.pages)))
}

/// The book holds the chapters and the pictures of the document behind its cover, and the
/// preview shows the same chapters.
pub open spec fn is_book_of(
    book: Book,
    doc: DocView,
    cover: CoverView,
    title: Seq<char>,
    author: Seq<char>,
    lang: Seq<char>,
) -> bool {
    let chapters = document_chapters(doc);
    let m = metrics_of(doc);
    &&& have_plain_paths(parts_of(chapters, doc.images, cover, m)) ==> archive_contents(book.epub@)
        == (
        archived_parts(parts_of(chapters, doc.images, cover, m)),
        metadata_of(title, author, lang),
    )
    &&& book.preview@ == preview_of(
        fragments_of(chapters, doc.images, cover.consumed_image, m),
        doc.images,
        cover,
        title,
        author,
    )
    &&& book.metrics == m
    &&& book.chapter_count == chapters.len()
    &&& book.image_count == doc.images.len()
}

/// What a reader of the chapters sees, from the first to the last. The picture on the cover is
/// not shown again.
pub open spec fn shown_glyphs(
    chapters: Seq<ChapterView>,
    skip: Option<usize>,
    m: LayoutMetrics,
) -> Seq<Glyph>
    decreases chapters.len(),
{
    if chapters.len() == 0 {
        Seq::empty()
    } else {
        shown_glyphs(chapters.drop_last(), skip, m) + blocks_glyphs(
            blocks_of(without_cover(chapters.last().events, skip), m),
        )
    }
}

proof fn lemma_flow_glyphs_concat(a: Seq<EventView>, b: Seq<EventView>)
    ensures
        flow_glyphs(a + b) == flow_glyphs(a) + flow_glyphs(b),
    decreases b.len(),
{
    if b.len() == 0 {
        assert(a + b == a);
        assert(flow_glyphs(a) + flow_glyphs(b) == flow_glyphs(a));
    } else {
        assert((a + b).drop_last() == a + b.drop_last());
        lemma_flow_glyphs_concat(a, b.drop_last());
        assert(flow_glyphs(a + b) == flow_glyphs(a) + flow_glyphs(b));
    }
}

proof fn lemma_shown_glyphs(chapters: Seq<ChapterView>, skip: Option<usize>, m: LayoutMetrics)
    ensures
        shown_glyphs(chapters, skip, m) == flow_glyphs(
            visible(without_cover(chapter_events(chapters), skip)),
        ),
    decreases chapters.len(),
{
    let keeps = |e: EventView| !crate::epub_gen::is_cover_event(e, skip);
    let shows = |e: EventView| is_visible(e);
    if chapters.len() == 0 {
        reveal(Seq::filter);
    } else {
        let before = chapter_events(chapters.drop_last());
        let here = chapters.last().events;
        lemma_shown_glyphs(chapters.drop_last(), skip, m);
        blocks_keep_the_reading_order(without_cover(here, skip), m);
        Seq::filter_distributes_over_add(before, here, keeps);
        Seq::filter_distributes_over_add(
            without_cover(before, skip),
            without_cover(here, skip),
            shows,
        );
        lemma_flow_glyphs_concat(
            visible(without_cover(before, skip)),
            visible(without_cover(here, skip)),
        );
    }
}

/// The book reads as the document does: its chapters, one after the other, show every line but
/// the titles and every picture but the cover, once each, in the order in which they stand on
/// the pages.
pub proof fn the_book_keeps_the_reading_order(
    doc: DocView,
    skip: Option<usize>,
    m: LayoutMetrics,
)
    ensures
        shown_glyphs(document_chapters(doc), skip, m) == flow_glyphs(
            visible(
                without_cover(
                    body_events(document_flow(doc.pages), baseline_of(flow_of(doc.pages))),
                    skip,
                ),
            ),
        ),
{
    chapters_keep_every_event(document_flow(doc.pages), baseline_of(flow_of(doc.pages)));
    lemma_shown_glyphs(document_chapters(doc), skip, m);
}

/// The book and its preview agree: the pages of the chapters in the book are those of the
/// fragments that the preview shows, in the same order, under the same titles. Left out are
/// titles with a carriage return, which the archive does not keep.
pub proof fn the_preview_shows_what_the_book_holds(
    book: Book,
    doc: DocView,
    cover: CoverView,
    title: Seq<char>,
    author: Seq<char>,
    lang: Seq<char>,
    fragments: Seq<(Seq<char>, Seq<char>)>,
    i: int,
)
    requires
        is_book_of(book, doc, cover, title, author, lang),
        have_plain_paths(parts_of(document_chapters(doc), doc.images, cover, metrics_of(doc))),
        fragments == fragments_of(
            document_chapters(doc),
            doc.images,
            cover.consumed_image,
            metrics_of(doc),
        ),
        0 <= i < fragments.len(),
        !fragments[i].0.contains('\r'),
    ensures
        book.preview@ == preview_of(fragments, doc.images, cover, title, author),
        archive_contents(book.epub@).0.contains(
            BookPart::Page {
                path: "chap_"@ + decimal2((i + 1) as nat) + ".xhtml"@,
                content: vstd::utf8::encode_utf8(document_of(fragments[i].0, fragments[i].1)),
                title: fragments[i].0,
                role: PageRole::Text,
            },
        ),
        archive_contents(book.epub@).1 == metadata_of(title, author, lang),
        book.chapter_count == document_chapters(doc).len(),
        book.image_count == doc.images.len(),
{
    let parts = parts_of(document_chapters(doc), doc.images, cover, metrics_of(doc));
    let page = BookPart::Page {
        path: "chap_"@ + decimal2((i + 1) as nat) + ".xhtml"@,
        content: vstd::utf8::encode_utf8(document_of(fragments[i].0, fragments[i].1)),
        title: fragments[i].0,
        role: PageRole::Text,
    };
    let at = parts.len() - fragments.len() + i;
    assert(parts[at] == page);
    a_text_without_returns_stays(fragments[i].0);
    assert(archived_parts(parts)[at] == page);
}

/// Makes a book and its preview of a document that was read and a cover that was chosen: measures
/// it, finds its chapters and builds both. What the chapters were found by is reported in `log`.
/// An ordinary book whose cover has one of the names that covers are given is always made.
pub fn make_book(
    doc: &ExtractedDoc,
    cover: &Cover,
    title: &str,
    author: &str,
    lang: &str,
    log: &mut Vec<String>,
) -> (r: Result<Book, String>)
    requires
        names_fit(doc@.images, cover@),
    ensures
        r matches Ok(book) ==> is_book_of(book, doc@, cover@, title@, author@, lang@),
        ({
            let parts = parts_of(document_chapters(doc@), doc@.images, cover@, metrics_of(doc@));
            is_ordinary_book(parts, metadata_of(title@, author@, lang@)) ==> (r is Ok) == (
            paths_differ(parts) && leaves_room(parts))
        }),
        texts(final(log)@) == texts(old(log)@) + heading_messages(
            document_flow(doc@.pages),
            baseline_of(flow_of(doc@.pages)),
        ),
{
    let metrics = measure(doc);
    let chapters = detect_chapters(doc, log);
    assert(doc@.images == image_views(doc.images@));
    let (epub, fragments) = build_epub(
        chapters.as_slice(),
        doc.images.as_slice(),
        cover,
        &metrics,
        title,
        author,
        lang,
    )?;
    let preview = preview_page(
        fragments.as_slice(),
        doc.images.as_slice(),
        cover,
        title,
        author,
    );
    assert(crate::chapters::chapter_views(chapters@).len() == chapters@.len());
    Ok(
        Book {
            epub,
            preview,
            metrics,
            chapter_count: chapters.len(),
            image_count: doc.images.len(),
        },
    )
}

/// Reports the outcome of a conversion that went well.
pub fn report_done(epub_path: String, preview_path: String, book: &Book) -> (r: ProgressMsg)
    ensures
        r@ == MessageView::Done(
            crate::session::OutcomeView {
                epub_path: epub_path@,
                preview_path: preview_path@,
                chapter_count: book.chapter_count as nat,
                image_count: book.image_count as nat,
            },
        ),
{
    ProgressMsg::Done(
        Outcome {
            epub_path,
            preview_path,
            chapter_count: book.chapter_count,
            image_count: book.image_count,
        },
    )
}

} // verus!
