//! Picks the cover, or draws one.
use vstd::prelude::*;

use crate::epub_gen::{escape_html, escaped};
use crate::pdf_model::{
    image_views, DocView, EventView, ExtractedDoc, FlowEvent, ImageAsset, ImageView, PageFlow,
    PageView,
};
use crate::text::{
    decimal, is_blank, push_decimal, same_text, split_words, stands_in, texts, trimmed, words,
};
use crate::typeset::{is_ruler, lines_of, measures, ruler, wrap_text, Face};

verus! {

#[derive(Debug)]
pub struct Cover {
    pub filename: String,
    pub mime: &'static str,
    pub bytes: Vec<u8>,
    pub width: u32,
    pub height: u32,
    /// The index of the picture when the cover was lifted out of the PDF itself, so that the
    /// same picture is not repeated right after the cover page.
    pub consumed_image: Option<usize>,
}

#[verifier::ext_equal]
pub ghost struct CoverView {
    pub filename: Seq<char>,
    pub mime: Seq<char>,
    pub bytes: Seq<u8>,
    pub width: nat,
    pub height: nat,
    pub consumed_image: Option<usize>,
}

impl View for Cover {
    type V = CoverView;

    open spec fn view(&self) -> CoverView {
        CoverView {
            filename: self.filename@,
            mime: self.mime@,
            bytes: self.bytes@,
            width: self.width as nat,
            height: self.height as nat,
            consumed_image: self.consumed_image,
        }
    }
}

/// The page that shows the cover: a viewport of the picture's own size, scaled to the screen.
pub open spec fn cover_page(cover: CoverView) -> Seq<char> {
    let w = decimal(cover.width);
    let h = decimal(cover.height);
    "<?xml version=\"1.0\" encoding=\"UTF-8\"?>\n\
<!DOCTYPE html>\n\
<html xmlns=\"http://www.w3.org/1999/xhtml\" xmlns:epub=\"http://www.idpf.org/2007/ops\">\n\
<head><title>Capa</title><meta charset=\"utf-8\"/>\n\
<style>body{margin:0;padding:0;}</style></head>\n\
<body epub:type=\"cover\">\n\
<div style=\"text-align:center;page-break-after:always;\">\n\
<svg xmlns=\"http://www.w3.org/2000/svg\" xmlns:xlink=\"http://www.w3.org/1999/xlink\" \
version=\"1.1\" width=\"100%\" height=\"100%\" viewBox=\"0 0 "@
        + w + " "@ + h + "\" preserveAspectRatio=\"xMidYMid meet\">\n  <image width=\""@ + w
        + "\" height=\""@ + h + "\" xlink:href=\""@ + escaped(cover.filename)
        + "\"/>\n</svg>\n</div>\n</body>\n</html>\n"@
}

/// The page of a cover shows the cover's picture, in a viewport of the picture's own width and
/// height.
pub proof fn the_cover_page_shows_the_picture(cover: CoverView)
    ensures
        exists|at: int| #[trigger]
            stands_in(
                cover_page(cover),
                "viewBox=\"0 0 "@ + decimal(cover.width) + " "@ + decimal(cover.height) + "\""@,
                at,
            ),
        exists|at: int| #[trigger]
            stands_in(
                cover_page(cover),
                "<image width=\""@ + decimal(cover.width) + "\" height=\""@ + decimal(
                    cover.height,
                ) + "\" xlink:href=\""@ + escaped(cover.filename) + "\"/>"@,
                at,
            ),
{
    let page = cover_page(cover);
    let w = decimal(cover.width);
    let h = decimal(cover.height);
    let name = escaped(cover.filename);
    let start = "<?xml version=\"1.0\" encoding=\"UTF-8\"?>\n\
<!DOCTYPE html>\n\
<html xmlns=\"http://www.w3.org/1999/xhtml\" xmlns:epub=\"http://www.idpf.org/2007/ops\">\n\
<head><title>Capa</title><meta charset=\"utf-8\"/>\n\
<style>body{margin:0;padding:0;}</style></head>\n\
<body epub:type=\"cover\">\n\
<div style=\"text-align:center;page-break-after:always;\">\n\
<svg xmlns=\"http://www.w3.org/2000/svg\" xmlns:xlink=\"http://www.w3.org/1999/xlink\" \
version=\"1.1\" width=\"100%\" height=\"100%\" viewBox=\"0 0 "@;
    let middle = "\" preserveAspectRatio=\"xMidYMid meet\">\n  <image width=\""@;
    let end = "\"/>\n</svg>\n</div>\n</body>\n</html>\n"@;
    reveal_strlit(
        "<?xml version=\"1.0\" encoding=\"UTF-8\"?>\n\
<!DOCTYPE html>\n\
<html xmlns=\"http://www.w3.org/1999/xhtml\" xmlns:epub=\"http://www.idpf.org/2007/ops\">\n\
<head><title>Capa</title><meta charset=\"utf-8\"/>\n\
<style>body{margin:0;padding:0;}</style></head>\n\
<body epub:type=\"cover\">\n\
<div style=\"text-align:center;page-break-after:always;\">\n\
<svg xmlns=\"http://www.w3.org/2000/svg\" xmlns:xlink=\"http://www.w3.org/1999/xlink\" \
version=\"1.1\" width=\"100%\" height=\"100%\" viewBox=\"0 0 ",
    );
    reveal_strlit("\" preserveAspectRatio=\"xMidYMid meet\">\n  <image width=\"");
    reveal_strlit("\"/>\n</svg>\n</div>\n</body>\n</html>\n");
    reveal_strlit("viewBox=\"0 0 ");
    reveal_strlit("<image width=\"");
    reveal_strlit("\"/>");
    reveal_strlit("\"");
    let head = "viewBox=\"0 0 "@;
    assert(page == start + w + " "@ + h + middle + w + "\" height=\""@ + h + "\" xlink:href=\""@
        + name + end);
    let box_part = head + w + " "@ + h + "\""@;
    let at = start.len() - head.len();
    assert(start.skip(at) == head);
    assert(middle.take(1) == "\""@);
    assert(page.subrange(at, at + box_part.len()) == box_part);
    assert(stands_in(page, box_part, at));
    let tag = "<image width=\""@;
    let cut = middle.len() - tag.len();
    assert(middle.skip(cut) == tag);
    assert(end.take(3) == "\"/>"@);
    let image_part = tag + w + "\" height=\""@ + h + "\" xlink:href=\""@ + name + "\"/>"@;
    let from = start.len() + w.len() + " "@.len() + h.len() + cut;
    assert(page.subrange(from, from + image_part.len()) == image_part);
    assert(stands_in(page, image_part, from));
}

/// The full-bleed cover page that every major reader honours: an SVG viewport scaled to fit
/// the screen, so that the art keeps its aspect ratio instead of being stretched.
pub fn cover_xhtml(cover: &Cover) -> (r: String)
    ensures
        r@ == cover_page(cover@),
{
    let href = escape_html(cover.filename.as_str());
    let mut out = String::new();
    out.append(
        "<?xml version=\"1.0\" encoding=\"UTF-8\"?>\n\
<!DOCTYPE html>\n\
<html xmlns=\"http://www.w3.org/1999/xhtml\" xmlns:epub=\"http://www.idpf.org/2007/ops\">\n\
<head><title>Capa</title><meta charset=\"utf-8\"/>\n\
<style>body{margin:0;padding:0;}</style></head>\n\
<body epub:type=\"cover\">\n\
<div style=\"text-align:center;page-break-after:always;\">\n\
<svg xmlns=\"http://www.w3.org/2000/svg\" xmlns:xlink=\"http://www.w3.org/1999/xlink\" \
version=\"1.1\" width=\"100%\" height=\"100%\" viewBox=\"0 0 ",
    );
    push_decimal(&mut out, cover.width as u128);
    out.append(" ");
    push_decimal(&mut out, cover.height as u128);
    out.append("\" preserveAspectRatio=\"xMidYMid meet\">\n  <image width=\"");
    push_decimal(&mut out, cover.width as u128);
    out.append("\" height=\"");
    push_decimal(&mut out, cover.height as u128);
    out.append("\" xlink:href=\"");
    out.append(href.as_str());
    out.append("\"/>\n</svg>\n</div>\n</body>\n</html>\n");
    assert(out@ == cover_page(cover@));
    out
}

// ---------------------------------------------------------------------------------------
// A cover from the PDF
// ---------------------------------------------------------------------------------------

/// Anything smaller on the opening page is an ornament or a publisher's logo, not cover art.
pub const MIN_DETECT_WIDTH: u32 = 300;

pub const MIN_DETECT_HEIGHT: u32 = 400;

/// Below this size a Kindle shows a visibly soft thumbnail. That is worth a word, but not worth
/// throwing away real cover art.
pub const KINDLE_MIN_WIDTH: u32 = 625;

pub const KINDLE_MIN_HEIGHT: u32 = 1000;

/// The number of pixels of a picture.
pub open spec fn area(image: ImageView) -> nat {
    image.width * image.height
}

/// The largest picture among some events. Of several of one size the last counts.
pub open spec fn largest_picture(
    events: Seq<(int, EventView)>,
    images: Seq<ImageView>,
) -> Option<nat>
    decreases events.len(),
{
    if events.len() == 0 {
        None
    } else {
        let before = largest_picture(events.drop_last(), images);
        match events.last().1 {
            EventView::Image(idx) if idx < images.len() => match before {
                Some(best) => if area(images[best as int]) <= area(images[idx as int]) {
                    Some(idx)
                } else {
                    before
                },
                None => Some(idx),
            },
            _ => before,
        }
    }
}

/// The picture is large enough for cover art.
pub open spec fn is_cover_sized(image: ImageView) -> bool {
    image.width >= MIN_DETECT_WIDTH && image.height >= MIN_DETECT_HEIGHT
}

/// The picture of a page that serves as a cover.
pub open spec fn page_cover(page: PageView, images: Seq<ImageView>) -> Option<nat> {
    match largest_picture(page.events, images) {
        Some(idx) => if is_cover_sized(images[idx as int]) {
            Some(idx)
        } else {
            None
        },
        None => None,
    }
}

/// The picture of the document that serves as its cover. It stands on the first page, or on the
/// second where the first has none.
pub open spec fn detected_cover(doc: DocView) -> Option<nat> {
    if doc.pages.len() > 0 && page_cover(doc.pages[0], doc.images) is Some {
        page_cover(doc.pages[0], doc.images)
    } else if doc.pages.len() > 1 {
        page_cover(doc.pages[1], doc.images)
    } else {
        None
    }
}

/// The cover that a picture makes.
pub open spec fn cover_of_picture(image: ImageView, idx: nat) -> CoverView {
    CoverView {
        filename: if image.mime == "image/jpeg"@ {
            "cover.jpg"@
        } else {
            "cover.png"@
        },
        mime: image.mime,
        bytes: image.bytes,
        width: image.width,
        height: image.height,
        consumed_image: Some(idx as usize),
    }
}

/// "900x1400".
pub open spec fn dimensions(width: nat, height: nat) -> Seq<char> {
    decimal(width) + "x"@ + decimal(height)
}

/// What is reported of the largest picture of a page.
pub open spec fn detection_messages(page: PageView, images: Seq<ImageView>) -> Seq<Seq<char>> {
    match largest_picture(page.events, images) {
        None => Seq::empty(),
        Some(idx) => {
            let image = images[idx as int];
            let size = dimensions(image.width, image.height);
            if !is_cover_sized(image) {
                seq![
                    "capa: maior imagem da página "@ + decimal(page.page_num)
                        + " é pequena demais ("@ + size + "), ignorando"@,
                ]
            } else {
                seq![
                    "capa: usando a imagem "@ + image.filename + " da página "@ + decimal(
                        page.page_num,
                    ) + " ("@ + size + ")"@,
                ] + (if image.width < KINDLE_MIN_WIDTH || image.height < KINDLE_MIN_HEIGHT {
                    seq![
                        "capa: atenção — abaixo de "@ + dimensions(
                            KINDLE_MIN_WIDTH as nat,
                            KINDLE_MIN_HEIGHT as nat,
                        ) + ", a miniatura no Kindle pode sair borrada (use --cover para uma imagem maior)"@,
                    ]
                } else {
                    Seq::empty()
                })
            }
        },
    }
}

/// What is reported while a cover is looked for.
pub open spec fn search_messages(doc: DocView) -> Seq<Seq<char>> {
    if doc.pages.len() == 0 {
        Seq::empty()
    } else if page_cover(doc.pages[0], doc.images) is Some || doc.pages.len() == 1 {
        detection_messages(doc.pages[0], doc.images)
    } else {
        detection_messages(doc.pages[0], doc.images) + detection_messages(
            doc.pages[1],
            doc.images,
        )
    }
}

/// The event shows no picture that is larger than the best one.
pub open spec fn is_outdone(e: EventView, best: Option<nat>, images: Seq<ImageView>) -> bool {
    match e {
        EventView::Image(idx) => idx < images.len() ==> best is Some && area(images[idx as int])
            <= area(images[best->0 as int]),
        EventView::Line(_) => true,
    }
}

proof fn lemma_largest(events: Seq<(int, EventView)>, images: Seq<ImageView>)
    ensures
        largest_picture(events, images) matches Some(best) ==> best < images.len() && exists|
            k: int,
        |
            0 <= k < events.len() && (#[trigger] events[k]).1 == EventView::Image(best),
        forall|k: int|
            0 <= k < events.len() ==> is_outdone(
                (#[trigger] events[k]).1,
                largest_picture(events, images),
                images,
            ),
    decreases events.len(),
{
    if events.len() > 0 {
        let less = events.drop_last();
        lemma_largest(less, images);
        let best = largest_picture(events, images);
        assert forall|k: int| 0 <= k < events.len() implies is_outdone(
            (#[trigger] events[k]).1,
            best,
            images,
        ) by {
            if k < less.len() {
                assert(is_outdone(less[k].1, largest_picture(less, images), images));
            }
        }
        if let Some(b) = best {
            if events.last().1 == EventView::Image(b) {
                assert(events[events.len() - 1].1 == EventView::Image(b));
            } else {
                let k = choose|k: int|
                    0 <= k < less.len() && (#[trigger] less[k]).1 == EventView::Image(b);
                assert(events[k].1 == EventView::Image(b));
            }
        }
    }
}

/// The picture stands on the page, is large enough for a cover, and no picture of the page is
/// larger.
pub open spec fn is_best_of_page(page: PageView, images: Seq<ImageView>, best: nat) -> bool {
    &&& best < images.len()
    &&& is_cover_sized(images[best as int])
    &&& exists|k: int|
        0 <= k < page.events.len() && (#[trigger] page.events[k]).1 == EventView::Image(best)
    &&& forall|k: int|
        0 <= k < page.events.len() ==> is_outdone(
            (#[trigger] page.events[k]).1,
            Some(best),
            images,
        )
}

/// A cover that was found in the document is the best picture of its first or second page.
pub proof fn a_detected_cover_is_the_largest_picture_of_its_page(doc: DocView)
    requires
        detected_cover(doc) is Some,
    ensures
        exists|p: int|
            0 <= p < 2 && p < doc.pages.len() && is_best_of_page(
                #[trigger] doc.pages[p],
                doc.images,
                detected_cover(doc)->0,
            ),
{
    let p: int = if page_cover(doc.pages[0], doc.images) is Some {
        0
    } else {
        1
    };
    lemma_largest(doc.pages[p].events, doc.images);
    assert(is_best_of_page(doc.pages[p], doc.images, detected_cover(doc)->0));
}

/// A picture beyond the second page never becomes the cover: those pages do not matter to it.
pub proof fn later_pages_do_not_matter_to_the_cover(doc: DocView, other: DocView)
    requires
        doc.images == other.images,
        doc.pages.len() >= 2,
        other.pages.len() >= 2,
        doc.pages[0] == other.pages[0],
        doc.pages[1] == other.pages[1],
    ensures
        detected_cover(doc) == detected_cover(other),
{
}

/// The event at an index of a page shows the largest picture of the page. Of several of one
/// size it is the last.
pub open spec fn shows_the_largest(page: PageView, images: Seq<ImageView>, k: int) -> bool {
    &&& 0 <= k < page.events.len()
    &&& page.events[k].1 matches EventView::Image(idx) && idx < images.len() && forall|j: int|
        0 <= j < page.events.len() ==> match (#[trigger] page.events[j]).1 {
            EventView::Image(other) => other < images.len() ==> {
                let here = images[idx as int].width * images[idx as int].height;
                let there = images[other as int].width * images[other as int].height;
                there <= here && (j > k ==> there < here)
            },
            EventView::Line(_) => true,
        }
}

/// No event of a page shows a picture.
pub open spec fn shows_no_picture(page: PageView, images: Seq<ImageView>) -> bool {
    forall|j: int|
        0 <= j < page.events.len() ==> ((#[trigger] page.events[j]).1 matches EventView::Image(idx)
            ==> idx >= images.len())
}

proof fn lemma_shows_the_largest(page: PageView, images: Seq<ImageView>, k: int)
    requires
        shows_the_largest(page, images, k),
    ensures
        largest_picture(page.events, images) == Some(page.events[k].1->Image_0),
    decreases page.events.len(),
{
    let less = PageView { events: page.events.drop_last(), ..page };
    let idx = page.events[k].1->Image_0;
    lemma_largest(less.events, images);
    if k < less.events.len() {
        assert(forall|j: int|
            0 <= j < less.events.len() ==> #[trigger] less.events[j] == page.events[j]);
        lemma_shows_the_largest(less, images, k);
        let last = page.events[page.events.len() - 1];
        assert(last == page.events.last());
    } else {
        if let Some(best) = largest_picture(less.events, images) {
            let j = choose|j: int|
                0 <= j < less.events.len() && (#[trigger] less.events[j]).1 == EventView::Image(
                    best,
                );
            assert(page.events[j] == less.events[j]);
        }
    }
}

proof fn lemma_shows_no_picture(page: PageView, images: Seq<ImageView>)
    requires
        shows_no_picture(page, images),
    ensures
        largest_picture(page.events, images) is None,
{
    lemma_largest(page.events, images);
    if let Some(best) = largest_picture(page.events, images) {
        let j = choose|j: int|
            0 <= j < page.events.len() && (#[trigger] page.events[j]).1 == EventView::Image(best);
        assert(page.events[j].1 == EventView::Image(best));
    }
}

/// A page shows a largest picture, or no picture at all.
pub proof fn a_page_has_a_largest_picture_or_none(page: PageView, images: Seq<ImageView>)
    ensures
        shows_no_picture(page, images) || exists|k: int| shows_the_largest(page, images, k),
    decreases page.events.len(),
{
    if page.events.len() > 0 {
        let less = PageView { events: page.events.drop_last(), ..page };
        let end = page.events.len() - 1;
        a_page_has_a_largest_picture_or_none(less, images);
        assert(forall|j: int| 0 <= j < end ==> less.events[j] == #[trigger] page.events[j]);
        if shows_no_picture(less, images) {
            if page.events[end].1 matches EventView::Image(idx) && idx < images.len() {
                assert(shows_the_largest(page, images, end));
            } else {
                assert(shows_no_picture(page, images));
            }
        } else {
            let k = choose|k: int| shows_the_largest(less, images, k);
            let best = less.events[k].1->Image_0;
            assert(page.events[k] == less.events[k]);
            match page.events[end].1 {
                EventView::Image(idx) if idx < images.len() && images[best as int].width
                    * images[best as int].height <= images[idx as int].width
                    * images[idx as int].height => {
                    assert(shows_the_largest(page, images, end));
                },
                _ => {
                    assert(shows_the_largest(page, images, k));
                },
            }
        }
    }
}

/// The largest picture of the first page is the cover, whatever its proportions, where it is at
/// least 300 wide and 400 high. The cover has its bytes, its type and its size, and says which
/// picture it was.
pub proof fn the_largest_picture_of_the_first_page_is_the_cover(doc: DocView, k: int)
    requires
        doc.pages.len() > 0,
        shows_the_largest(doc.pages[0], doc.images, k),
        doc.images[doc.pages[0].events[k].1->Image_0 as int].width >= 300,
        doc.images[doc.pages[0].events[k].1->Image_0 as int].height >= 400,
    ensures
        ({
            let idx = doc.pages[0].events[k].1->Image_0;
            let image = doc.images[idx as int];
            let cover = cover_of_picture(image, idx);
            &&& detected_cover(doc) == Some(idx)
            &&& cover.bytes == image.bytes
            &&& cover.mime == image.mime
            &&& cover.width == image.width
            &&& cover.height == image.height
            &&& cover.consumed_image == Some(idx as usize)
        }),
{
    lemma_shows_the_largest(doc.pages[0], doc.images, k);
}

/// The first page gives no cover: it shows no picture, or its largest one is less than 300 wide
/// or less than 400 high.
pub open spec fn gives_no_cover(page: PageView, images: Seq<ImageView>) -> bool {
    shows_no_picture(page, images) || exists|k: int| #[trigger]
        shows_the_largest(page, images, k) && {
            let image = images[page.events[k].1->Image_0 as int];
            image.width < 300 || image.height < 400
        }
}

proof fn lemma_gives_no_cover(page: PageView, images: Seq<ImageView>)
    requires
        gives_no_cover(page, images),
    ensures
        page_cover(page, images) is None,
{
    if shows_no_picture(page, images) {
        lemma_shows_no_picture(page, images);
    } else {
        let k = choose|k: int| #[trigger]
            shows_the_largest(page, images, k) && {
                let image = images[page.events[k].1->Image_0 as int];
                image.width < 300 || image.height < 400
            };
        lemma_shows_the_largest(page, images, k);
    }
}

/// Where the first page gives no cover, the largest picture of the second is the cover, whatever
/// its proportions, where it is at least 300 wide and 400 high.
pub proof fn the_second_page_gives_the_cover_where_the_first_does_not(doc: DocView, k: int)
    requires
        doc.pages.len() > 1,
        gives_no_cover(doc.pages[0], doc.images),
        shows_the_largest(doc.pages[1], doc.images, k),
        doc.images[doc.pages[1].events[k].1->Image_0 as int].width >= 300,
        doc.images[doc.pages[1].events[k].1->Image_0 as int].height >= 400,
    ensures
        detected_cover(doc) == Some(doc.pages[1].events[k].1->Image_0),
{
    lemma_gives_no_cover(doc.pages[0], doc.images);
    lemma_shows_the_largest(doc.pages[1], doc.images, k);
}

/// Where neither the first nor the second page gives a cover, none is detected.
pub proof fn small_pictures_are_no_covers(doc: DocView)
    requires
        doc.pages.len() > 0 ==> gives_no_cover(doc.pages[0], doc.images),
        doc.pages.len() > 1 ==> gives_no_cover(doc.pages[1], doc.images),
    ensures
        detected_cover(doc) is None,
{
    if doc.pages.len() > 0 {
        lemma_gives_no_cover(doc.pages[0], doc.images);
    }
    if doc.pages.len() > 1 {
        lemma_gives_no_cover(doc.pages[1], doc.images);
    }
}

/// A page that shows no picture is passed over in silence. Of the largest picture of any other
/// page there is a message, and a second one where it becomes the cover and is less than 625 wide
/// or 1000 high.
pub proof fn small_covers_are_warned_of(page: PageView, images: Seq<ImageView>, k: int)
    ensures
        shows_no_picture(page, images) ==> detection_messages(page, images).len() == 0,
        shows_the_largest(page, images, k) ==> {
            let image = images[page.events[k].1->Image_0 as int];
            let is_cover = image.width >= 300 && image.height >= 400;
            let is_soft = image.width < 625 || image.height < 1000;
            detection_messages(page, images).len() == (if is_cover && is_soft {
                2int
            } else {
                1int
            })
        },
{
    if shows_no_picture(page, images) {
        lemma_shows_no_picture(page, images);
    }
    if shows_the_largest(page, images, k) {
        lemma_shows_the_largest(page, images, k);
    }
}

/// The second page is looked at only where the first gives no cover, and what is said of it comes
/// behind what is said of the first.
pub proof fn the_search_is_told_page_by_page(doc: DocView, k: int)
    requires
        doc.pages.len() > 0,
    ensures
        doc.pages.len() == 1 ==> search_messages(doc) == detection_messages(
            doc.pages[0],
            doc.images,
        ),
        shows_the_largest(doc.pages[0], doc.images, k) && doc.images[doc.pages[0].events[
            k
        ].1->Image_0 as int].width >= 300 && doc.images[doc.pages[0].events[
            k
        ].1->Image_0 as int].height >= 400 ==> search_messages(doc) == detection_messages(
            doc.pages[0],
            doc.images,
        ),
        doc.pages.len() > 1 && gives_no_cover(doc.pages[0], doc.images) ==> search_messages(doc)
            == detection_messages(doc.pages[0], doc.images) + detection_messages(
            doc.pages[1],
            doc.images,
        ),
{
    if shows_the_largest(doc.pages[0], doc.images, k) {
        lemma_shows_the_largest(doc.pages[0], doc.images, k);
    }
    if gives_no_cover(doc.pages[0], doc.images) {
        lemma_gives_no_cover(doc.pages[0], doc.images);
    }
}

fn push_dimensions(out: &mut String, width: u32, height: u32)
    ensures
        final(out)@ == old(out)@ + dimensions(width as nat, height as nat),
{
    let ghost before = out@;
    push_decimal(out, width as u128);
    out.append("x");
    push_decimal(out, height as u128);
    assert(out@ == before + dimensions(width as nat, height as nat));
}

fn find_largest(
    events: &Vec<(i64, FlowEvent)>,
    images: &Vec<ImageAsset>,
    page: Ghost<PageView>,
) -> (r: Option<usize>)
    requires
        page@.events == events@.map_values(|e: (i64, FlowEvent)| (e.0 as int, e.1@)),
    ensures
        match largest_picture(page@.events, image_views(images@)) {
            Some(idx) => r == Some(idx as usize) && idx < images@.len(),
            None => r is None,
        },
{
    let ghost views = page@.events;
    let ghost pictures = image_views(images@);
    let mut best: Option<usize> = None;
    assert(views.take(0) == Seq::<(int, EventView)>::empty());
    for i in 0..events.len()
        invariant
            views == events@.map_values(|e: (i64, FlowEvent)| (e.0 as int, e.1@)),
            pictures == image_views(images@),
            match largest_picture(views.take(i as int), pictures) {
                Some(idx) => best == Some(idx as usize) && idx < images@.len(),
                None => best is None,
            },
    {
        assert(views.take(i + 1).drop_last() == views.take(i as int));
        assert(views.take(i + 1).last() == (events@[i as int].0 as int, events@[i as int].1@));
        if let FlowEvent::Image(idx) = &events[i].1 {
            if *idx < images.len() {
                let here: &ImageAsset = &images[*idx];
                match best {
                    Some(b) => {
                        let held: &ImageAsset = &images[b];
                        assert(pictures[b as int] == held@ && pictures[*idx as int] == here@);
                        assert(held.width * held.height <= 0xffff_ffff * 0xffff_ffff
                            && here.width * here.height <= 0xffff_ffff * 0xffff_ffff)
                            by (nonlinear_arith)
                            requires
                                held.width <= 0xffff_ffff,
                                held.height <= 0xffff_ffff,
                                here.width <= 0xffff_ffff,
                                here.height <= 0xffff_ffff,
                        ;
                        if held.width as u64 * held.height as u64 <= here.width as u64
                            * here.height as u64 {
                            best = Some(*idx);
                        }
                    },
                    None => {
                        best = Some(*idx);
                    },
                }
            }
        }
    }
    assert(views.take(events@.len() as int) == views);
    best
}

fn cover_on_page(page: &PageFlow, images: &Vec<ImageAsset>, log: &mut Vec<String>) -> (r: Option<
    Cover,
>)
    ensures
        ({
            let pictures = image_views(images@);
            &&& match page_cover(page@, pictures) {
                Some(idx) => (r matches Some(cover) && cover@ == cover_of_picture(
                    pictures[idx as int],
                    idx,
                )) && idx < images@.len() <= usize::MAX,
                None => r is None,
            }
            &&& texts(final(log)@) == texts(old(log)@) + detection_messages(page@, pictures)
        }),
{
    let ghost said = texts(log@);
    let ghost pictures = image_views(images@);
    let idx: usize = match find_largest(&page.events, images, Ghost(page@)) {
        Some(idx) => idx,
        None => {
            assert(said + Seq::<Seq<char>>::empty() == said);
            return None;
        },
    };
    let total: usize = images.len();
    assert(idx < total);
    let image: &ImageAsset = &images[idx];
    assert(pictures[idx as int] == image@);
    let ghost size = dimensions(image.width as nat, image.height as nat);
    if image.width < MIN_DETECT_WIDTH || image.height < MIN_DETECT_HEIGHT {
        let ghost before = log@;
        let mut message: String = "capa: maior imagem da página ".to_owned();
        push_decimal(&mut message, page.page_num as u128);
        message.append(" é pequena demais (");
        push_dimensions(&mut message, image.width, image.height);
        message.append("), ignorando");
        let ghost words = message@;
        log.push(message);
        assert(texts(log@) == texts(before).push(words));
        assert(said + seq![words] == said.push(words));
        return None;
    }
    let ghost before = log@;
    let mut message: String = "capa: usando a imagem ".to_owned();
    message.append(image.filename.as_str());
    message.append(" da página ");
    push_decimal(&mut message, page.page_num as u128);
    message.append(" (");
    push_dimensions(&mut message, image.width, image.height);
    message.append(")");
    let ghost words = message@;
    log.push(message);
    assert(texts(log@) == texts(before).push(words));
    if image.width < KINDLE_MIN_WIDTH || image.height < KINDLE_MIN_HEIGHT {
        let ghost then = log@;
        let mut warning: String = "capa: atenção — abaixo de ".to_owned();
        push_dimensions(&mut warning, KINDLE_MIN_WIDTH, KINDLE_MIN_HEIGHT);
        warning.append(
            ", a miniatura no Kindle pode sair borrada (use --cover para uma imagem maior)",
        );
        let ghost more = warning@;
        log.push(warning);
        assert(texts(log@) == texts(then).push(more));
        assert(said + (seq![words] + seq![more]) == said.push(words).push(more));
    } else {
        assert(said + (seq![words] + Seq::<Seq<char>>::empty()) == said.push(words));
    }
    let filename: String = if same_text(image.mime, "image/jpeg") {
        "cover.jpg".to_owned()
    } else {
        "cover.png".to_owned()
    };
    Some(
        Cover {
            filename,
            mime: image.mime,
            bytes: vstd::slice::slice_to_vec(image.bytes.as_slice()),
            width: image.width,
            height: image.height,
            consumed_image: Some(idx),
        },
    )
}

/// Looks for cover art among the pictures of the opening page, and of the second page for PDFs
/// that start with a blank or title-only sheet.
pub fn detect_in_pdf(doc: &ExtractedDoc, log: &mut Vec<String>) -> (r: Option<Cover>)
    ensures
        match detected_cover(doc@) {
            Some(idx) => (r matches Some(cover) && cover@ == cover_of_picture(
                doc@.images[idx as int],
                idx,
            )) && idx < doc.images@.len() <= usize::MAX,
            None => r is None,
        },
        texts(final(log)@) == texts(old(log)@) + search_messages(doc@),
{
    let ghost said = texts(log@);
    assert(doc@.images == image_views(doc.images@));
    if doc.pages.len() == 0 {
        assert(said + Seq::<Seq<char>>::empty() == said);
        return None;
    }
    assert(doc@.pages[0] == doc.pages@[0]@);
    let first = cover_on_page(&doc.pages[0], &doc.images, log);
    if first.is_some() || doc.pages.len() == 1 {
        return first;
    }
    assert(doc@.pages[1] == doc.pages@[1]@);
    let second = cover_on_page(&doc.pages[1], &doc.images, log);
    assert(said + (detection_messages(doc@.pages[0], doc@.images) + detection_messages(
        doc@.pages[1],
        doc@.images,
    )) == said + detection_messages(doc@.pages[0], doc@.images) + detection_messages(
        doc@.pages[1],
        doc@.images,
    ));
    second
}

// ---------------------------------------------------------------------------------------
// A cover from a file
// ---------------------------------------------------------------------------------------

/// The formats that a cover may be in as it is, and all the others.
#[derive(Debug, Clone, Copy, PartialEq, Eq, Structural)]
pub enum PictureFormat {
    Jpeg,
    Png,
    Other,
}

/// The bytes begin as a PNG file does.
pub open spec fn has_png_signature(bytes: Seq<u8>) -> bool {
    seq![0x89u8, 0x50, 0x4e, 0x47, 0x0d, 0x0a, 0x1a, 0x0a].is_prefix_of(bytes)
}

/// The bytes begin as a JPEG file does.
pub open spec fn has_jpeg_signature(bytes: Seq<u8>) -> bool {
    seq![0xffu8, 0xd8, 0xff].is_prefix_of(bytes)
}

/// The format that the first bytes of a picture point to, or why they point to none.
pub uninterp spec fn format_of(bytes: Seq<u8>) -> Result<PictureFormat, Seq<char>>;

/// `image::guess_format` goes by the first bytes alone. PNG and JPEG have signatures of their
/// own.
#[verifier::external_body]
fn guess_format(bytes: &[u8]) -> (r: Result<PictureFormat, String>)
    ensures
        match format_of(bytes@) {
            Ok(format) => r matches Ok(found) && found == format,
            Err(text) => r matches Err(e) && e@ == text,
        },
        (r matches Ok(found) && found == PictureFormat::Png) == has_png_signature(bytes@),
        (r matches Ok(found) && found == PictureFormat::Jpeg) == has_jpeg_signature(bytes@),
{
    image::guess_format(bytes).map_err(|e| e.to_string()).map(|format| match format {
        image::ImageFormat::Png => PictureFormat::Png,
        image::ImageFormat::Jpeg => PictureFormat::Jpeg,
        _ => PictureFormat::Other,
    })
}

/// How good a JPEG file that is made here looks, out of a hundred.
pub const JPEG_QUALITY: u8 = 88;

/// The bytes of a JPEG file of some quality with this picture, or why there is none.
pub uninterp spec fn jpeg_of(width: u32, height: u32, samples: Seq<u8>, quality: u8) -> Result<
    Seq<u8>,
    Seq<char>,
>;

/// A picture of this size can be encoded as JPEG.
pub open spec fn fits_jpeg(width: u32, height: u32) -> bool {
    1 <= width <= 65535 && 1 <= height <= 65535
}

/// `image::codecs::jpeg::JpegEncoder::encode_image` encodes a picture of red, green and blue as
/// JPEG. The bytes depend on the picture and the quality alone, and there are some: it begins
/// with the signature. It refuses only pictures that have no pixels or measure more than
/// 65535 on a side.
#[verifier::external_body]
fn encode_jpeg(width: u32, height: u32, samples: Vec<u8>, quality: u8) -> (r: Result<
    Vec<u8>,
    String,
>)
    requires
        samples@.len() == 3 * (width * height),
        1 <= quality <= 100,
    ensures
        match jpeg_of(width, height, samples@, quality) {
            Ok(bytes) => r matches Ok(v) && v@ == bytes && v@.len() > 0,
            Err(text) => r matches Err(e) && e@ == text,
        },
        (r is Ok) == fits_jpeg(width, height),
{
    let picture = image::RgbImage::from_raw(width, height, samples).ok_or_else(String::new)?;
    let mut out = Vec::new();
    image::codecs::jpeg::JpegEncoder::new_with_quality(&mut out, quality)
        .encode_image(&image::DynamicImage::ImageRgb8(picture))
        .map_err(|e| e.to_string())?;
    Ok(out)
}

/// The cover that the bytes of a file make, given what they were decoded to and the format they
/// are in. JPEG and PNG are passed through byte for byte, and anything else is encoded again, so
/// that the book only ever carries the two formats that every reader is guaranteed to handle.
pub open spec fn cover_of_decoded(
    bytes: Seq<u8>,
    picture: Result<(u32, u32, Seq<u8>), Seq<char>>,
    format: Result<PictureFormat, Seq<char>>,
) -> Result<CoverView, Seq<char>> {
    match picture {
        Err(e) => Err(e),
        Ok((width, height, samples)) => {
            let cover = CoverView {
                filename: "cover.jpg"@,
                mime: "image/jpeg"@,
                bytes,
                width: width as nat,
                height: height as nat,
                consumed_image: None,
            };
            match format {
                Err(e) => Err(e),
                Ok(PictureFormat::Jpeg) => Ok(cover),
                Ok(PictureFormat::Png) => Ok(
                    CoverView { filename: "cover.png"@, mime: "image/png"@, ..cover },
                ),
                Ok(PictureFormat::Other) => match jpeg_of(width, height, samples, JPEG_QUALITY) {
                    Err(e) => Err(e),
                    Ok(jpeg) => Ok(CoverView { bytes: jpeg, ..cover }),
                },
            }
        },
    }
}

/// A JPEG or a PNG is the cover byte for byte, under a name and a type of its own format. Anything
/// else becomes a JPEG of quality 88 of the same size. A file in no known format, and one that
/// cannot be decoded, makes no cover.
pub proof fn files_are_passed_through_or_encoded_again(
    bytes: Seq<u8>,
    width: u32,
    height: u32,
    samples: Seq<u8>,
    e: Seq<char>,
    format: PictureFormat,
)
    ensures
        cover_of_decoded(bytes, Err(e), Ok(format)) == Err::<CoverView, Seq<char>>(e),
        cover_of_decoded(bytes, Ok((width, height, samples)), Err(e)) == Err::<
            CoverView,
            Seq<char>,
        >(e),
        cover_of_decoded(bytes, Ok((width, height, samples)), Ok(format)) matches Ok(cover) ==> {
            &&& cover.width == width
            &&& cover.height == height
            &&& cover.consumed_image is None
            &&& format == PictureFormat::Jpeg ==> cover.bytes == bytes && cover.mime
                == "image/jpeg"@ && cover.filename == "cover.jpg"@
            &&& format == PictureFormat::Png ==> cover.bytes == bytes && cover.mime
                == "image/png"@ && cover.filename == "cover.png"@
            &&& format == PictureFormat::Other ==> jpeg_of(width, height, samples, 88) == Ok::<
                Seq<u8>,
                Seq<char>,
            >(cover.bytes) && cover.mime == "image/jpeg"@ && cover.filename == "cover.jpg"@
        },
        format != PictureFormat::Other || jpeg_of(width, height, samples, 88) is Ok
            ==> cover_of_decoded(bytes, Ok((width, height, samples)), Ok(format)) is Ok,
{
}

/// What decoding a picture gave.
pub open spec fn decoded_view(r: Result<(u32, u32, Vec<u8>), String>) -> Result<
    (u32, u32, Seq<u8>),
    Seq<char>,
> {
    match r {
        Ok((width, height, samples)) => Ok((width, height, samples@)),
        Err(e) => Err(e@),
    }
}

/// What looking for the format of a picture gave.
pub open spec fn format_view(r: Result<PictureFormat, String>) -> Result<
    PictureFormat,
    Seq<char>,
> {
    match r {
        Ok(format) => Ok(format),
        Err(e) => Err(e@),
    }
}

/// The call gave back this cover, or this complaint.
pub open spec fn is_cover(r: Result<Cover, String>, m: Result<CoverView, Seq<char>>) -> bool {
    match (r, m) {
        (Ok(cover), Ok(view)) => cover@ == view,
        (Err(e), Err(text)) => e@ == text,
        _ => false,
    }
}

/// Makes a cover of the content of a file, given what it was decoded to (three samples for each
/// pixel) and the format it is in: see `cover_of_decoded`.
pub fn cover_from_decoded(
    bytes: Vec<u8>,
    picture: Result<(u32, u32, Vec<u8>), String>,
    format: Result<PictureFormat, String>,
) -> (r: Result<Cover, String>)
    requires
        picture matches Ok((w, h, samples)) ==> samples@.len() == 3 * (w * h),
    ensures
        is_cover(r, cover_of_decoded(bytes@, decoded_view(picture), format_view(format))),
{
    let (width, height, samples) = picture?;
    let format = format?;
    let (filename, mime, bytes): (String, &'static str, Vec<u8>) = match format {
        PictureFormat::Jpeg => ("cover.jpg".to_owned(), "image/jpeg", bytes),
        PictureFormat::Png => ("cover.png".to_owned(), "image/png", bytes),
        PictureFormat::Other => (
            "cover.jpg".to_owned(),
            "image/jpeg",
            encode_jpeg(width, height, samples, JPEG_QUALITY)?,
        ),
    };
    Ok(Cover { filename, mime, bytes, width, height, consumed_image: None })
}

/// The decoder may be given any bytes.
pub open spec fn decodes_anything<D: Fn(&[u8]) -> Result<(u32, u32, Vec<u8>), String>>(
    decode: D,
) -> bool {
    forall|bytes: &[u8]| call_requires(decode, (bytes,))
}

/// The decoder gave this back for these bytes.
pub open spec fn may_decode<D: Fn(&[u8]) -> Result<(u32, u32, Vec<u8>), String>>(
    decode: D,
    bytes: Seq<u8>,
    r: Result<(u32, u32, Vec<u8>), String>,
) -> bool {
    exists|slice: &[u8]| slice@ == bytes && #[trigger] call_ensures(decode, (slice,), r)
}

/// What a decoder gave back counts where it has three samples for each pixel.
pub open spec fn complete_picture(r: Result<(u32, u32, Seq<u8>), Seq<char>>) -> Result<
    (u32, u32, Seq<u8>),
    Seq<char>,
> {
    match r {
        Ok((width, height, samples)) => if samples.len() == 3 * (width * height) {
            r
        } else {
            Err("imagem incompleta"@)
        },
        Err(e) => Err(e),
    }
}

/// A decoded picture counts as it is where it has three samples for each pixel, and not at all
/// where it has more or fewer.
pub proof fn only_whole_pictures_count(width: u32, height: u32, samples: Seq<u8>)
    ensures
        samples.len() == 3 * (width * height) ==> complete_picture(
            Ok((width, height, samples)),
        ) == Ok::<(u32, u32, Seq<u8>), Seq<char>>((width, height, samples)),
        samples.len() != 3 * (width * height) ==> complete_picture(
            Ok((width, height, samples)),
        ) is Err,
{
}

/// The cover that the bytes of a file may make: what the decoder gave back for them decides. Bytes
/// in no known format are refused before they are decoded.
pub open spec fn may_make_cover<D: Fn(&[u8]) -> Result<(u32, u32, Vec<u8>), String>>(
    decode: D,
    bytes: Seq<u8>,
    made: Result<CoverView, Seq<char>>,
) -> bool {
    match format_of(bytes) {
        Err(e) => made == Err::<CoverView, Seq<char>>(e),
        Ok(format) => exists|r: Result<(u32, u32, Vec<u8>), String>| #[trigger]
            may_decode(decode, bytes, r) && made == cover_of_decoded(
                bytes,
                complete_picture(decoded_view(r)),
                Ok(format),
            ),
    }
}

fn check_samples(picture: Result<(u32, u32, Vec<u8>), String>) -> (r: Result<
    (u32, u32, Vec<u8>),
    String,
>)
    ensures
        decoded_view(r) == complete_picture(decoded_view(picture)),
        r matches Ok((w, h, samples)) ==> samples@.len() == 3 * (w * h),
{
    let (width, height, samples) = picture?;
    assert(0 <= width * height <= 0xffff_ffff * 0xffff_ffff) by (nonlinear_arith)
        requires
            0 <= width <= 0xffff_ffff,
            0 <= height <= 0xffff_ffff,
    ;
    if samples.len() as u128 == 3 * (width as u128 * height as u128) {
        Ok((width, height, samples))
    } else {
        Err("imagem incompleta".to_owned())
    }
}

/// The outcome as it is seen in contracts.
pub open spec fn outcome_view(r: Result<Cover, String>) -> Result<CoverView, Seq<char>> {
    match r {
        Ok(cover) => Ok(cover@),
        Err(e) => Err(e@),
    }
}

/// Makes a cover of the content of a file: see `may_make_cover`. The file is decoded by `decode`,
/// which is to survive a damaged one.
pub fn cover_from_bytes<D: Fn(&[u8]) -> Result<(u32, u32, Vec<u8>), String>>(
    bytes: Vec<u8>,
    decode: &D,
) -> (r: Result<Cover, String>)
    requires
        decodes_anything(*decode),
    ensures
        may_make_cover(*decode, bytes@, outcome_view(r)),
{
    let ghost content = bytes@;
    let format = guess_format(bytes.as_slice())?;
    let picture = decode(bytes.as_slice());
    assert(may_decode(*decode, content, picture));
    let picture = check_samples(picture);
    cover_from_decoded(bytes, picture, Ok(format))
}

// ---------------------------------------------------------------------------------------
// A drawn cover
// ---------------------------------------------------------------------------------------

/// The size of a drawn cover: the aspect ratio of 1.6 that a Kindle asks for, at the resolution
/// that it recommends for the thumbnail in its library.
pub const GEN_WIDTH: u32 = 1600;

pub const GEN_HEIGHT: u32 = 2560;

/// The margin on each side of the text.
pub const GEN_MARGIN: u32 = 200;

/// The largest size of the title. It shrinks in steps until it fits, but not from a size that
/// is small already.
pub const TITLE_SIZE: u32 = 140;

pub const TITLE_STEP: u32 = 8;

pub const SMALL_TITLE_SIZE: u32 = 40;

/// A title has no more lines than this where it can shrink.
pub const TITLE_LINES: usize = 5;

pub const AUTHOR_SIZE: u32 = 72;

/// Heights are counted in this many parts of a pixel.
pub const PIXEL: i128 = 400;

/// A line of the drawn cover: what it says, in which typeface and size, and how far its top is
/// from the top of the cover, in parts of a pixel.
#[derive(Debug)]
pub struct CoverLine {
    pub text: String,
    pub face: Face,
    pub size: u32,
    pub top: i128,
}

#[verifier::ext_equal]
pub ghost struct CoverLineView {
    pub text: Seq<char>,
    pub face: Face,
    pub size: u32,
    pub top: int,
}

impl View for CoverLine {
    type V = CoverLineView;

    open spec fn view(&self) -> CoverLineView {
        CoverLineView {
            text: self.text@,
            face: self.face,
            size: self.size,
            top: self.top as int,
        }
    }
}

/// The contents of a list of lines.
pub open spec fn cover_line_views(lines: Seq<CoverLine>) -> Seq<CoverLineView> {
    lines.map_values(|l: CoverLine| l@)
}

/// A title set like this has few lines, and its words need not be broken.
pub open spec fn is_well_set(title: Seq<char>, fits: spec_fn(Seq<char>) -> bool) -> bool {
    &&& lines_of(title, fits).len() <= TITLE_LINES
    &&& forall|i: int| 0 <= i < words(title).len() ==> fits(#[trigger] words(title)[i])
}

/// The largest size, from this one down, in which a title is well set, or the first small one.
pub open spec fn title_size<M: Fn(Face, &str, u32) -> bool>(
    title: Seq<char>,
    fits: M,
    size: u32,
) -> u32
    decreases size,
{
    if size > SMALL_TITLE_SIZE && !is_well_set(title, ruler(fits, Face::Title, size)) {
        title_size(title, fits, (size - TITLE_STEP) as u32)
    } else {
        size
    }
}

/// The height of a line: thirteen tenths of its size.
pub open spec fn line_height(size: u32) -> int {
    size * 520
}

/// The lines of a title and an author, one below the other. The author stands a line below the
/// title, and the whole a little above the middle: the classic balance of a cover, which also
/// keeps long titles from crowding either edge.
pub open spec fn stacked(title: Seq<Seq<char>>, size: u32, author: Seq<Seq<char>>) -> Seq<
    CoverLineView,
> {
    let gap = if author.len() == 0 {
        0
    } else {
        line_height(size)
    };
    let block = title.len() * line_height(size) + gap + author.len() * line_height(AUTHOR_SIZE);
    let middle = (GEN_HEIGHT * PIXEL - block) * 17 / 40;
    let top = if middle < GEN_MARGIN * PIXEL {
        GEN_MARGIN * PIXEL
    } else {
        middle
    };
    Seq::new(
        title.len(),
        |i: int|
            CoverLineView {
                text: title[i],
                face: Face::Title,
                size,
                top: top + i * line_height(size),
            },
    ) + Seq::new(
        author.len(),
        |i: int|
            CoverLineView {
                text: author[i],
                face: Face::Body,
                size: AUTHOR_SIZE,
                top: top + title.len() * line_height(size) + gap + i * line_height(AUTHOR_SIZE),
            },
    )
}

/// The lines of the cover that is drawn for a title and an author. A blank author has none.
pub open spec fn drawn_lines<M: Fn(Face, &str, u32) -> bool>(
    title: Seq<char>,
    author: Seq<char>,
    fits: M,
) -> Seq<CoverLineView> {
    let size = title_size(title, fits, TITLE_SIZE);
    stacked(
        lines_of(title, ruler(fits, Face::Title, size)),
        size,
        if is_blank(author) {
            Seq::empty()
        } else {
            lines_of(trimmed(author), ruler(fits, Face::Body, AUTHOR_SIZE))
        },
    )
}

fn is_set_well<M: Fn(Face, &str, u32) -> bool>(
    title: &str,
    lines: &Vec<String>,
    size: u32,
    fits: &M,
) -> (r: bool)
    requires
        is_ruler(*fits),
        texts(lines@) == lines_of(title@, ruler(*fits, Face::Title, size)),
    ensures
        r == is_well_set(title@, ruler(*fits, Face::Title, size)),
{
    let ghost rule = ruler(*fits, Face::Title, size);
    assert(texts(lines@).len() == lines@.len());
    if lines.len() > TITLE_LINES {
        return false;
    }
    let list = split_words(title);
    for i in 0..list.len()
        invariant
            is_ruler(*fits),
            rule == ruler(*fits, Face::Title, size),
            texts(list@) == words(title@),
            forall|k: int| 0 <= k < i ==> rule(#[trigger] words(title@)[k]),
    {
        assert(words(title@)[i as int] == list@[i as int]@);
        if !measures(fits, Face::Title, list[i].as_str(), size) {
            assert(!rule(words(title@)[i as int]));
            return false;
        }
    }
    true
}

fn stack_lines(title: Vec<String>, size: u32, author: Vec<String>) -> (r: Vec<CoverLine>)
    requires
        size <= TITLE_SIZE,
    ensures
        cover_line_views(r@) == stacked(texts(title@), size, texts(author@)),
{
    let ghost all = stacked(texts(title@), size, texts(author@));
    let n: usize = title.len();
    let m: usize = author.len();
    let title_height: i128 = size as i128 * 520;
    let author_height: i128 = AUTHOR_SIZE as i128 * 520;
    let gap: i128 = if m == 0 {
        0
    } else {
        title_height
    };
    assert(0 <= n * title_height <= 0xffff_ffff_ffff_ffff * 72_800) by (nonlinear_arith)
        requires
            0 <= n <= 0xffff_ffff_ffff_ffff,
            0 <= title_height <= 72_800,
    ;
    assert(0 <= m * author_height <= 0xffff_ffff_ffff_ffff * 37_440) by (nonlinear_arith)
        requires
            0 <= m <= 0xffff_ffff_ffff_ffff,
            author_height == 37_440,
    ;
    let title_block: i128 = n as i128 * title_height;
    let block: i128 = title_block + gap + m as i128 * author_height;
    let spare: i128 = GEN_HEIGHT as i128 * PIXEL - block;
    let edge: i128 = GEN_MARGIN as i128 * PIXEL;
    // Where the lines leave no room, the division below would round the other way.
    let top: i128 = if spare <= 0 || spare * 17 / 40 < edge {
        edge
    } else {
        spare * 17 / 40
    };
    let mut out: Vec<CoverLine> = Vec::new();
    let ghost titles = texts(title@);
    let ghost authors = texts(author@);
    for line in it: title
        invariant
            it.seq() == title@,
            titles == texts(title@),
            n == title@.len(),
            title_height == line_height(size),
            0 <= title_height <= 72_800,
            0 <= top <= 1_000_000,
            all == stacked(titles, size, authors),
            all.len() == titles.len() + authors.len(),
            forall|i: int|
                0 <= i < titles.len() ==> #[trigger] all[i] == (CoverLineView {
                    text: titles[i],
                    face: Face::Title,
                    size,
                    top: top + i * line_height(size),
                }),
            cover_line_views(out@) == all.take(it.index() as int),
            out@.len() == it.index(),
    {
        let ghost i = it.index() as int;
        let ghost before = out@;
        let place: usize = out.len();
        assert(0 <= place * title_height <= 0xffff_ffff_ffff_ffff * 72_800) by (nonlinear_arith)
            requires
                0 <= place <= 0xffff_ffff_ffff_ffff,
                0 <= title_height <= 72_800,
        ;
        let next = CoverLine {
            text: line,
            face: Face::Title,
            size,
            top: top + place as i128 * title_height,
        };
        let ghost view = next@;
        assert(titles[i] == line@);
        assert(all[i] == view);
        out.push(next);
        assert(cover_line_views(out@) == cover_line_views(before).push(view));
        assert(all.take(i + 1) == all.take(i).push(view));
    }
    let below: i128 = top + title_block + gap;
    let mut place: usize = 0;
    for line in it: author
        invariant
            it.seq() == author@,
            authors == texts(author@),
            n == titles.len(),
            m == author@.len(),
            place == it.index(),
            author_height == 37_440,
            0 <= below <= 0xffff_ffff_ffff_ffff * 72_800 + 2_000_000,
            all == stacked(titles, size, authors),
            all.len() == titles.len() + authors.len(),
            forall|i: int|
                0 <= i < authors.len() ==> #[trigger] all[n + i] == (CoverLineView {
                    text: authors[i],
                    face: Face::Body,
                    size: AUTHOR_SIZE,
                    top: below + i * line_height(AUTHOR_SIZE),
                }),
            cover_line_views(out@) == all.take(n + it.index()),
    {
        let ghost i = it.index() as int;
        let ghost before = out@;
        assert(0 <= place * author_height <= 0xffff_ffff_ffff_ffff * 37_440) by (nonlinear_arith)
            requires
                0 <= place <= 0xffff_ffff_ffff_ffff,
                author_height == 37_440,
        ;
        let next = CoverLine {
            text: line,
            face: Face::Body,
            size: AUTHOR_SIZE,
            top: below + place as i128 * author_height,
        };
        let ghost view = next@;
        assert(authors[i] == line@);
        assert(all[n + i] == view);
        out.push(next);
        assert(cover_line_views(out@) == cover_line_views(before).push(view));
        assert(all.take(n + i + 1) == all.take(n + i).push(view));
        place = place + 1;
    }
    assert(all.take(all.len() as int) == all);
    out
}

/// Sets a title and an author for a cover: see `drawn_lines`.
pub fn set_cover_lines<M: Fn(Face, &str, u32) -> bool>(title: &str, author: &str, fits: &M) -> (r:
    Vec<CoverLine>)
    requires
        is_ruler(*fits),
    ensures
        cover_line_views(r@) == drawn_lines(title@, author@, *fits),
{
    // The title shrinks until it wraps into few lines and its longest word fits the column:
    // a long word would otherwise have to be broken, which reads badly.
    let mut size: u32 = TITLE_SIZE;
    let mut lines = wrap_text(title, Face::Title, size, fits);
    while size > SMALL_TITLE_SIZE && !is_set_well(title, &lines, size, fits)
        invariant
            is_ruler(*fits),
            size <= TITLE_SIZE,
            texts(lines@) == lines_of(title@, ruler(*fits, Face::Title, size)),
            title_size(title@, *fits, size) == title_size(title@, *fits, TITLE_SIZE),
        decreases size,
    {
        size = size - TITLE_STEP;
        lines = wrap_text(title, Face::Title, size, fits);
    }
    let name = author.trim();
    let mut author_lines: Vec<String> = Vec::new();
    assert(texts(author_lines@) == Seq::<Seq<char>>::empty());
    if !name.is_empty() {
        author_lines = wrap_text(name, Face::Body, AUTHOR_SIZE, fits);
    }
    stack_lines(lines, size, author_lines)
}

/// The size that was chosen is one of the steps down from the largest, the title is well set in
/// it or it is a small one, and in no larger step the title is well set.
pub proof fn the_title_is_as_large_as_it_can_be<M: Fn(Face, &str, u32) -> bool>(
    title: Seq<char>,
    fits: M,
    start: u32,
    larger: u32,
)
    requires
        title_size(title, fits, start) < larger <= start,
        (start - larger) % (TITLE_STEP as int) == 0,
    ensures
        !is_well_set(title, ruler(fits, Face::Title, larger)),
        title_size(title, fits, start) > SMALL_TITLE_SIZE ==> is_well_set(
            title,
            ruler(fits, Face::Title, title_size(title, fits, start)),
        ),
    decreases start,
{
    let next = (start - TITLE_STEP) as u32;
    if larger < start {
        the_title_is_as_large_as_it_can_be(title, fits, next, larger);
    } else if title_size(title, fits, start) > SMALL_TITLE_SIZE {
        lemma_title_size(title, fits, start);
    }
}

proof fn lemma_title_size<M: Fn(Face, &str, u32) -> bool>(title: Seq<char>, fits: M, size: u32)
    ensures
        title_size(title, fits, size) > SMALL_TITLE_SIZE ==> is_well_set(
            title,
            ruler(fits, Face::Title, title_size(title, fits, size)),
        ),
    decreases size,
{
    if size > SMALL_TITLE_SIZE && !is_well_set(title, ruler(fits, Face::Title, size)) {
        lemma_title_size(title, fits, (size - TITLE_STEP) as u32);
    }
}

/// The samples of the drawn cover: exactly as many as it has, with black where some are missing.
pub open spec fn canvas_of(samples: Seq<u8>) -> Seq<u8> {
    Seq::new(
        3 * (GEN_WIDTH as nat * GEN_HEIGHT as nat),
        |i: int|
            if i < samples.len() {
                samples[i]
            } else {
                0
            },
    )
}

/// The cover that was drawn with these samples.
pub open spec fn cover_of_canvas(samples: Seq<u8>) -> CoverView {
    CoverView {
        filename: "cover.jpg"@,
        mime: "image/jpeg"@,
        bytes: jpeg_of(GEN_WIDTH, GEN_HEIGHT, canvas_of(samples), JPEG_QUALITY)->Ok_0,
        width: GEN_WIDTH as nat,
        height: GEN_HEIGHT as nat,
        consumed_image: None,
    }
}

/// Makes a cover of what was drawn: see `cover_of_canvas`. This never fails.
pub fn cover_from_canvas(samples: Vec<u8>) -> (r: Cover)
    ensures
        r@ == cover_of_canvas(samples@),
        jpeg_of(GEN_WIDTH, GEN_HEIGHT, canvas_of(samples@), JPEG_QUALITY) is Ok,
        r@.bytes.len() > 0,
{
    let ghost painted = samples@;
    let mut canvas = samples;
    canvas.resize(12_288_000, 0);
    assert(3 * (GEN_WIDTH as nat * GEN_HEIGHT as nat) == 12_288_000);
    assert(canvas@ == canvas_of(painted));
    let bytes = match encode_jpeg(GEN_WIDTH, GEN_HEIGHT, canvas, JPEG_QUALITY) {
        Ok(bytes) => bytes,
        Err(_) => Vec::new(),
    };
    Cover {
        filename: "cover.jpg".to_owned(),
        mime: "image/jpeg",
        bytes,
        width: GEN_WIDTH,
        height: GEN_HEIGHT,
        consumed_image: None,
    }
}

/// The lines of a drawn cover are those of the title, in its typeface and size, and below them
/// those of the author, in the other typeface and of size 72. Each line stands thirteen tenths of
/// its size below the one before it, and a line of the title is left free before the author.
pub proof fn cover_lines_stand_one_below_the_other(
    title: Seq<Seq<char>>,
    size: u32,
    author: Seq<Seq<char>>,
    i: int,
    j: int,
)
    ensures
        ({
            let lines = stacked(title, size, author);
            let n = title.len() as int;
            &&& lines.len() == title.len() + author.len()
            &&& 0 <= i < n ==> lines[i].text == title[i] && lines[i].face == Face::Title
                && lines[i].size == size
            &&& 0 <= j < author.len() ==> lines[n + j].text == author[j] && lines[n + j].face
                == Face::Body && lines[n + j].size == 72
            &&& 0 <= i < n - 1 ==> lines[i + 1].top - lines[i].top == 520 * size
            &&& 0 < n && 0 < author.len() ==> lines[n].top - lines[n - 1].top == 2 * (520 * size)
            &&& 0 <= j < author.len() - 1 ==> lines[n + j + 1].top - lines[n + j].top == 520 * 72
        }),
{
    let n = title.len() as int;
    let h = line_height(size);
    assert((i + 1) * h == i * h + h) by (nonlinear_arith);
    assert((n - 1) * h == n * h - h) by (nonlinear_arith);
    let lines = stacked(title, size, author);
    if n > 0 && author.len() > 0 {
        assert(0 * h == 0) by (nonlinear_arith);
        assert(0 * line_height(72) == 0) by (nonlinear_arith);
        assert(lines[n - 1].top == lines[0].top + (n - 1) * h);
        assert(lines[n].top == lines[0].top + n * h + h);
    }
}

/// Where the block of lines leaves room, its top takes up 85 hundredths of half of what it leaves
/// of the height of 2560, and it never comes closer to the edge than 200. Heights count in parts
/// of a pixel, 400 to one.
pub proof fn cover_lines_stand_above_the_middle(
    title: Seq<Seq<char>>,
    size: u32,
    author: Seq<Seq<char>>,
)
    requires
        title.len() + author.len() > 0,
    ensures
        ({
            let top = stacked(title, size, author)[0].top - (if title.len() == 0 {
                520 * size
            } else {
                0
            });
            let block = title.len() * (520 * size) + (if author.len() == 0 {
                0
            } else {
                520 * size
            }) + author.len() * (520 * 72);
            let left = 2560 * 400 - block;
            &&& top >= 200 * 400
            &&& top > 200 * 400 ==> 0 <= 85 * left - 200 * top < 200
            &&& top == 200 * 400 ==> 85 * left < 200 * (200 * 400 + 1)
        }),
{
    let h = line_height(size);
    assert(0 * h == 0) by (nonlinear_arith);
    assert(0 * line_height(72) == 0) by (nonlinear_arith);
}

/// The title is set in the largest size, from 140 down in steps of 8, in which it has at most five
/// lines and no word is broken. It shrinks no further than to the first size of at most 40.
pub proof fn the_title_shrinks_only_where_it_must<M: Fn(Face, &str, u32) -> bool>(
    title: Seq<char>,
    author: Seq<char>,
    fits: M,
    larger: u32,
)
    ensures
        ({
            let size = title_size(title, fits, TITLE_SIZE);
            let lines = lines_of(title, ruler(fits, Face::Title, size));
            let names = if is_blank(author) {
                Seq::empty()
            } else {
                lines_of(trimmed(author), ruler(fits, Face::Body, 72))
            };
            &&& 36 <= size <= 140
            &&& (140 - size) % 8 == 0
            &&& size > 40 ==> lines.len() <= 5 && forall|i: int|
                0 <= i < words(title).len() ==> ruler(fits, Face::Title, size)(
                    #[trigger] words(title)[i],
                )
            &&& size < larger <= 140 && (140 - larger) % 8 == 0 ==> lines_of(
                title,
                ruler(fits, Face::Title, larger),
            ).len() > 5 || exists|i: int|
                0 <= i < words(title).len() && !ruler(fits, Face::Title, larger)(
                    #[trigger] words(title)[i],
                )
            &&& drawn_lines(title, author, fits) == stacked(lines, size, names)
        }),
{
    lemma_title_steps(title, fits, 140);
    lemma_title_size(title, fits, 140);
    let size = title_size(title, fits, TITLE_SIZE);
    if size < larger <= 140 && (140 - larger) % 8 == 0 {
        the_title_is_as_large_as_it_can_be(title, fits, 140, larger);
    }
}

proof fn lemma_title_steps<M: Fn(Face, &str, u32) -> bool>(title: Seq<char>, fits: M, size: u32)
    requires
        36 <= size <= 140,
        (140 - size) % 8 == 0,
    ensures
        36 <= title_size(title, fits, size) <= size,
        (140 - title_size(title, fits, size)) % 8 == 0,
    decreases size,
{
    if size > SMALL_TITLE_SIZE && !is_well_set(title, ruler(fits, Face::Title, size)) {
        lemma_title_steps(title, fits, (size - TITLE_STEP) as u32);
    }
}

/// A drawn cover is 1600 wide and 2560 high and shows the samples that were painted, in their
/// order. Missing ones are black, and there are no more than that.
pub proof fn a_drawn_cover_shows_what_was_painted(samples: Seq<u8>, i: int)
    requires
        0 <= i < 3 * 1600 * 2560,
    ensures
        cover_of_canvas(samples).width == 1600,
        cover_of_canvas(samples).height == 2560,
        cover_of_canvas(samples).mime == "image/jpeg"@,
        cover_of_canvas(samples).consumed_image is None,
        cover_of_canvas(samples).bytes == jpeg_of(1600, 2560, canvas_of(samples), 88)->Ok_0,
        canvas_of(samples).len() == 3 * 1600 * 2560,
        canvas_of(samples)[i] == (if i < samples.len() {
            samples[i]
        } else {
            0u8
        }),
{
}

/// The painter may be given any lines.
pub open spec fn paints_anything<P: Fn(&Vec<CoverLine>) -> Vec<u8>>(paint: P) -> bool {
    forall|lines: &Vec<CoverLine>| call_requires(paint, (lines,))
}

/// The cover shows what the painter made of the title and the author.
pub open spec fn is_drawn<
    M: Fn(Face, &str, u32) -> bool,
    P: Fn(&Vec<CoverLine>) -> Vec<u8>,
>(cover: CoverView, title: Seq<char>, author: Seq<char>, fits: M, paint: P) -> bool {
    exists|lines: Vec<CoverLine>, samples: Vec<u8>|
        cover_line_views(lines@) == drawn_lines(title, author, fits) && #[trigger] call_ensures(
            paint,
            (&lines,),
            samples,
        ) && cover == cover_of_canvas(samples@)
}

/// Draws a plain typographic cover: the title in the upper half, the author below it. The caller
/// brings the ruler and the painter.
pub fn generate<M: Fn(Face, &str, u32) -> bool, P: Fn(&Vec<CoverLine>) -> Vec<u8>>(
    title: &str,
    author: &str,
    fits: &M,
    paint: &P,
) -> (r: Cover)
    requires
        is_ruler(*fits),
        paints_anything(*paint),
    ensures
        is_drawn(r@, title@, author@, *fits, *paint),
        r@.bytes.len() > 0,
{
    let lines = set_cover_lines(title, author, fits);
    let samples = paint(&lines);
    let ghost painted = samples;
    let cover = cover_from_canvas(samples);
    assert(call_ensures(*paint, (&lines,), painted));
    cover
}

// ---------------------------------------------------------------------------------------
// Choosing
// ---------------------------------------------------------------------------------------

/// A file that the user pointed at, and what reading it gave.
#[derive(Debug)]
pub struct ExplicitCover {
    pub name: String,
    pub content: Result<Vec<u8>, String>,
}

/// The cover that a file may make, or why it makes none.
pub open spec fn may_come_of_file<D: Fn(&[u8]) -> Result<(u32, u32, Vec<u8>), String>>(
    decode: D,
    file: ExplicitCover,
    made: Result<CoverView, Seq<char>>,
) -> bool {
    match file.content {
        Ok(bytes) => may_make_cover(decode, bytes@, made),
        Err(e) => made == Err::<CoverView, Seq<char>>(e@),
    }
}

/// The cover that the file which the user pointed at may make, or why it makes none. There may
/// be no such file.
pub open spec fn may_come_of_user<D: Fn(&[u8]) -> Result<(u32, u32, Vec<u8>), String>>(
    decode: D,
    explicit: Option<ExplicitCover>,
    made: Option<Result<CoverView, Seq<char>>>,
) -> bool {
    match (explicit, made) {
        (Some(file), Some(outcome)) => may_come_of_file(decode, file, outcome),
        (None, None) => true,
        _ => false,
    }
}

/// What is reported of a file that serves as the cover.
pub open spec fn taken_message(name: Seq<char>, cover: CoverView) -> Seq<char> {
    "capa: arquivo informado "@ + name + " ("@ + dimensions(cover.width, cover.height) + ")"@
}

/// What is reported of a file that does not.
pub open spec fn refused_message(name: Seq<char>, reason: Seq<char>) -> Seq<char> {
    "capa: não consegui usar "@ + name + " ("@ + reason + "), tentando detectar no PDF"@
}

/// What is reported of a cover that is drawn.
pub open spec fn drawn_message() -> Seq<char> {
    "capa: nenhuma imagem adequada no PDF, gerando capa com título e autor ("@ + dimensions(
        GEN_WIDTH as nat,
        GEN_HEIGHT as nat,
    ) + ")"@
}

/// What is reported before a cover is looked for in the document.
pub open spec fn refusal(
    explicit: Option<ExplicitCover>,
    made: Option<Result<CoverView, Seq<char>>>,
) -> Seq<Seq<char>> {
    match (explicit, made) {
        (Some(file), Some(Err(e))) => seq![refused_message(file.name@, e)],
        _ => Seq::empty(),
    }
}

fn use_explicit<D: Fn(&[u8]) -> Result<(u32, u32, Vec<u8>), String>>(
    file: ExplicitCover,
    decode: &D,
    log: &mut Vec<String>,
) -> (r: Result<Cover, String>)
    requires
        decodes_anything(*decode),
    ensures
        may_come_of_file(*decode, file, outcome_view(r)),
        texts(final(log)@) == texts(old(log)@).push(
            match r {
                Ok(cover) => taken_message(file.name@, cover@),
                Err(e) => refused_message(file.name@, e@),
            },
        ),
{
    let ghost before = log@;
    let name = file.name;
    let made = match file.content {
        Ok(bytes) => cover_from_bytes(bytes, decode),
        Err(e) => Err(e),
    };
    match made {
        Ok(cover) => {
            let mut message: String = "capa: arquivo informado ".to_owned();
            message.append(name.as_str());
            message.append(" (");
            push_dimensions(&mut message, cover.width, cover.height);
            message.append(")");
            let ghost words = message@;
            log.push(message);
            assert(texts(log@) == texts(before).push(words));
            Ok(cover)
        },
        Err(e) => {
            let mut message: String = "capa: não consegui usar ".to_owned();
            message.append(name.as_str());
            message.append(" (");
            message.append(e.as_str());
            message.append("), tentando detectar no PDF");
            let ghost words = message@;
            log.push(message);
            assert(texts(log@) == texts(before).push(words));
            Err(e)
        },
    }
}

/// Picks the cover, in decreasing order of confidence: a file that the user pointed at, the
/// largest picture of the opening pages, or a typographic cover drawn from the title and the
/// author. The last one never fails, so that every book has a cover. The caller brings the
/// decoder, the ruler and the painter.
pub fn select_cover<
    D: Fn(&[u8]) -> Result<(u32, u32, Vec<u8>), String>,
    M: Fn(Face, &str, u32) -> bool,
    P: Fn(&Vec<CoverLine>) -> Vec<u8>,
>(
    doc: &ExtractedDoc,
    explicit: Option<ExplicitCover>,
    title: &str,
    author: &str,
    decode: &D,
    fits: &M,
    paint: &P,
    log: &mut Vec<String>,
) -> (r: Cover)
    requires
        decodes_anything(*decode),
        is_ruler(*fits),
        paints_anything(*paint),
    ensures
        exists|made: Option<Result<CoverView, Seq<char>>>| #[trigger]
            may_come_of_user(*decode, explicit, made) && match (made, detected_cover(doc@)) {
                (Some(Ok(view)), _) => r@ == view && texts(final(log)@) == texts(
                    old(log)@,
                ).push(taken_message(explicit->0.name@, view)),
                (_, Some(idx)) => r@ == cover_of_picture(doc@.images[idx as int], idx) && texts(
                    final(log)@,
                ) == texts(old(log)@) + refusal(explicit, made) + search_messages(doc@),
                (_, None) => is_drawn(r@, title@, author@, *fits, *paint) && r@.bytes.len() > 0
                    && texts(final(log)@) == (texts(old(log)@) + refusal(explicit, made)
                    + search_messages(doc@)).push(drawn_message()),
            },
{
    let ghost said = texts(log@);
    let ghost mut made: Option<Result<CoverView, Seq<char>>> = None;
    assert(said + Seq::<Seq<char>>::empty() == said);
    if let Some(file) = explicit {
        let outcome = use_explicit(file, decode, log);
        proof {
            made = Some(outcome_view(outcome));
            assert(may_come_of_user(*decode, explicit, made));
        }
        match outcome {
            Ok(cover) => {
                return cover;
            },
            Err(_) => {
                assert(said + refusal(explicit, made) == said.push(refusal(explicit, made)[0]));
            },
        }
    }
    let ghost refused = refusal(explicit, made);
    assert(may_come_of_user(*decode, explicit, made));
    assert(texts(log@) == said + refused);
    if let Some(cover) = detect_in_pdf(doc, log) {
        return cover;
    }
    let cover = generate(title, author, fits, paint);
    let ghost before = log@;
    let mut message: String =
        "capa: nenhuma imagem adequada no PDF, gerando capa com título e autor (".to_owned();
    push_dimensions(&mut message, GEN_WIDTH, GEN_HEIGHT);
    message.append(")");
    let ghost words = message@;
    log.push(message);
    assert(texts(log@) == texts(before).push(words));
    cover
}

/// Every cover has one of two names, whether it comes from a file, from the document or from
/// the painter.
pub proof fn covers_have_one_of_two_names(
    bytes: Seq<u8>,
    picture: Result<(u32, u32, Seq<u8>), Seq<char>>,
    format: Result<PictureFormat, Seq<char>>,
    image: ImageView,
    idx: nat,
    samples: Seq<u8>,
)
    ensures
        cover_of_decoded(bytes, picture, format) matches Ok(cover) ==> cover.filename
            == "cover.jpg"@ || cover.filename == "cover.png"@,
        cover_of_picture(image, idx).filename == "cover.jpg"@ || cover_of_picture(
            image,
            idx,
        ).filename == "cover.png"@,
        cover_of_canvas(samples).filename == "cover.jpg"@,
{
}

} // verus!
