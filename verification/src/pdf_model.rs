//! What the pages of a PDF come down to: lines of text and pictures, in reading order.
//!
//! Measures are integers. A position or a font size counts millionths of a point, and where a
//! line starts counts far finer parts of the page width, so that every comparison is exact.
use vstd::prelude::*;

verus! {

/// The number of units in a point.
pub const UNIT: i64 = 1_000_000;

/// The number of parts of the page width that tell where a line starts.
pub const FULL_WIDTH: i64 = 1_000_000_000_000_000;

/// A line of text and where it stands on its page.
#[derive(Debug)]
pub struct TextRun {
    pub text: String,
    /// Distance of the line from the top of the page.
    pub y: i64,
    pub font_size: i64,
    /// Where the line starts, as a fraction of the page width, so that lines from pages of
    /// different sizes can be compared. There is no `x_end`: the extractor reports no usable
    /// glyph advance, so where a line ends cannot be known.
    pub x_start: i64,
}

/// A picture, ready to be written to the book.
#[derive(Debug)]
pub struct ImageAsset {
    pub filename: String,
    pub bytes: Vec<u8>,
    pub mime: &'static str,
    /// Size in pixels as the PDF declares it.
    pub width: u32,
    pub height: u32,
}

#[derive(Debug)]
pub enum FlowEvent {
    Line(TextRun),
    /// An index into the pictures of the document.
    Image(usize),
}

#[derive(Debug)]
pub struct PageFlow {
    pub page_num: u32,
    /// Each event with its distance from the top of the page.
    pub events: Vec<(i64, FlowEvent)>,
}

pub struct ExtractedDoc {
    pub pages: Vec<PageFlow>,
    pub images: Vec<ImageAsset>,
}

#[verifier::ext_equal]
pub ghost struct RunView {
    pub text: Seq<char>,
    pub y: int,
    pub font_size: int,
    pub x_start: int,
}

#[verifier::ext_equal]
pub ghost struct ImageView {
    pub filename: Seq<char>,
    pub bytes: Seq<u8>,
    pub mime: Seq<char>,
    pub width: nat,
    pub height: nat,
}

#[verifier::ext_equal]
pub ghost enum EventView {
    Line(RunView),
    Image(nat),
}

#[verifier::ext_equal]
pub ghost struct PageView {
    pub page_num: nat,
    pub events: Seq<(int, EventView)>,
}

#[verifier::ext_equal]
pub ghost struct DocView {
    pub pages: Seq<PageView>,
    pub images: Seq<ImageView>,
}

impl View for TextRun {
    type V = RunView;

    open spec fn view(&self) -> RunView {
        RunView {
            text: self.text@,
            y: self.y as int,
            font_size: self.font_size as int,
            x_start: self.x_start as int,
        }
    }
}

impl View for ImageAsset {
    type V = ImageView;

    open spec fn view(&self) -> ImageView {
        ImageView {
            filename: self.filename@,
            bytes: self.bytes@,
            mime: self.mime@,
            width: self.width as nat,
            height: self.height as nat,
        }
    }
}

impl View for FlowEvent {
    type V = EventView;

    open spec fn view(&self) -> EventView {
        match self {
            FlowEvent::Line(run) => EventView::Line(run@),
            FlowEvent::Image(idx) => EventView::Image(*idx as nat),
        }
    }
}

impl View for PageFlow {
    type V = PageView;

    open spec fn view(&self) -> PageView {
        PageView {
            page_num: self.page_num as nat,
            events: self.events@.map_values(|e: (i64, FlowEvent)| (e.0 as int, e.1@)),
        }
    }
}

impl View for ExtractedDoc {
    type V = DocView;

    open spec fn view(&self) -> DocView {
        DocView {
            pages: self.pages@.map_values(|p: PageFlow| p@),
            images: self.images@.map_values(|i: ImageAsset| i@),
        }
    }
}

/// The contents of a list of pictures.
pub open spec fn image_views(images: Seq<ImageAsset>) -> Seq<ImageView> {
    images.map_values(|i: ImageAsset| i@)
}

/// The contents of a list of pages.
pub open spec fn page_views(pages: Seq<PageFlow>) -> Seq<PageView> {
    pages.map_values(|p: PageFlow| p@)
}

/// The contents of a list of events.
pub open spec fn event_views(events: Seq<FlowEvent>) -> Seq<EventView> {
    events.map_values(|e: FlowEvent| e@)
}

impl Clone for TextRun {
    fn clone(&self) -> (r: Self)
        ensures
            r@ == self@,
    {
        TextRun {
            text: self.text.clone(),
            y: self.y,
            font_size: self.font_size,
            x_start: self.x_start,
        }
    }
}

impl Clone for FlowEvent {
    fn clone(&self) -> (r: Self)
        ensures
            r@ == self@,
    {
        match self {
            FlowEvent::Line(run) => FlowEvent::Line(run.clone()),
            FlowEvent::Image(idx) => FlowEvent::Image(*idx),
        }
    }
}

} // verus!
