//! Infers the document's visual structure from the geometry of its lines.
//!
//! A PDF carries no notion of "paragraph" or "heading", only glyphs at coordinates. Three
//! measurements recover most of what a reader sees: each line's font size, where the line
//! starts, and its vertical distance to the line before it. Nothing here depends on where a
//! line ends, which the extractor cannot tell: no justification test and no centring detection.
use vstd::prelude::*;

use crate::order::{
    are_all_positions, ascends, percentile, percentile_is_a_value, percentile_of,
    percentile_stands_at_its_share,
};
use crate::pdf_model::{
    event_views, DocView, EventView, ExtractedDoc, FlowEvent, PageView, RunView, TextRun,
};
use crate::text::{contains_alphanumeric, has_alphanumeric, is_blank, trimmed};

verus! {

/// A line starting at least this far right of the margin opens a new paragraph.
pub const INDENT_MIN: i64 = 12_000_000_000_000;

/// Vertical distance, in hundredths of the usual line spacing, that marks a paragraph break.
pub const PARAGRAPH_GAP: i64 = 135;

/// A line starting past this point of the page width is set flush right, not indented.
pub const RIGHT_ALIGN_MIN_X: i64 = 450_000_000_000_000;

/// Font size, in hundredths of the body's, at which a short line reads as a subheading.
pub const HEADING_MIN: i64 = 110;

/// Font size, in hundredths of the body's, up to which a line reads as caption-sized.
pub const CAPTION_MAX: i64 = 92;

/// A heading has fewer characters than this.
pub const HEADING_MAX_CHARS: usize = 80;

/// An attribution has fewer characters than this.
pub const RIGHT_ALIGN_MAX_CHARS: usize = 60;

/// Statistics that every line is measured against, taken over the whole document so that
/// every chapter is judged by the same ruler.
#[derive(Debug, Clone, Copy)]
pub struct LayoutMetrics {
    pub baseline_font: i64,
    /// Left edge of the text column.
    pub left_margin: i64,
    /// The usual vertical distance between consecutive lines of one paragraph.
    pub line_gap: i128,
}

impl Default for LayoutMetrics {
    fn default() -> (r: Self)
        ensures
            r == default_metrics(),
    {
        LayoutMetrics { baseline_font: 1_000_000, left_margin: 0, line_gap: 1_000_000 }
    }
}

/// The ruler for a document without a single line.
pub open spec fn default_metrics() -> LayoutMetrics {
    LayoutMetrics { baseline_font: 1_000_000, left_margin: 0, line_gap: 1_000_000 }
}

/// One piece of rendered structure. Everything the EPUB writes out is one of these.
#[derive(Debug, PartialEq)]
pub enum Block {
    Heading(String),
    Paragraph(String),
    Caption(String),
    RightAligned(String),
    Image(usize),
}

#[verifier::ext_equal]
pub ghost enum BlockView {
    Text(Kind, Seq<char>),
    Image(nat),
}

impl View for Block {
    type V = BlockView;

    open spec fn view(&self) -> BlockView {
        match self {
            Block::Heading(t) => BlockView::Text(Kind::Heading, t@),
            Block::Paragraph(t) => BlockView::Text(Kind::Paragraph, t@),
            Block::Caption(t) => BlockView::Text(Kind::Caption, t@),
            Block::RightAligned(t) => BlockView::Text(Kind::RightAligned, t@),
            Block::Image(idx) => BlockView::Image(*idx as nat),
        }
    }
}

/// The contents of a list of blocks.
pub open spec fn block_views(blocks: Seq<Block>) -> Seq<BlockView> {
    blocks.map_values(|b: Block| b@)
}

/// What a block of text is.
#[derive(Debug, Clone, Copy, PartialEq, Eq, Structural)]
pub enum Kind {
    Heading,
    Paragraph,
    Caption,
    RightAligned,
}

// ---------------------------------------------------------------------------------------
// Measuring
// ---------------------------------------------------------------------------------------

/// The lines of a page that hold more than white space, from the top.
pub open spec fn page_runs(events: Seq<(int, EventView)>) -> Seq<RunView>
    decreases events.len(),
{
    if events.len() == 0 {
        Seq::empty()
    } else {
        let before = page_runs(events.drop_last());
        match events.last().1 {
            EventView::Line(run) if !is_blank(run.text) => before.push(run),
            _ => before,
        }
    }
}

/// The lines of all pages that hold more than white space.
pub open spec fn doc_runs(pages: Seq<PageView>) -> Seq<RunView>
    decreases pages.len(),
{
    if pages.len() == 0 {
        Seq::empty()
    } else {
        doc_runs(pages.drop_last()) + page_runs(pages.last().events)
    }
}

/// The distances between neighbouring lines that lead down the page.
pub open spec fn run_gaps(runs: Seq<RunView>) -> Seq<i128>
    decreases runs.len(),
{
    if runs.len() < 2 {
        Seq::empty()
    } else {
        let before = run_gaps(runs.drop_last());
        let gap = runs.last().y - runs[runs.len() - 2].y;
        if gap > 0 {
            before.push(gap as i128)
        } else {
            before
        }
    }
}

/// The distances between neighbouring lines of one page, page after page. The step from the
/// bottom of a page to the top of the next one is not among them.
pub open spec fn doc_gaps(pages: Seq<PageView>) -> Seq<i128>
    decreases pages.len(),
{
    if pages.len() == 0 {
        Seq::empty()
    } else {
        doc_gaps(pages.drop_last()) + run_gaps(page_runs(pages.last().events))
    }
}

pub open spec fn font_sizes(runs: Seq<RunView>) -> Seq<i128> {
    runs.map_values(|r: RunView| r.font_size as i128)
}

pub open spec fn line_starts(runs: Seq<RunView>) -> Seq<i128> {
    runs.map_values(|r: RunView| r.x_start as i128)
}

/// The value, or the smallest positive one where it is not positive.
pub open spec fn positive(v: i128) -> i128 {
    if v < 1 {
        1
    } else {
        v
    }
}

/// The ruler of a document: the median font size, the start of the line a tenth of the way
/// through (a single stray glyph in the gutter does not move it), and the median distance
/// between neighbouring lines.
pub open spec fn metrics_of(doc: DocView) -> LayoutMetrics {
    let runs = doc_runs(doc.pages);
    let gaps = doc_gaps(doc.pages);
    if runs.len() == 0 {
        default_metrics()
    } else {
        let baseline = positive(percentile_of(font_sizes(runs), 50));
        LayoutMetrics {
            baseline_font: baseline as i64,
            left_margin: percentile_of(line_starts(runs), 10) as i64,
            line_gap: if gaps.len() == 0 {
                baseline
            } else {
                positive(percentile_of(gaps, 50))
            },
        }
    }
}

/// The event is a line that holds more than white space.
pub open spec fn is_text_line(event: (int, EventView)) -> bool {
    event.1 matches EventView::Line(run) && !is_blank(run.text)
}

/// A page without its pictures and its blank lines.
pub open spec fn text_only(page: PageView) -> PageView {
    PageView {
        events: page.events.filter(|event: (int, EventView)| is_text_line(event)),
        ..page
    }
}

proof fn lemma_text_only(events: Seq<(int, EventView)>)
    ensures
        page_runs(events.filter(|event: (int, EventView)| is_text_line(event))) == page_runs(
            events,
        ),
    decreases events.len(),
{
    reveal(Seq::filter);
    if events.len() > 0 {
        let wanted = |event: (int, EventView)| is_text_line(event);
        let less = events.drop_last().filter(wanted);
        lemma_text_only(events.drop_last());
        if wanted(events.last()) {
            let more = less.push(events.last());
            assert(events.filter(wanted) == more);
            assert(more.drop_last() == less);
            assert(more.last() == events.last());
        }
    }
}

proof fn lemma_text_only_pages(pages: Seq<PageView>)
    ensures
        doc_runs(pages.map_values(|page: PageView| text_only(page))) == doc_runs(pages),
        doc_gaps(pages.map_values(|page: PageView| text_only(page))) == doc_gaps(pages),
    decreases pages.len(),
{
    let stripped = |page: PageView| text_only(page);
    if pages.len() > 0 {
        lemma_text_only_pages(pages.drop_last());
        lemma_text_only(pages.last().events);
        assert(pages.map_values(stripped).drop_last() == pages.drop_last().map_values(stripped));
        assert(pages.map_values(stripped).last() == text_only(pages.last()));
    }
}

/// Pictures and blank lines do not count: a document without them measures the same.
pub proof fn only_text_is_measured(doc: DocView)
    ensures
        metrics_of(
            DocView { pages: doc.pages.map_values(|page: PageView| text_only(page)), ..doc },
        ) == metrics_of(doc),
{
    lemma_text_only_pages(doc.pages);
}

/// A document without any text gets the ordinary measures.
pub proof fn a_document_without_text_is_ordinary(doc: DocView)
    requires
        forall|i: int, k: int|
            0 <= i < doc.pages.len() && 0 <= k < doc.pages[i].events.len() ==> !is_text_line(
                #[trigger] doc.pages[i].events[k],
            ),
    ensures
        metrics_of(doc) == default_metrics(),
        metrics_of(doc).baseline_font == 1_000_000,
        metrics_of(doc).left_margin == 0,
        metrics_of(doc).line_gap == 1_000_000,
{
    lemma_no_text(doc.pages);
}

proof fn lemma_no_lines(events: Seq<(int, EventView)>)
    requires
        forall|k: int| 0 <= k < events.len() ==> !is_text_line(#[trigger] events[k]),
    ensures
        page_runs(events) == Seq::<RunView>::empty(),
    decreases events.len(),
{
    if events.len() > 0 {
        assert(!is_text_line(events[events.len() - 1]));
        assert forall|k: int| 0 <= k < events.drop_last().len() implies !is_text_line(
            #[trigger] events.drop_last()[k],
        ) by {
            assert(events.drop_last()[k] == events[k]);
        }
        lemma_no_lines(events.drop_last());
    }
}

proof fn lemma_no_text(pages: Seq<PageView>)
    requires
        forall|i: int, k: int|
            0 <= i < pages.len() && 0 <= k < pages[i].events.len() ==> !is_text_line(
                #[trigger] pages[i].events[k],
            ),
    ensures
        doc_runs(pages) == Seq::<RunView>::empty(),
    decreases pages.len(),
{
    if pages.len() > 0 {
        let last = pages.last();
        assert forall|k: int| 0 <= k < last.events.len() implies !is_text_line(
            #[trigger] last.events[k],
        ) by {
            assert(last.events[k] == pages[pages.len() - 1].events[k]);
        }
        lemma_no_lines(last.events);
        let less = pages.drop_last();
        assert forall|i: int, k: int| 0 <= i < less.len() && 0 <= k < less[i].events.len() implies
            !is_text_line(#[trigger] less[i].events[k]) by {
            assert(less[i].events[k] == pages[i].events[k]);
        }
        lemma_no_text(less);
    }
}

/// What `measure` collects of a page or of a whole document.
struct Samples {
    sizes: Vec<i128>,
    starts: Vec<i128>,
    gaps: Vec<i128>,
}

impl Samples {
    spec fn holds(self, runs: Seq<RunView>, gaps: Seq<i128>) -> bool {
        &&& self.sizes@ == font_sizes(runs)
        &&& self.starts@ == line_starts(runs)
        &&& self.gaps@ == gaps
        &&& forall|i: int|
            0 <= i < runs.len() ==> i64::MIN <= (#[trigger] runs[i]).font_size <= i64::MAX
                && i64::MIN <= runs[i].x_start <= i64::MAX
    }
}

fn sample_page(
    events: &Vec<(i64, FlowEvent)>,
    page: Ghost<PageView>,
    samples: &mut Samples,
    runs: Ghost<Seq<RunView>>,
    gaps: Ghost<Seq<i128>>,
)
    requires
        page@.events == events@.map_values(|e: (i64, FlowEvent)| (e.0 as int, e.1@)),
        old(samples).holds(runs@, gaps@),
    ensures
        final(samples).holds(
            runs@ + page_runs(page@.events),
            gaps@ + run_gaps(page_runs(page@.events)),
        ),
{
    let mut above: Option<i64> = None;
    let ghost views = page@.events;
    assert(views.take(0) == Seq::<(int, EventView)>::empty());
    assert(runs@ + Seq::<RunView>::empty() == runs@);
    assert(gaps@ + Seq::<i128>::empty() == gaps@);
    for i in 0..events.len()
        invariant
            views == events@.map_values(|e: (i64, FlowEvent)| (e.0 as int, e.1@)),
            samples.holds(
                runs@ + page_runs(views.take(i as int)),
                gaps@ + run_gaps(page_runs(views.take(i as int))),
            ),
            match above {
                Some(y) => page_runs(views.take(i as int)).len() > 0 && y == page_runs(
                    views.take(i as int),
                ).last().y,
                None => page_runs(views.take(i as int)).len() == 0,
            },
    {
        let ghost here = page_runs(views.take(i as int));
        assert(views.take(i + 1).drop_last() == views.take(i as int));
        assert(views.take(i + 1).last() == (events@[i as int].0 as int, events@[i as int].1@));
        if let FlowEvent::Line(run) = &events[i].1 {
            if !run.text.as_str().trim().is_empty() {
                let ghost now = here.push(run@);
                assert(now.drop_last() == here);
                assert(runs@ + now == (runs@ + here).push(run@));
                samples.sizes.push(run.font_size as i128);
                samples.starts.push(run.x_start as i128);
                assert(samples.sizes@ == font_sizes(runs@ + now));
                assert(samples.starts@ == line_starts(runs@ + now));
                if let Some(y) = above {
                    let gap: i128 = run.y as i128 - y as i128;
                    if gap > 0 {
                        samples.gaps.push(gap);
                        assert(gaps@ + run_gaps(here).push(gap) == (gaps@ + run_gaps(here)).push(
                            gap,
                        ));
                    }
                }
                above = Some(run.y);
            }
        }
    }
    assert(views.take(events@.len() as int) == views);
}

/// Measures the document: see `metrics_of`.
pub fn measure(doc: &ExtractedDoc) -> (r: LayoutMetrics)
    ensures
        r == metrics_of(doc@),
        r.baseline_font > 0 && r.line_gap > 0,
{
    let mut samples = Samples { sizes: Vec::new(), starts: Vec::new(), gaps: Vec::new() };
    let ghost pages = doc@.pages;
    assert(pages.take(0) == Seq::<PageView>::empty());
    assert(font_sizes(Seq::empty()) == Seq::<i128>::empty());
    assert(line_starts(Seq::empty()) == Seq::<i128>::empty());
    for i in 0..doc.pages.len()
        invariant
            pages == doc@.pages,
            samples.holds(doc_runs(pages.take(i as int)), doc_gaps(pages.take(i as int))),
    {
        assert(pages.take(i + 1).drop_last() == pages.take(i as int));
        assert(pages.take(i + 1).last() == doc.pages@[i as int]@);
        sample_page(
            &doc.pages[i].events,
            Ghost(doc.pages@[i as int]@),
            &mut samples,
            Ghost(doc_runs(pages.take(i as int))),
            Ghost(doc_gaps(pages.take(i as int))),
        );
    }
    assert(pages.take(doc.pages@.len() as int) == pages);
    let ghost runs = doc_runs(pages);
    if samples.sizes.len() == 0 {
        return LayoutMetrics::default();
    }
    let middle: i128 = percentile(&samples.sizes, 50);
    let margin: i128 = percentile(&samples.starts, 10);
    proof {
        crate::order::percentile_is_a_value(samples.sizes@, 50);
        crate::order::percentile_is_a_value(samples.starts@, 10);
    }
    let baseline: i128 = if middle < 1 {
        1
    } else {
        middle
    };
    let line_gap: i128 = if samples.gaps.len() == 0 {
        baseline
    } else {
        let usual: i128 = percentile(&samples.gaps, 50);
        if usual < 1 {
            1
        } else {
            usual
        }
    };
    LayoutMetrics { baseline_font: baseline as i64, left_margin: margin as i64, line_gap }
}

// ---------------------------------------------------------------------------------------
// Grouping lines into blocks
// ---------------------------------------------------------------------------------------

/// What a line is, by its size, its start and its length, and by whether a picture stands
/// right before it.
pub open spec fn kind_of(run: RunView, m: LayoutMetrics, after_image: bool) -> Kind {
    let text = trimmed(run.text);
    if has_alphanumeric(text) && run.font_size * 100 >= m.baseline_font * HEADING_MIN && text.len()
        < HEADING_MAX_CHARS {
        Kind::Heading
    } else if after_image && run.font_size * 100 <= m.baseline_font * CAPTION_MAX {
        Kind::Caption
    } else if run.x_start > RIGHT_ALIGN_MIN_X && text.len() < RIGHT_ALIGN_MAX_CHARS {
        Kind::RightAligned
    } else {
        Kind::Paragraph
    }
}

/// The event is a picture or a line with more than white space in it.
pub open spec fn is_visible(e: EventView) -> bool {
    match e {
        EventView::Line(run) => !is_blank(run.text),
        EventView::Image(_) => true,
    }
}

/// The events without the lines that hold nothing but white space.
pub open spec fn visible(events: Seq<EventView>) -> Seq<EventView> {
    events.filter(|e: EventView| is_visible(e))
}

proof fn lemma_visible_empty()
    ensures
        visible(Seq::empty()) == Seq::<EventView>::empty(),
{
    reveal(Seq::filter);
}

proof fn lemma_visible_push(events: Seq<EventView>, e: EventView)
    ensures
        visible(events.push(e)) == (if is_visible(e) {
            visible(events).push(e)
        } else {
            visible(events)
        }),
{
    reveal(Seq::filter);
    assert(events.push(e).drop_last() == events);
}

/// The last event is a line, of this kind.
pub open spec fn last_kind(events: Seq<EventView>, m: LayoutMetrics) -> Option<Kind> {
    if events.len() == 0 {
        None
    } else {
        match events.last() {
            EventView::Line(run) => Some(
                kind_of(run, m, events.len() > 1 && events[events.len() - 2] is Image),
            ),
            EventView::Image(_) => None,
        }
    }
}

/// The last event is a line, at this height.
pub open spec fn last_y(events: Seq<EventView>) -> Option<int> {
    if events.len() == 0 {
        None
    } else {
        match events.last() {
            EventView::Line(run) => Some(run.y),
            EventView::Image(_) => None,
        }
    }
}

/// The last line stands lower than the one before it by more than the usual spacing. A step
/// up or none means that the page changed, which says nothing about paragraphs.
pub open spec fn last_is_gapped(events: Seq<EventView>, m: LayoutMetrics) -> bool {
    match (events[events.len() - 2], events.last()) {
        (EventView::Line(above), EventView::Line(run)) => {
            let gap = run.y - above.y;
            gap > 0 && gap * 100 > m.line_gap * PARAGRAPH_GAP
        },
        _ => false,
    }
}

/// The last line starts to the right of the margin.
pub open spec fn last_is_indented(events: Seq<EventView>, m: LayoutMetrics) -> bool {
    match events.last() {
        EventView::Line(run) => run.x_start > m.left_margin + INDENT_MIN,
        EventView::Image(_) => false,
    }
}

/// The last line continues the block that the line before it belongs to: both are of one kind,
/// and nothing says that a new paragraph begins.
pub open spec fn last_continues(events: Seq<EventView>, m: LayoutMetrics) -> bool {
    &&& events.len() > 1
    &&& last_kind(events, m) is Some
    &&& last_kind(events, m) == last_kind(events.drop_last(), m)
    &&& !(last_kind(events, m) == Some(Kind::Paragraph) && (last_is_indented(events, m)
        || last_is_gapped(events, m)))
}

/// A block of text with one more line at its end.
pub open spec fn with_line(block: BlockView, line: Seq<char>) -> BlockView {
    match block {
        BlockView::Text(kind, text) => BlockView::Text(kind, text.push(' ') + line),
        BlockView::Image(idx) => block,
    }
}

/// Each picture is a block, and each run of lines that continue one another is a block.
pub open spec fn grouped(events: Seq<EventView>, m: LayoutMetrics) -> Seq<BlockView>
    decreases events.len(),
{
    if events.len() == 0 {
        Seq::empty()
    } else {
        let before = grouped(events.drop_last(), m);
        match events.last() {
            EventView::Image(idx) => before.push(BlockView::Image(idx)),
            EventView::Line(run) => if last_continues(events, m) {
                before.drop_last().push(with_line(before.last(), trimmed(run.text)))
            } else {
                before.push(BlockView::Text(last_kind(events, m)->0, trimmed(run.text)))
            },
        }
    }
}

/// The blocks that a flow of lines and pictures renders to.
pub open spec fn blocks_of(events: Seq<EventView>, m: LayoutMetrics) -> Seq<BlockView> {
    grouped(visible(events), m)
}

// ---------------------------------------------------------------------------------------
// Nothing is lost on the way
// ---------------------------------------------------------------------------------------

/// What a reader sees, one after the other.
pub ghost enum Glyph {
    /// A character, by its code point.
    Letter(int),
    Picture(nat),
}

/// The letters of a text, and a space after it.
pub open spec fn letters(text: Seq<char>) -> Seq<Glyph> {
    Seq::new(
        text.len() + 1,
        |i: int|
            Glyph::Letter(
                if i < text.len() {
                    text[i] as int
                } else {
                    ' ' as int
                },
            ),
    )
}

/// What a reader sees of an event.
pub open spec fn event_glyphs(e: EventView) -> Seq<Glyph> {
    match e {
        EventView::Line(run) => letters(trimmed(run.text)),
        EventView::Image(idx) => seq![Glyph::Picture(idx)],
    }
}

/// What a reader sees of a flow.
pub open spec fn flow_glyphs(events: Seq<EventView>) -> Seq<Glyph>
    decreases events.len(),
{
    if events.len() == 0 {
        Seq::empty()
    } else {
        flow_glyphs(events.drop_last()) + event_glyphs(events.last())
    }
}

/// What a reader sees of a block.
pub open spec fn block_glyphs(block: BlockView) -> Seq<Glyph> {
    match block {
        BlockView::Text(_, text) => letters(text),
        BlockView::Image(idx) => seq![Glyph::Picture(idx)],
    }
}

/// What a reader sees of some blocks.
pub open spec fn blocks_glyphs(blocks: Seq<BlockView>) -> Seq<Glyph>
    decreases blocks.len(),
{
    if blocks.len() == 0 {
        Seq::empty()
    } else {
        blocks_glyphs(blocks.drop_last()) + block_glyphs(blocks.last())
    }
}

proof fn lemma_grouped_last(events: Seq<EventView>, m: LayoutMetrics)
    requires
        events.len() > 0,
    ensures
        grouped(events, m).len() > 0,
        last_kind(events, m) matches Some(kind) ==> (grouped(events, m).last() matches
            BlockView::Text(k, _) && k == kind),
    decreases events.len(),
{
    if last_continues(events, m) {
        lemma_grouped_last(events.drop_last(), m);
    }
}

proof fn lemma_letters_of_joined(text: Seq<char>, line: Seq<char>)
    ensures
        letters(text.push(' ') + line) == letters(text) + letters(line),
{
    let joined = letters(text.push(' ') + line);
    let parts = letters(text) + letters(line);
    assert forall|i: int| 0 <= i < joined.len() implies joined[i] == parts[i] by {
        if i > text.len() {
            assert(parts[i] == letters(line)[i - text.len() - 1]);
        }
    }
    assert(joined =~= parts);
}

proof fn lemma_grouped_glyphs(events: Seq<EventView>, m: LayoutMetrics)
    ensures
        blocks_glyphs(grouped(events, m)) == flow_glyphs(events),
    decreases events.len(),
{
    if events.len() > 0 {
        let before = grouped(events.drop_last(), m);
        let all = grouped(events, m);
        lemma_grouped_glyphs(events.drop_last(), m);
        match events.last() {
            EventView::Image(idx) => {
                assert(all.drop_last() == before);
            },
            EventView::Line(run) => {
                let line = trimmed(run.text);
                if last_continues(events, m) {
                    lemma_grouped_last(events.drop_last(), m);
                    let text = before.last()->Text_1;
                    assert(all.drop_last() == before.drop_last());
                    lemma_letters_of_joined(text, line);
                    assert(blocks_glyphs(all) == blocks_glyphs(before) + letters(line));
                } else {
                    assert(all.drop_last() == before);
                }
            },
        }
    }
}

/// Grouping keeps the reading order and loses nothing: read from start to end, the blocks show
/// the trimmed lines, a space after each, and the pictures, as the flow had them.
pub proof fn blocks_keep_the_reading_order(events: Seq<EventView>, m: LayoutMetrics)
    ensures
        blocks_glyphs(blocks_of(events, m)) == flow_glyphs(visible(events)),
{
    lemma_grouped_glyphs(visible(events), m);
}

proof fn lemma_grouped_pictures(events: Seq<EventView>, m: LayoutMetrics, idx: nat)
    requires
        grouped(events, m).contains(BlockView::Image(idx)),
    ensures
        events.contains(EventView::Image(idx)),
    decreases events.len(),
{
    let all = grouped(events, m);
    let k = choose|k: int| 0 <= k < all.len() && all[k] == BlockView::Image(idx);
    if events.len() > 0 {
        let before = grouped(events.drop_last(), m);
        let less = events.drop_last();
        if last_continues(events, m) {
            lemma_grouped_last(less, m);
        }
        if k < before.len() && all[k] == before[k] {
            assert(before.contains(BlockView::Image(idx)));
            lemma_grouped_pictures(less, m, idx);
            let j = choose|j: int| 0 <= j < less.len() && less[j] == EventView::Image(idx);
            assert(events[j] == EventView::Image(idx));
        } else {
            assert(events.last() == EventView::Image(idx));
        }
    }
}

/// A picture among the blocks is one of the flow.
pub proof fn blocks_make_up_no_pictures(events: Seq<EventView>, m: LayoutMetrics, idx: nat)
    requires
        blocks_of(events, m).contains(BlockView::Image(idx)),
    ensures
        events.contains(EventView::Image(idx)),
{
    lemma_grouped_pictures(visible(events), m, idx);
    lemma_visible_contains(events, EventView::Image(idx));
}

proof fn lemma_visible_contains(events: Seq<EventView>, e: EventView)
    requires
        visible(events).contains(e),
    ensures
        events.contains(e),
    decreases events.len(),
{
    if events.len() == 0 {
        lemma_visible_empty();
    } else {
        let less = events.drop_last();
        assert(events == less.push(events.last()));
        lemma_visible_push(less, events.last());
        let k = choose|k: int| 0 <= k < visible(events).len() && visible(events)[k] == e;
        if k < visible(less).len() {
            assert(visible(less)[k] == e);
            lemma_visible_contains(less, e);
            let j = choose|j: int| 0 <= j < less.len() && less[j] == e;
            assert(events[j] == e);
        } else {
            assert(events[events.len() - 1] == e);
        }
    }
}

// ---------------------------------------------------------------------------------------
// Where a block begins
// ---------------------------------------------------------------------------------------

/// What a line is. A heading has a letter or a digit, fewer than 80 characters, and is at least a
/// tenth larger than the body. Right behind a picture, any other line of at most 92 hundredths of
/// the body's size is its caption. Of the rest, a line of fewer than 60 characters that starts
/// past 45 hundredths of the page is set flush right, and all others are parts of paragraphs.
pub proof fn lines_are_told_apart(run: RunView, m: LayoutMetrics, after_image: bool)
    ensures
        ({
            let text = trimmed(run.text);
            let is_large = 10 * run.font_size >= 11 * m.baseline_font;
            let is_small = 25 * run.font_size <= 23 * m.baseline_font;
            let kind = kind_of(run, m, after_image);
            let is_heading = has_alphanumeric(text) && is_large && text.len() < 80;
            let is_caption = !is_heading && after_image && is_small;
            let is_flush = run.x_start > 450_000_000_000_000 && text.len() < 60;
            &&& kind == Kind::Heading <==> is_heading
            &&& kind == Kind::Caption <==> is_caption
            &&& kind == Kind::RightAligned <==> !is_heading && !is_caption && is_flush
            &&& kind == Kind::Paragraph <==> !is_heading && !is_caption && !is_flush
        }),
{
}

/// A heading that is set larger is still one, and a line that no picture stands before is never
/// a caption.
pub proof fn larger_headings_stay_headings(run: RunView, larger: RunView, m: LayoutMetrics)
    requires
        larger.text == run.text,
        larger.font_size >= run.font_size,
        kind_of(run, m, false) == Kind::Heading,
    ensures
        kind_of(larger, m, false) == Kind::Heading,
        kind_of(larger, m, true) == Kind::Heading,
{
}

/// A picture stands right before whatever follows these events.
pub open spec fn ends_in_picture(events: Seq<EventView>) -> bool {
    visible(events).len() > 0 && visible(events).last() is Image
}

/// The last visible event is a line, and `run` is it.
pub open spec fn ends_in_line(events: Seq<EventView>, run: RunView) -> bool {
    visible(events).len() > 0 && visible(events).last() == EventView::Line(run)
}

/// Whether a picture stands right before the last visible event.
pub open spec fn stood_behind_picture(events: Seq<EventView>) -> bool {
    visible(events).len() > 1 && visible(events)[visible(events).len() - 2] is Image
}

/// A line that holds nothing but white space changes nothing.
pub proof fn blank_lines_change_nothing(events: Seq<EventView>, run: RunView, m: LayoutMetrics)
    requires
        is_blank(run.text),
    ensures
        blocks_of(events.push(EventView::Line(run)), m) == blocks_of(events, m),
{
    lemma_visible_push(events, EventView::Line(run));
}

/// A picture is a block of its own.
pub proof fn a_picture_is_a_block(events: Seq<EventView>, idx: nat, m: LayoutMetrics)
    ensures
        blocks_of(events.push(EventView::Image(idx)), m) == blocks_of(events, m).push(
            BlockView::Image(idx),
        ),
{
    lemma_visible_push(events, EventView::Image(idx));
    assert(visible(events).push(EventView::Image(idx)).drop_last() == visible(events));
}

proof fn lemma_last_kind(events: Seq<EventView>, run: RunView, m: LayoutMetrics)
    requires
        !is_blank(run.text),
    ensures
        visible(events.push(EventView::Line(run))) == visible(events).push(EventView::Line(run)),
        visible(events).push(EventView::Line(run)).drop_last() == visible(events),
        last_kind(visible(events.push(EventView::Line(run))), m) == Some(
            kind_of(run, m, ends_in_picture(events)),
        ),
        forall|above: RunView| #[trigger]
            ends_in_line(events, above) ==> last_kind(visible(events), m) == Some(
                kind_of(above, m, stood_behind_picture(events)),
            ),
{
    lemma_visible_push(events, EventView::Line(run));
    assert(visible(events).push(EventView::Line(run)).drop_last() == visible(events));
}

/// A line of a paragraph that starts further right than the margin by more than twelve thousandths
/// of the page begins a block of its own, whatever its height and that of the line before it.
pub proof fn an_indented_line_begins_a_paragraph(
    events: Seq<EventView>,
    run: RunView,
    m: LayoutMetrics,
)
    requires
        !is_blank(run.text),
        kind_of(run, m, ends_in_picture(events)) == Kind::Paragraph,
        run.x_start > m.left_margin + 12_000_000_000_000,
    ensures
        blocks_of(events.push(EventView::Line(run)), m) == blocks_of(events, m).push(
            BlockView::Text(Kind::Paragraph, trimmed(run.text)),
        ),
{
    lemma_last_kind(events, run, m);
}

/// A line of a paragraph that stands lower than the line before it by more than 135 hundredths of
/// the usual distance begins a block of its own, wherever it starts.
pub proof fn a_line_behind_a_gap_begins_a_paragraph(
    events: Seq<EventView>,
    above: RunView,
    run: RunView,
    m: LayoutMetrics,
)
    requires
        !is_blank(run.text),
        kind_of(run, m, ends_in_picture(events)) == Kind::Paragraph,
        ends_in_line(events, above),
        run.y > above.y,
        20 * (run.y - above.y) > 27 * m.line_gap,
    ensures
        blocks_of(events.push(EventView::Line(run)), m) == blocks_of(events, m).push(
            BlockView::Text(Kind::Paragraph, trimmed(run.text)),
        ),
{
    lemma_last_kind(events, run, m);
}

/// A line that is of another kind than the line before it begins a block of its own, and so does
/// one with no line right before it.
pub proof fn another_kind_begins_a_block(
    events: Seq<EventView>,
    above: RunView,
    run: RunView,
    m: LayoutMetrics,
)
    requires
        !is_blank(run.text),
        ({
            ||| visible(events).len() == 0
            ||| ends_in_picture(events)
            ||| ends_in_line(events, above) && kind_of(above, m, stood_behind_picture(events))
                != kind_of(run, m, ends_in_picture(events))
        }),
    ensures
        blocks_of(events.push(EventView::Line(run)), m) == blocks_of(events, m).push(
            BlockView::Text(kind_of(run, m, ends_in_picture(events)), trimmed(run.text)),
        ),
{
    lemma_last_kind(events, run, m);
}

/// A line of the kind of the line before it continues that block, behind a space: always where
/// the two are no parts of paragraphs, and else where it does not start further right than the
/// margin by more than twelve thousandths of the page, and is not lower by more than 135
/// hundredths of the usual distance.
pub proof fn a_line_of_the_same_kind_continues_the_block(
    events: Seq<EventView>,
    above: RunView,
    run: RunView,
    m: LayoutMetrics,
)
    requires
        !is_blank(run.text),
        ends_in_line(events, above),
        kind_of(above, m, stood_behind_picture(events)) == kind_of(run, m, false),
        kind_of(run, m, false) == Kind::Paragraph ==> run.x_start <= m.left_margin
            + 12_000_000_000_000 && (run.y <= above.y || 20 * (run.y - above.y) <= 27
            * m.line_gap),
    ensures
        ({
            let before = blocks_of(events, m);
            let after = blocks_of(events.push(EventView::Line(run)), m);
            &&& before.len() > 0
            &&& after.len() == before.len()
            &&& after.drop_last() == before.drop_last()
            &&& before.last() matches BlockView::Text(kind, text) && kind == kind_of(run, m, false)
                && after.last() == BlockView::Text(kind, text + seq![' '] + trimmed(run.text))
        }),
{
    lemma_last_kind(events, run, m);
    lemma_grouped_last(visible(events), m);
    let before = blocks_of(events, m);
    let after = blocks_of(events.push(EventView::Line(run)), m);
    assert(after.drop_last() == before.drop_last());
    let text = before.last()->Text_1;
    assert(text.push(' ') + trimmed(run.text) == text + seq![' '] + trimmed(run.text));
}

/// The blocks begin with the others, but for what the last of those may have gained at its end.
pub open spec fn go_on_from(all: Seq<BlockView>, first: Seq<BlockView>) -> bool {
    &&& all.len() >= first.len()
    &&& forall|i: int| 0 <= i < first.len() - 1 ==> #[trigger] all[i] == first[i]
    &&& first.len() > 0 ==> match (first.last(), all[first.len() - 1]) {
        (BlockView::Text(kind, text), BlockView::Text(same, more)) => kind == same
            && text.is_prefix_of(more),
        (a, b) => a == b,
    }
}

proof fn lemma_grouped_goes_on(first: Seq<EventView>, more: Seq<EventView>, m: LayoutMetrics)
    ensures
        go_on_from(grouped(first + more, m), grouped(first, m)),
    decreases more.len(),
{
    if more.len() == 0 {
        assert(first + more == first);
        let all = grouped(first, m);
        if all.len() > 0 {
            if let BlockView::Text(_, text) = all.last() {
                assert(text.is_prefix_of(text));
            }
        }
    } else {
        let less = more.drop_last();
        let all = first + more;
        assert(all.drop_last() == first + less);
        assert(all.last() == more.last());
        lemma_grouped_goes_on(first, less, m);
        let before = grouped(first + less, m);
        let after = grouped(all, m);
        let start = grouped(first, m);
        if last_continues(all, m) {
            lemma_grouped_last(first + less, m);
            let text = before.last()->Text_1;
            let line = trimmed(all.last()->Line_0.text);
            assert(text.is_prefix_of(text.push(' ') + line));
            if start.len() == before.len() && start.len() > 0 {
                if let BlockView::Text(_, begun) = start.last() {
                    assert(begun.is_prefix_of(text));
                    assert(begun.is_prefix_of(text.push(' ') + line));
                }
            }
        }
        assert(forall|i: int| 0 <= i < before.len() - 1 ==> #[trigger] after[i] == before[i]);
    }
}

proof fn lemma_visible_concat(a: Seq<EventView>, b: Seq<EventView>)
    ensures
        visible(a + b) == visible(a) + visible(b),
    decreases b.len(),
{
    lemma_visible_empty();
    if b.len() == 0 {
        assert(a + b == a);
        assert(b == Seq::<EventView>::empty());
        assert(visible(a) + visible(b) == visible(a));
    } else {
        let less = b.drop_last();
        lemma_visible_concat(a, less);
        assert(a + b == (a + less).push(b.last()));
        assert(b == less.push(b.last()));
        lemma_visible_push(a + less, b.last());
        lemma_visible_push(less, b.last());
        assert((visible(a) + visible(less)).push(b.last()) == visible(a) + visible(less).push(
            b.last(),
        ));
    }
}

/// What follows never changes a block that is closed, and adds to the open one only at its end.
pub proof fn later_events_only_add(
    events: Seq<EventView>,
    more: Seq<EventView>,
    m: LayoutMetrics,
)
    ensures
        go_on_from(blocks_of(events + more, m), blocks_of(events, m)),
{
    lemma_visible_concat(events, more);
    lemma_grouped_goes_on(visible(events), visible(more), m);
}

/// An indented line of a paragraph is the beginning of a paragraph's block, whatever stands
/// around it: its trimmed text is where a block begins, and no block before it goes on with it.
pub proof fn an_indented_line_stands_first_in_its_block(
    before: Seq<EventView>,
    run: RunView,
    after: Seq<EventView>,
    m: LayoutMetrics,
)
    requires
        !is_blank(run.text),
        kind_of(run, m, ends_in_picture(before)) == Kind::Paragraph,
        run.x_start > m.left_margin + 12_000_000_000_000,
    ensures
        ({
            let all = blocks_of(before.push(EventView::Line(run)) + after, m);
            let n = blocks_of(before, m).len();
            &&& all.len() > n
            &&& forall|i: int| 0 <= i < n ==> #[trigger] all[i] == blocks_of(before, m)[i]
            &&& all[n as int] matches BlockView::Text(Kind::Paragraph, text) && trimmed(
                run.text,
            ).is_prefix_of(text)
        }),
{
    an_indented_line_begins_a_paragraph(before, run, m);
    later_events_only_add(before.push(EventView::Line(run)), after, m);
    let all = blocks_of(before.push(EventView::Line(run)) + after, m);
    let first = blocks_of(before.push(EventView::Line(run)), m);
    let n = blocks_of(before, m).len() as int;
    assert(first.len() == n + 1);
    assert forall|i: int| 0 <= i < n implies #[trigger] all[i] == blocks_of(before, m)[i] by {
        assert(first[i] == blocks_of(before, m)[i]);
    }
}

// ---------------------------------------------------------------------------------------
// What the ruler is
// ---------------------------------------------------------------------------------------

proof fn lemma_page_runs(events: Seq<(int, EventView)>)
    ensures
        page_runs(events) == events.filter(
            |e: (int, EventView)| e.1 is Line && !is_blank(e.1->Line_0.text),
        ).map_values(|e: (int, EventView)| e.1->Line_0),
    decreases events.len(),
{
    reveal(Seq::filter);
    let wanted = |e: (int, EventView)| e.1 is Line && !is_blank(e.1->Line_0.text);
    let line = |e: (int, EventView)| e.1->Line_0;
    if events.len() > 0 {
        let less = events.drop_last();
        lemma_page_runs(less);
        assert(less.filter(wanted).push(events.last()).map_values(line) == less.filter(
            wanted,
        ).map_values(line).push(line(events.last())));
    } else {
        assert(events.filter(wanted).map_values(line) == Seq::<RunView>::empty());
    }
}

/// The lines that are measured are those of all pages, page after page, that hold more than white
/// space.
pub proof fn every_line_with_text_is_measured(pages: Seq<PageView>, page: PageView)
    ensures
        doc_runs(Seq::empty()) == Seq::<RunView>::empty(),
        doc_runs(pages.push(page)) == doc_runs(pages) + page.events.filter(
            |e: (int, EventView)| e.1 is Line && !is_blank(e.1->Line_0.text),
        ).map_values(|e: (int, EventView)| e.1->Line_0),
{
    lemma_page_runs(page.events);
    assert(pages.push(page).drop_last() == pages);
}

/// The step down from a line to the one after it.
pub open spec fn step_behind(runs: Seq<RunView>, i: int) -> int {
    runs[i + 1].y - runs[i].y
}

proof fn lemma_run_gaps(runs: Seq<RunView>)
    ensures
        runs.len() > 0 ==> run_gaps(runs) == Seq::new(
            (runs.len() - 1) as nat,
            |i: int| step_behind(runs, i),
        ).filter(|gap: int| gap > 0).map_values(|gap: int| gap as i128),
    decreases runs.len(),
{
    reveal(Seq::filter);
    let leads_down = |gap: int| gap > 0;
    let short = |gap: int| gap as i128;
    if runs.len() > 0 {
        let steps = Seq::new((runs.len() - 1) as nat, |i: int| step_behind(runs, i));
        if runs.len() == 1 {
            assert(steps == Seq::<int>::empty());
            assert(steps.filter(leads_down).map_values(short) == Seq::<i128>::empty());
        } else {
            let less = runs.drop_last();
            lemma_run_gaps(less);
            let fewer = Seq::new((less.len() - 1) as nat, |i: int| step_behind(less, i));
            assert(steps.drop_last() == fewer);
            let last = steps.last();
            assert(last == runs.last().y - runs[runs.len() - 2].y);
            assert(fewer.filter(leads_down).push(last).map_values(short) == fewer.filter(
                leads_down,
            ).map_values(short).push(short(last)));
        }
    }
}

/// The distances that are measured are the steps from each line of a page with text to the next
/// one on the same page, as far as they lead down. From one page to the next there is none.
pub proof fn every_step_down_a_page_is_measured(pages: Seq<PageView>, page: PageView)
    ensures
        doc_gaps(Seq::empty()) == Seq::<i128>::empty(),
        ({
            let runs = page.events.filter(
                |e: (int, EventView)| e.1 is Line && !is_blank(e.1->Line_0.text),
            ).map_values(|e: (int, EventView)| e.1->Line_0);
            doc_gaps(pages.push(page)) == doc_gaps(pages) + (if runs.len() == 0 {
                Seq::empty()
            } else {
                Seq::new((runs.len() - 1) as nat, |i: int| step_behind(runs, i)).filter(
                    |gap: int| gap > 0,
                ).map_values(|gap: int| gap as i128)
            })
        }),
{
    lemma_page_runs(page.events);
    lemma_run_gaps(page_runs(page.events));
    assert(pages.push(page).drop_last() == pages);
}

/// The value is the one that stands at that share of the way through the sorted values.
pub open spec fn stands_at(value: int, values: Seq<i128>, percentage: int) -> bool {
    exists|order: Seq<int>, k: int|
        {
            &&& #[trigger] are_all_positions(order, values.len())
            &&& ascends(values, order)
            &&& 0 <= k < values.len()
            &&& #[trigger] order[k] < values.len()
            &&& -50 < 100 * k - (values.len() - 1) * percentage <= 50
            &&& value == values[order[k]]
        }
}

proof fn lemma_stands_at(values: Seq<i128>, percentage: nat)
    requires
        0 < values.len() <= usize::MAX,
        percentage <= 100,
    ensures
        stands_at(percentile_of(values, percentage) as int, values, percentage as int),
{
    percentile_stands_at_its_share(values, percentage);
}

/// The ruler is taken from the lines with text: the size of the body is their median size, the
/// margin the start that a tenth of them do not reach, and the usual distance the median of the
/// steps down a page, or the body's size where there are none. Neither the size nor the distance
/// is less than the least.
pub proof fn the_ruler_is_taken_from_the_lines(doc: DocView)
    requires
        0 < doc_runs(doc.pages).len() <= usize::MAX,
        doc_gaps(doc.pages).len() <= usize::MAX,
        forall|i: int|
            0 <= i < doc_runs(doc.pages).len() ==> i64::MIN <= (#[trigger] doc_runs(
                doc.pages,
            )[i]).font_size <= i64::MAX && i64::MIN <= doc_runs(doc.pages)[i].x_start <= i64::MAX,
    ensures
        ({
            let runs = doc_runs(doc.pages);
            let gaps = doc_gaps(doc.pages);
            let m = metrics_of(doc);
            let sizes = runs.map_values(|r: RunView| r.font_size as i128);
            let starts = runs.map_values(|r: RunView| r.x_start as i128);
            &&& m.baseline_font >= 1
            &&& m.baseline_font > 1 ==> stands_at(m.baseline_font as int, sizes, 50)
            &&& m.baseline_font == 1 ==> exists|v: int| v <= 1 && #[trigger]
                stands_at(v, sizes, 50)
            &&& stands_at(m.left_margin as int, starts, 10)
            &&& gaps.len() == 0 ==> m.line_gap == m.baseline_font
            &&& gaps.len() > 0 ==> m.line_gap >= 1
            &&& gaps.len() > 0 && m.line_gap > 1 ==> stands_at(m.line_gap as int, gaps, 50)
            &&& gaps.len() > 0 && m.line_gap == 1 ==> exists|v: int| v <= 1 && #[trigger]
                stands_at(v, gaps, 50)
        }),
{
    let runs = doc_runs(doc.pages);
    let gaps = doc_gaps(doc.pages);
    let sizes = font_sizes(runs);
    let starts = line_starts(runs);
    lemma_stands_at(sizes, 50);
    lemma_stands_at(starts, 10);
    percentile_is_a_value(sizes, 50);
    percentile_is_a_value(starts, 10);
    if gaps.len() > 0 {
        lemma_stands_at(gaps, 50);
    }
}

/// What kind of block a line belongs to. `text` is the line's text, trimmed.
pub fn classify(run: &TextRun, text: &str, m: &LayoutMetrics, after_image: bool) -> (r: Kind)
    requires
        text@ == trimmed(run.text@),
    ensures
        r == kind_of(run@, *m, after_image),
{
    let chars: usize = text.unicode_len();
    // Ornamental separators are often set larger than the body, so size alone is not enough:
    // a heading has words in it.
    let has_words = contains_alphanumeric(text);
    let size: i128 = run.font_size as i128 * 100;
    let baseline: i128 = m.baseline_font as i128;
    if has_words && size >= baseline * (HEADING_MIN as i128) && chars < HEADING_MAX_CHARS {
        return Kind::Heading;
    }
    if after_image && size <= baseline * (CAPTION_MAX as i128) {
        return Kind::Caption;
    }
    // Attributions, signatures and datelines start deep into the page, far past any indent.
    if run.x_start > RIGHT_ALIGN_MIN_X && chars < RIGHT_ALIGN_MAX_CHARS {
        return Kind::RightAligned;
    }
    Kind::Paragraph
}

/// The blocks written so far, and the one that is still open.
pub open spec fn with_pending(out: Seq<BlockView>, pending: Option<(Kind, String)>) -> Seq<
    BlockView,
> {
    match pending {
        Some((kind, text)) => out.push(BlockView::Text(kind, text@)),
        None => out,
    }
}

/// Closes the open block, if there is one.
pub fn flush(pending: &mut Option<(Kind, String)>, out: &mut Vec<Block>)
    ensures
        *final(pending) is None,
        block_views(final(out)@) == with_pending(block_views(old(out)@), *old(pending)),
{
    let ghost before = out@;
    if let Some((kind, text)) = pending.take() {
        let block = match kind {
            Kind::Heading => Block::Heading(text),
            Kind::Paragraph => Block::Paragraph(text),
            Kind::Caption => Block::Caption(text),
            Kind::RightAligned => Block::RightAligned(text),
        };
        out.push(block);
        assert(block_views(out@) == block_views(before).push(block@));
    }
}

/// The gap between two lines marks a paragraph break.
fn is_gapped(previous_y: Option<i64>, y: i64, line_gap: i128) -> (r: bool)
    ensures
        r == (previous_y matches Some(above) && y - above > 0 && (y - above) * 100 > line_gap
            * PARAGRAPH_GAP),
{
    match previous_y {
        Some(above) => {
            let gap: i128 = y as i128 - above as i128;
            if gap <= 0 {
                return false;
            }
            // The largest gap there can be, so that the product below fits.
            if line_gap > 20_000_000_000_000_000_000 {
                return false;
            }
            if line_gap < 0 {
                return true;
            }
            gap * 100 > line_gap * (PARAGRAPH_GAP as i128)
        },
        None => false,
    }
}

/// Groups a flow of lines and pictures into rendered blocks: see `blocks_of`.
pub fn blocks(events: &[FlowEvent], m: &LayoutMetrics) -> (r: Vec<Block>)
    ensures
        block_views(r@) == blocks_of(event_views(events@), *m),
{
    let mut out: Vec<Block> = Vec::new();
    let mut pending: Option<(Kind, String)> = None;
    let mut last_was_image = false;
    let mut previous_y: Option<i64> = None;
    let ghost views = event_views(events@);
    assert(views.take(0) == Seq::<EventView>::empty());
    proof {
        lemma_visible_empty();
    }
    assert(block_views(out@) == Seq::<BlockView>::empty());
    for i in 0..events.len()
        invariant
            views == event_views(events@),
            with_pending(block_views(out@), pending) == grouped(visible(views.take(i as int)), *m),
            pending matches Some((kind, _)) ==> last_kind(visible(views.take(i as int)), *m)
                == Some(kind),
            pending is None ==> last_kind(visible(views.take(i as int)), *m) is None,
            last_was_image == (visible(views.take(i as int)).len() > 0 && visible(
                views.take(i as int),
            ).last() is Image),
            match previous_y {
                Some(y) => last_y(visible(views.take(i as int))) == Some(y as int),
                None => last_y(visible(views.take(i as int))) is None,
            },
    {
        let ghost seen = visible(views.take(i as int));
        let ghost now = visible(views.take(i + 1));
        let ghost event = views[i as int];
        assert(views.take(i + 1).drop_last() == views.take(i as int));
        assert(views.take(i + 1).last() == event);
        proof {
            assert(views.take(i + 1) == views.take(i as int).push(event));
            lemma_visible_push(views.take(i as int), event);
            if is_visible(event) {
                assert(now.drop_last() == seen);
                if seen.len() > 0 {
                    assert(now[now.len() - 2] == seen.last());
                }
            }
        }
        match &events[i] {
            FlowEvent::Image(idx) => {
                flush(&mut pending, &mut out);
                let ghost before = out@;
                out.push(Block::Image(*idx));
                assert(block_views(out@) == block_views(before).push(
                    BlockView::Image(*idx as nat),
                ));
                last_was_image = true;
                previous_y = None;
            },
            FlowEvent::Line(run) => {
                let text = run.text.as_str().trim();
                if !text.is_empty() {
                    let kind = classify(run, text, m, last_was_image);
                    let indented = run.x_start as i128 > m.left_margin as i128 + INDENT_MIN as i128;
                    let gapped = is_gapped(previous_y, run.y, m.line_gap);
                    let starts_new_paragraph = kind == Kind::Paragraph && (indented || gapped);
                    let continues = match &pending {
                        Some((open, _)) => *open == kind && !starts_new_paragraph,
                        None => false,
                    };
                    assert(last_kind(now, *m) == Some(kind));
                    assert(continues == last_continues(now, *m));
                    let ghost before = block_views(out@);
                    if continues {
                        if let Some((open, mut buf)) = pending.take() {
                            let ghost held = buf@;
                            buf.push(' ');
                            buf.append(text);
                            assert(buf@ == held.push(' ') + text@);
                            pending = Some((open, buf));
                            assert(before.push(BlockView::Text(open, held)).drop_last() == before);
                        }
                    } else {
                        flush(&mut pending, &mut out);
                        pending = Some((kind, text.to_owned()));
                    }
                    last_was_image = false;
                    previous_y = Some(run.y);
                }
            },
        }
    }
    assert(views.take(events@.len() as int) == views);
    flush(&mut pending, &mut out);
    out
}

} // verus!
