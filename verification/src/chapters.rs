//! Splits the flow of a document into chapters.
use vstd::prelude::*;

use crate::order::{
    are_all_positions, ascends, rank, ranked, ranking_is_a_stable_permutation,
};
use crate::pdf_model::{
    event_views, EventView, ExtractedDoc, FlowEvent, PageView, RunView, TextRun, UNIT,
};
use crate::text::{
    contains_alphanumeric, decimal, has_alphanumeric, one_decimal, push_decimal, push_one_decimal,
    texts, trimmed,
};

verus! {

#[derive(Debug)]
pub struct Chapter {
    pub title: String,
    pub events: Vec<FlowEvent>,
}

#[verifier::ext_equal]
pub ghost struct ChapterView {
    pub title: Seq<char>,
    pub events: Seq<EventView>,
}

impl View for Chapter {
    type V = ChapterView;

    open spec fn view(&self) -> ChapterView {
        ChapterView { title: self.title@, events: event_views(self.events@) }
    }
}

/// The contents of a list of chapters.
pub open spec fn chapter_views(chapters: Seq<Chapter>) -> Seq<ChapterView> {
    chapters.map_values(|c: Chapter| c@)
}

/// A title is at least this many hundredths of the body's font size.
pub const TITLE_MIN: i64 = 125;

/// A title that is known by its size alone has fewer characters than this.
pub const TITLE_MAX_CHARS: usize = 80;

/// A pattern is one that `regex::Regex::new` accepts.
pub uninterp spec fn regex_is_valid(pattern: Seq<char>) -> bool;

/// A valid pattern matches somewhere in a text, as `regex::Regex::is_match` decides.
pub uninterp spec fn regex_is_match(pattern: Seq<char>, text: Seq<char>) -> bool;

/// `regex::Regex::new` compiles the pattern, or refuses it, and `regex::Regex::is_match` then
/// answers for each line whether the pattern matches in it. The answers stand in the order of
/// the lines, and each depends on the pattern and its line alone.
#[verifier::external_body]
fn match_lines(pattern: &str, lines: &Vec<String>) -> (r: Option<Vec<bool>>)
    ensures
        r is Some <==> regex_is_valid(pattern@),
        r matches Some(found) ==> found@.len() == lines@.len() && forall|i: int|
            0 <= i < lines@.len() ==> #[trigger] found@[i] == regex_is_match(
                pattern@,
                lines@[i]@,
            ),
{
    let compiled = regex::Regex::new(pattern).ok()?;
    Some(lines.iter().map(|line| compiled.is_match(line)).collect())
}

/// The pattern is a valid one and matches.
pub open spec fn pattern_found(pattern: Seq<char>, text: Seq<char>) -> bool {
    regex_is_valid(pattern) && regex_is_match(pattern, text)
}

/// The text reads "Capítulo 1", "Chapter 2", "Parte 3" or "Part 4", in any case.
pub open spec fn is_numbered_title(text: Seq<char>) -> bool {
    ||| pattern_found(r"(?i)^\s*cap[ií]tulo\s+\d+"@, text)
    ||| pattern_found(r"(?i)^\s*chapter\s+\d+"@, text)
    ||| pattern_found(r"(?i)^\s*parte\s+\d+"@, text)
    ||| pattern_found(r"(?i)^\s*part\s+\d+"@, text)
}

/// The line stands out by its size and is short enough for a title. A document whose lines
/// have no usable size has no such lines.
pub open spec fn is_large_title(run: RunView, baseline: int) -> bool {
    &&& baseline > 0
    &&& run.font_size * 100 >= baseline * TITLE_MIN
    &&& trimmed(run.text).len() < TITLE_MAX_CHARS
}

/// An event of a flow with the number of its page, and whether its line is numbered as a
/// chapter is, belongs to a chapter's title.
pub open spec fn is_heading(entry: (nat, EventView, bool), baseline: int) -> bool {
    match entry.1 {
        EventView::Line(run) => has_alphanumeric(trimmed(run.text)) && (entry.2
            || is_large_title(run, baseline)),
        EventView::Image(_) => false,
    }
}

/// The text of a line without the white space around it, and nothing for a picture.
pub open spec fn line_text(e: EventView) -> Seq<char> {
    match e {
        EventView::Line(run) => trimmed(run.text),
        EventView::Image(_) => Seq::empty(),
    }
}

/// The events of all pages in reading order, each with the number of its page.
pub open spec fn flow_of(pages: Seq<PageView>) -> Seq<(nat, EventView)>
    decreases pages.len(),
{
    if pages.len() == 0 {
        Seq::empty()
    } else {
        flow_of(pages.drop_last()) + pages.last().events.map_values(
            |e: (int, EventView)| (pages.last().page_num, e.1),
        )
    }
}

/// The font sizes of all lines in a flow.
pub open spec fn flow_sizes(flow: Seq<(nat, EventView)>) -> Seq<i128>
    decreases flow.len(),
{
    if flow.len() == 0 {
        Seq::empty()
    } else {
        let before = flow_sizes(flow.drop_last());
        match flow.last().1 {
            EventView::Line(run) => before.push(run.font_size as i128),
            EventView::Image(_) => before,
        }
    }
}

/// The median font size of a flow's lines, and one point where there are no lines.
pub open spec fn baseline_of(flow: Seq<(nat, EventView)>) -> int {
    let sizes = flow_sizes(flow);
    if sizes.len() == 0 {
        UNIT as int
    } else {
        ranked(sizes)[sizes.len() as int / 2].0 as int
    }
}

/// A flow, each event with the mark that belongs to it. An event without a mark is not marked.
pub open spec fn marked(flow: Seq<(nat, EventView)>, marks: Seq<bool>) -> Seq<
    (nat, EventView, bool),
> {
    Seq::new(flow.len(), |i: int| (flow[i].0, flow[i].1, i < marks.len() && marks[i]))
}

/// The marks of a flow: whether each line is numbered as a chapter is.
pub open spec fn numbered_marks(flow: Seq<(nat, EventView)>) -> Seq<bool> {
    Seq::new(flow.len(), |i: int| is_numbered_title(line_text(flow[i].1)))
}

/// The flow of a document, with the lines marked that are numbered as chapters are.
pub open spec fn document_flow(pages: Seq<PageView>) -> Seq<(nat, EventView, bool)> {
    marked(flow_of(pages), numbered_marks(flow_of(pages)))
}

/// The chapters closed so far, and the title and the events of the one that is open.
#[verifier::ext_equal]
pub ghost struct Split {
    pub done: Seq<ChapterView>,
    pub title: Seq<char>,
    pub events: Seq<EventView>,
}

/// The last event of a flow belongs to a title that the event before it began.
pub open spec fn continues_title(flow: Seq<(nat, EventView, bool)>, baseline: int) -> bool {
    flow.len() > 1 && is_heading(flow[flow.len() - 2], baseline)
}

/// How a flow falls into chapters. Neighbouring title lines are one title. A title opens a
/// chapter and closes the one before it, unless that one is still empty, and every other event
/// belongs to the open chapter.
pub open spec fn split(flow: Seq<(nat, EventView, bool)>, baseline: int) -> Split
    decreases flow.len(),
{
    if flow.len() == 0 {
        Split { done: Seq::empty(), title: "Introdução"@, events: Seq::empty() }
    } else {
        let before = split(flow.drop_last(), baseline);
        let event = flow.last().1;
        if !is_heading(flow.last(), baseline) {
            Split { events: before.events.push(event), ..before }
        } else if continues_title(flow, baseline) {
            Split { title: before.title.push(' ') + line_text(event), ..before }
        } else if before.events.len() > 0 {
            Split {
                done: before.done.push(
                    ChapterView { title: before.title, events: before.events },
                ),
                title: line_text(event),
                events: Seq::empty(),
            }
        } else {
            Split { title: line_text(event), ..before }
        }
    }
}

/// The chapters of a flow. A last title with nothing under it is dropped, but a flow always
/// has a chapter.
pub open spec fn chapters_of(flow: Seq<(nat, EventView, bool)>, baseline: int) -> Seq<ChapterView> {
    let s = split(flow, baseline);
    if s.events.len() > 0 || s.done.len() == 0 {
        s.done.push(ChapterView { title: s.title, events: s.events })
    } else {
        s.done
    }
}

/// What is reported of a line that belongs to a title.
pub open spec fn heading_message(page_num: nat, run: RunView, baseline: int) -> Seq<char> {
    "capítulo detectado (pág. "@ + decimal(page_num) + "): \""@ + trimmed(run.text)
        + "\" (fonte "@ + one_decimal(run.font_size) + "pt, baseline "@ + one_decimal(baseline)
        + "pt)"@
}

/// One message for each line that belongs to a title.
pub open spec fn heading_messages(flow: Seq<(nat, EventView, bool)>, baseline: int) -> Seq<Seq<char>>
    decreases flow.len(),
{
    if flow.len() == 0 {
        Seq::empty()
    } else {
        let before = heading_messages(flow.drop_last(), baseline);
        match flow.last().1 {
            EventView::Line(run) if is_heading(flow.last(), baseline) => before.push(
                heading_message(flow.last().0, run, baseline),
            ),
            _ => before,
        }
    }
}

// ---------------------------------------------------------------------------------------
// What holds of every document
// ---------------------------------------------------------------------------------------

/// The events of a flow that belong to no title.
pub open spec fn body_events(flow: Seq<(nat, EventView, bool)>, baseline: int) -> Seq<EventView>
    decreases flow.len(),
{
    if flow.len() == 0 {
        Seq::empty()
    } else {
        let before = body_events(flow.drop_last(), baseline);
        if is_heading(flow.last(), baseline) {
            before
        } else {
            before.push(flow.last().1)
        }
    }
}

/// The events of all chapters, one chapter after the other.
pub open spec fn chapter_events(chapters: Seq<ChapterView>) -> Seq<EventView>
    decreases chapters.len(),
{
    if chapters.len() == 0 {
        Seq::empty()
    } else {
        chapter_events(chapters.drop_last()) + chapters.last().events
    }
}

/// The titles of all chapters, a space after each.
pub open spec fn chapter_titles(chapters: Seq<ChapterView>) -> Seq<char>
    decreases chapters.len(),
{
    if chapters.len() == 0 {
        Seq::empty()
    } else {
        chapter_titles(chapters.drop_last()) + chapters.last().title.push(' ')
    }
}

/// The title lines of a flow, a space after each. A flow that does not begin with one begins
/// with the introduction.
pub open spec fn title_lines(flow: Seq<(nat, EventView, bool)>, baseline: int) -> Seq<char>
    decreases flow.len(),
{
    if flow.len() == 0 {
        "Introdução"@.push(' ')
    } else {
        let before = title_lines(flow.drop_last(), baseline);
        if !is_heading(flow.last(), baseline) {
            before
        } else if flow.len() == 1 {
            line_text(flow.last().1).push(' ')
        } else {
            before + line_text(flow.last().1).push(' ')
        }
    }
}

proof fn lemma_split(flow: Seq<(nat, EventView, bool)>, baseline: int)
    ensures
        chapter_events(split(flow, baseline).done) + split(flow, baseline).events == body_events(
            flow,
            baseline,
        ),
        forall|i: int|
            0 <= i < split(flow, baseline).done.len() ==> (#[trigger] split(
                flow,
                baseline,
            ).done[i]).events.len() > 0,
        flow.len() > 0 && split(flow, baseline).events.len() == 0 ==> is_heading(
            flow.last(),
            baseline,
        ),
        chapter_titles(split(flow, baseline).done) + split(flow, baseline).title.push(' ')
            == title_lines(flow, baseline),
    decreases flow.len(),
{
    let s = split(flow, baseline);
    if flow.len() == 0 {
        assert(chapter_events(s.done) + s.events == body_events(flow, baseline));
        assert(chapter_titles(s.done) + s.title.push(' ') == title_lines(flow, baseline));
    } else {
        let less = flow.drop_last();
        let before = split(less, baseline);
        let event = flow.last().1;
        lemma_split(less, baseline);
        if !is_heading(flow.last(), baseline) {
            assert(chapter_events(s.done) + s.events == (chapter_events(before.done)
                + before.events).push(event));
        } else if continues_title(flow, baseline) {
            assert(chapter_titles(s.done) + s.title.push(' ') == chapter_titles(before.done)
                + before.title.push(' ') + line_text(event).push(' '));
        } else if before.events.len() > 0 {
            assert(s.done.drop_last() == before.done);
            assert(chapter_events(s.done) + s.events == chapter_events(before.done)
                + before.events);
        } else {
            if less.len() > 0 {
                assert(flow[flow.len() - 2] == less.last());
            }
            assert(before.done == Seq::<ChapterView>::empty());
            assert(chapter_titles(s.done) + s.title.push(' ') == line_text(event).push(' '));
        }
    }
}

/// There is always a chapter.
pub proof fn there_is_always_a_chapter(flow: Seq<(nat, EventView, bool)>, baseline: int)
    ensures
        chapters_of(flow, baseline).len() > 0,
{
}

/// No chapter is empty, but for the only one of a flow that holds nothing besides titles.
pub proof fn no_chapter_is_empty(flow: Seq<(nat, EventView, bool)>, baseline: int, i: int)
    requires
        0 <= i < chapters_of(flow, baseline).len(),
        chapters_of(flow, baseline)[i].events.len() == 0,
    ensures
        chapters_of(flow, baseline).len() == 1,
        body_events(flow, baseline).len() == 0,
{
    lemma_split(flow, baseline);
    let done = split(flow, baseline).done;
    if i < done.len() {
        assert(done[i].events.len() > 0);
    }
    assert(chapter_events(Seq::empty()) == Seq::<EventView>::empty());
}

/// Every event of a flow but its title lines stands in a chapter, once and in reading order.
pub proof fn chapters_keep_every_event(flow: Seq<(nat, EventView, bool)>, baseline: int)
    ensures
        chapter_events(chapters_of(flow, baseline)) == body_events(flow, baseline),
{
    lemma_split(flow, baseline);
    let s = split(flow, baseline);
    let all = chapters_of(flow, baseline);
    if s.events.len() > 0 || s.done.len() == 0 {
        assert(all.drop_last() == s.done);
    } else {
        assert(chapter_events(s.done) + s.events == chapter_events(s.done));
    }
}

/// Unless a flow ends in a title line, its titles read exactly as its title lines do, from the
/// first to the last.
pub proof fn chapters_keep_every_title(flow: Seq<(nat, EventView, bool)>, baseline: int)
    requires
        flow.len() > 0 ==> !is_heading(flow.last(), baseline),
    ensures
        chapter_titles(chapters_of(flow, baseline)) == title_lines(flow, baseline),
{
    lemma_split(flow, baseline);
    let s = split(flow, baseline);
    assert(chapters_of(flow, baseline).drop_last() == s.done);
}

/// Whether an event belongs to a title, given whether its line is numbered as a chapter is. A
/// line with a letter or a digit belongs to one where it is numbered, whatever its size, and
/// where it has fewer than 80 characters and is at least a quarter larger than a body that has a
/// size. Nothing else does.
pub proof fn titles_are_numbered_or_large(
    page_num: nat,
    run: RunView,
    is_numbered: bool,
    idx: nat,
    baseline: int,
)
    ensures
        has_alphanumeric(trimmed(run.text)) && is_numbered ==> is_heading(
            (page_num, EventView::Line(run), is_numbered),
            baseline,
        ),
        has_alphanumeric(trimmed(run.text)) && trimmed(run.text).len() < 80 && baseline > 0 && 4
            * run.font_size >= 5 * baseline ==> is_heading(
            (page_num, EventView::Line(run), is_numbered),
            baseline,
        ),
        is_heading((page_num, EventView::Line(run), is_numbered), baseline) ==> has_alphanumeric(
            trimmed(run.text),
        ) && (is_numbered || (trimmed(run.text).len() < 80 && baseline > 0 && 4 * run.font_size
            >= 5 * baseline)),
        !is_heading((page_num, EventView::Image(idx), is_numbered), baseline),
{
}

/// A title line that is set in a larger size is still one, and so is one against a smaller body
/// that has a size.
pub proof fn larger_titles_stay_titles(
    page_num: nat,
    run: RunView,
    larger: RunView,
    is_numbered: bool,
    baseline: int,
    smaller: int,
)
    requires
        is_heading((page_num, EventView::Line(run), is_numbered), baseline),
        larger.text == run.text,
        larger.font_size >= run.font_size,
        0 < smaller <= baseline,
    ensures
        is_heading((page_num, EventView::Line(larger), is_numbered), baseline),
        is_heading((page_num, EventView::Line(larger), is_numbered), smaller),
{
}

/// The event belongs to a title: it is a line with a letter or a digit that is numbered as a
/// chapter is, or short and at least a quarter larger than the body.
pub open spec fn reads_as_title(e: (nat, EventView, bool), baseline: int) -> bool {
    e.1 matches EventView::Line(run) && has_alphanumeric(trimmed(run.text)) && (e.2 || (baseline
        > 0 && 4 * run.font_size >= 5 * baseline && trimmed(run.text).len() < 80))
}

proof fn lemma_body_events(flow: Seq<(nat, EventView, bool)>, baseline: int)
    ensures
        body_events(flow, baseline) == flow.filter(
            |e: (nat, EventView, bool)| !reads_as_title(e, baseline),
        ).map_values(|e: (nat, EventView, bool)| e.1),
    decreases flow.len(),
{
    reveal(Seq::filter);
    let plain = |e: (nat, EventView, bool)| !reads_as_title(e, baseline);
    let event = |e: (nat, EventView, bool)| e.1;
    if flow.len() > 0 {
        let less = flow.drop_last();
        lemma_body_events(less, baseline);
        assert(is_heading(flow.last(), baseline) == reads_as_title(flow.last(), baseline));
        assert(less.filter(plain).push(flow.last()).map_values(event) == less.filter(
            plain,
        ).map_values(event).push(flow.last().1));
    } else {
        assert(flow.filter(plain).map_values(event) == Seq::<EventView>::empty());
    }
}

/// What stands in the chapters, one after the other, is every event that belongs to no title, in
/// reading order, and nothing else.
pub proof fn the_body_is_what_reads_as_no_title(
    flow: Seq<(nat, EventView, bool)>,
    baseline: int,
)
    ensures
        chapter_events(chapters_of(flow, baseline)) == flow.filter(
            |e: (nat, EventView, bool)| !reads_as_title(e, baseline),
        ).map_values(|e: (nat, EventView, bool)| e.1),
{
    chapters_keep_every_event(flow, baseline);
    lemma_body_events(flow, baseline);
}

proof fn lemma_split_behind_a_title(
    before: Seq<(nat, EventView, bool)>,
    from: Seq<(nat, EventView, bool)>,
    baseline: int,
)
    requires
        before.len() > 0,
        !is_heading(before.last(), baseline),
        from.len() > 0,
        is_heading(from[0], baseline),
    ensures
        ({
            let all = split(before + from, baseline);
            let rest = split(from, baseline);
            &&& all.done == chapters_of(before, baseline) + rest.done
            &&& all.title == rest.title
            &&& all.events == rest.events
        }),
    decreases from.len(),
{
    lemma_split(before, baseline);
    let all = before + from;
    let less = from.drop_last();
    assert(all.drop_last() == before + less);
    assert(all.last() == from.last());
    if from.len() == 1 {
        assert(before + less == before);
        assert(from.last() == from[0]);
        assert(all[all.len() - 2] == before.last());
        assert(split(less, baseline).done == Seq::<ChapterView>::empty());
        assert(split(less, baseline).events == Seq::<EventView>::empty());
        assert(split(all, baseline).done == chapters_of(before, baseline) + split(
            from,
            baseline,
        ).done);
    } else {
        lemma_split_behind_a_title(before, less, baseline);
        lemma_split(from.drop_last(), baseline);
        assert(all[all.len() - 2] == from[from.len() - 2]);
        let (a, b) = (split(before + less, baseline), split(less, baseline));
        let chapter = ChapterView { title: b.title, events: b.events };
        assert(chapters_of(before, baseline) + b.done.push(chapter) == (chapters_of(
            before,
            baseline,
        ) + b.done).push(chapter));
        assert(continues_title(all, baseline) == continues_title(from, baseline));
    }
}

/// A title begins a new chapter: the chapters of a flow are those of what stands before a title
/// line, and those of the flow from there on, where something that is no title stands right
/// before it and at the end.
pub proof fn a_title_begins_a_chapter(
    before: Seq<(nat, EventView, bool)>,
    from: Seq<(nat, EventView, bool)>,
    baseline: int,
)
    requires
        before.len() > 0,
        !reads_as_title(before.last(), baseline),
        from.len() > 0,
        reads_as_title(from[0], baseline),
        !reads_as_title(from.last(), baseline),
    ensures
        chapters_of(before + from, baseline) == chapters_of(before, baseline) + chapters_of(
            from,
            baseline,
        ),
{
    assert(is_heading(before.last(), baseline) == reads_as_title(before.last(), baseline));
    assert(is_heading(from[0], baseline) == reads_as_title(from[0], baseline));
    assert(is_heading(from.last(), baseline) == reads_as_title(from.last(), baseline));
    lemma_split_behind_a_title(before, from, baseline);
    lemma_split(from, baseline);
    let s = split(from, baseline);
    let chapter = ChapterView { title: s.title, events: s.events };
    assert(chapters_of(before, baseline) + s.done.push(chapter) == (chapters_of(before, baseline)
        + s.done).push(chapter));
}

/// The texts of some title lines, a space between each two.
pub open spec fn joined_lines(lines: Seq<(nat, EventView, bool)>) -> Seq<char>
    decreases lines.len(),
{
    if lines.len() == 0 {
        Seq::empty()
    } else if lines.len() == 1 {
        trimmed(lines[0].1->Line_0.text)
    } else {
        joined_lines(lines.drop_last()) + seq![' '] + trimmed(lines.last().1->Line_0.text)
    }
}

proof fn lemma_split_of_titles(lines: Seq<(nat, EventView, bool)>, baseline: int)
    requires
        forall|i: int| 0 <= i < lines.len() ==> reads_as_title(#[trigger] lines[i], baseline),
    ensures
        split(lines, baseline).done == Seq::<ChapterView>::empty(),
        split(lines, baseline).events == Seq::<EventView>::empty(),
        split(lines, baseline).title == (if lines.len() == 0 {
            "Introdução"@
        } else {
            joined_lines(lines)
        }),
    decreases lines.len(),
{
    if lines.len() > 0 {
        let less = lines.drop_last();
        assert(reads_as_title(lines[lines.len() - 1], baseline));
        assert forall|i: int| 0 <= i < less.len() implies reads_as_title(
            #[trigger] less[i],
            baseline,
        ) by {
            assert(less[i] == lines[i]);
        }
        lemma_split_of_titles(less, baseline);
        assert(is_heading(lines.last(), baseline));
        if lines.len() > 1 {
            assert(reads_as_title(lines[lines.len() - 2], baseline));
            assert(joined_lines(less).push(' ') + line_text(lines.last().1) == joined_lines(less)
                + seq![' '] + line_text(lines.last().1));
        }
    }
}

proof fn lemma_split_of_body(
    lines: Seq<(nat, EventView, bool)>,
    body: Seq<(nat, EventView, bool)>,
    baseline: int,
)
    requires
        forall|i: int| 0 <= i < lines.len() ==> reads_as_title(#[trigger] lines[i], baseline),
        forall|i: int| 0 <= i < body.len() ==> !reads_as_title(#[trigger] body[i], baseline),
    ensures
        split(lines + body, baseline).done == Seq::<ChapterView>::empty(),
        split(lines + body, baseline).events == body.map_values(
            |e: (nat, EventView, bool)| e.1,
        ),
        split(lines + body, baseline).title == split(lines, baseline).title,
    decreases body.len(),
{
    let event = |e: (nat, EventView, bool)| e.1;
    lemma_split_of_titles(lines, baseline);
    if body.len() == 0 {
        assert(lines + body == lines);
    } else {
        let less = body.drop_last();
        let all = lines + body;
        assert(all.drop_last() == lines + less);
        assert(all.last() == body.last());
        assert(!reads_as_title(body[body.len() - 1], baseline));
        assert forall|i: int| 0 <= i < less.len() implies !reads_as_title(
            #[trigger] less[i],
            baseline,
        ) by {
            assert(less[i] == body[i]);
        }
        lemma_split_of_body(lines, less, baseline);
        assert(!is_heading(all.last(), baseline));
        assert(less.map_values(event).push(body.last().1) == body.map_values(event));
    }
}

/// Title lines that follow one another are one title, a space between each two, and all that
/// follows up to the next title stands in its chapter. What stands before the first title is the
/// introduction.
pub proof fn a_chapter_is_its_title_lines_and_what_follows(
    lines: Seq<(nat, EventView, bool)>,
    body: Seq<(nat, EventView, bool)>,
    baseline: int,
)
    requires
        forall|i: int| 0 <= i < lines.len() ==> reads_as_title(#[trigger] lines[i], baseline),
        forall|i: int| 0 <= i < body.len() ==> !reads_as_title(#[trigger] body[i], baseline),
    ensures
        chapters_of(lines + body, baseline).len() == 1,
        chapters_of(lines + body, baseline)[0].title == (if lines.len() == 0 {
            "Introdução"@
        } else {
            joined_lines(lines)
        }),
        chapters_of(lines + body, baseline)[0].events == body.map_values(
            |e: (nat, EventView, bool)| e.1,
        ),
{
    lemma_split_of_titles(lines, baseline);
    lemma_split_of_body(lines, body, baseline);
}

/// Title lines with nothing behind them are dropped, where something stands before them.
pub proof fn last_titles_without_a_body_are_dropped(
    flow: Seq<(nat, EventView, bool)>,
    lines: Seq<(nat, EventView, bool)>,
    baseline: int,
)
    requires
        flow.len() > 0,
        !reads_as_title(flow.last(), baseline),
        forall|i: int| 0 <= i < lines.len() ==> reads_as_title(#[trigger] lines[i], baseline),
    ensures
        chapters_of(flow + lines, baseline) == chapters_of(flow, baseline),
{
    assert(is_heading(flow.last(), baseline) == reads_as_title(flow.last(), baseline));
    lemma_split(flow, baseline);
    if lines.len() == 0 {
        assert(flow + lines == flow);
    } else {
        assert(reads_as_title(lines[0], baseline));
        assert(is_heading(lines[0], baseline));
        lemma_split_behind_a_title(flow, lines, baseline);
        lemma_split_of_titles(lines, baseline);
        assert(chapters_of(flow, baseline) + Seq::<ChapterView>::empty() == chapters_of(
            flow,
            baseline,
        ));
    }
}

/// Every title line is reported once, in reading order, with the number of its page, its text and
/// the two sizes that were compared. No other event is.
pub proof fn every_title_line_is_reported(flow: Seq<(nat, EventView, bool)>, baseline: int)
    ensures
        heading_messages(flow, baseline) == flow.filter(
            |e: (nat, EventView, bool)| reads_as_title(e, baseline),
        ).map_values(
            |e: (nat, EventView, bool)|
                "capítulo detectado (pág. "@ + decimal(e.0) + "): \""@ + trimmed(
                    e.1->Line_0.text,
                ) + "\" (fonte "@ + one_decimal(e.1->Line_0.font_size) + "pt, baseline "@
                    + one_decimal(baseline) + "pt)"@,
        ),
    decreases flow.len(),
{
    reveal(Seq::filter);
    let is_title = |e: (nat, EventView, bool)| reads_as_title(e, baseline);
    let message = |e: (nat, EventView, bool)|
        "capítulo detectado (pág. "@ + decimal(e.0) + "): \""@ + trimmed(e.1->Line_0.text)
            + "\" (fonte "@ + one_decimal(e.1->Line_0.font_size) + "pt, baseline "@ + one_decimal(
            baseline,
        ) + "pt)"@;
    if flow.len() > 0 {
        let less = flow.drop_last();
        let last = flow.last();
        every_title_line_is_reported(less, baseline);
        assert(is_heading(last, baseline) == reads_as_title(last, baseline));
        assert(less.filter(is_title).push(last).map_values(message) == less.filter(
            is_title,
        ).map_values(message).push(message(last)));
    } else {
        assert(flow.filter(is_title).map_values(message) == Seq::<Seq<char>>::empty());
    }
}

/// A flow keeps its events, each with the mark at its own place. Where there is no mark, the event
/// is not marked.
pub proof fn marks_go_to_their_own_events(
    flow: Seq<(nat, EventView)>,
    marks: Seq<bool>,
    i: int,
)
    requires
        0 <= i < flow.len(),
    ensures
        marked(flow, marks).len() == flow.len(),
        marked(flow, marks)[i].0 == flow[i].0,
        marked(flow, marks)[i].1 == flow[i].1,
        i < marks.len() ==> marked(flow, marks)[i].2 == marks[i],
        i >= marks.len() ==> !marked(flow, marks)[i].2,
{
}

/// A line in which one of the four patterns matches is marked as numbered, and no other is.
pub proof fn lines_are_numbered_by_four_patterns(pages: Seq<PageView>, i: int)
    requires
        0 <= i < flow_of(pages).len(),
    ensures
        document_flow(pages).len() == flow_of(pages).len(),
        document_flow(pages)[i].0 == flow_of(pages)[i].0,
        document_flow(pages)[i].1 == flow_of(pages)[i].1,
        flow_of(pages)[i].1 matches EventView::Line(run) ==> {
            let text = trimmed(run.text);
            document_flow(pages)[i].2 <==> {
                ||| regex_is_valid(r"(?i)^\s*cap[ií]tulo\s+\d+"@) && regex_is_match(
                    r"(?i)^\s*cap[ií]tulo\s+\d+"@,
                    text,
                )
                ||| regex_is_valid(r"(?i)^\s*chapter\s+\d+"@) && regex_is_match(
                    r"(?i)^\s*chapter\s+\d+"@,
                    text,
                )
                ||| regex_is_valid(r"(?i)^\s*parte\s+\d+"@) && regex_is_match(
                    r"(?i)^\s*parte\s+\d+"@,
                    text,
                )
                ||| regex_is_valid(r"(?i)^\s*part\s+\d+"@) && regex_is_match(
                    r"(?i)^\s*part\s+\d+"@,
                    text,
                )
            }
        },
{
}

/// The flow of some pages is that of the first ones and then that of the others, and the flow of
/// one page is its events in their order, each with the number of the page.
pub proof fn a_flow_goes_page_by_page(pages: Seq<PageView>, more: Seq<PageView>, page: PageView)
    ensures
        flow_of(pages + more) == flow_of(pages) + flow_of(more),
        flow_of(seq![page]).len() == page.events.len(),
        forall|i: int|
            0 <= i < page.events.len() ==> #[trigger] flow_of(seq![page])[i] == (
                page.page_num,
                page.events[i].1,
            ),
    decreases more.len(),
{
    let one = seq![page];
    assert(one.drop_last() == Seq::<PageView>::empty());
    assert(one.last() == page);
    assert(flow_of(one.drop_last()) == Seq::<(nat, EventView)>::empty());
    assert(flow_of(one) == page.events.map_values(|e: (int, EventView)| (page.page_num, e.1)));
    if more.len() == 0 {
        assert(pages + more == pages);
        assert(flow_of(pages) + flow_of(more) == flow_of(pages));
    } else {
        let less = more.drop_last();
        a_flow_goes_page_by_page(pages, less, page);
        assert((pages + more).drop_last() == pages + less);
        let last = more.last();
        let events = last.events.map_values(|e: (int, EventView)| (last.page_num, e.1));
        assert(flow_of(pages) + flow_of(less) + events == flow_of(pages) + (flow_of(less)
            + events));
    }
}

/// The sizes are those of the lines of the flow, in their order.
proof fn lemma_sizes_of_lines(flow: Seq<(nat, EventView)>)
    ensures
        flow_sizes(flow) == flow.filter(|e: (nat, EventView)| e.1 is Line).map_values(
            |e: (nat, EventView)| e.1->Line_0.font_size as i128,
        ),
    decreases flow.len(),
{
    reveal(Seq::filter);
    let is_line = |e: (nat, EventView)| e.1 is Line;
    let size = |e: (nat, EventView)| e.1->Line_0.font_size as i128;
    if flow.len() > 0 {
        let less = flow.drop_last();
        lemma_sizes_of_lines(less);
        assert(less.filter(is_line).push(flow.last()).map_values(size) == less.filter(
            is_line,
        ).map_values(size).push(size(flow.last())));
    } else {
        assert(flow.filter(is_line).map_values(size) == Seq::<i128>::empty());
    }
}

/// The size of the body is the upper median of the sizes of all lines: put in ascending order, it
/// stands in the middle. Pictures have no size. Without a line it is one point.
pub proof fn the_body_has_the_median_size(flow: Seq<(nat, EventView)>)
    requires
        flow.len() <= usize::MAX,
    ensures
        ({
            let sizes = flow.filter(|e: (nat, EventView)| e.1 is Line).map_values(
                |e: (nat, EventView)| e.1->Line_0.font_size as i128,
            );
            if sizes.len() == 0 {
                baseline_of(flow) == 1_000_000
            } else {
                exists|order: Seq<int>|
                    {
                        &&& #[trigger] are_all_positions(order, sizes.len())
                        &&& ascends(sizes, order)
                        &&& baseline_of(flow) == sizes[order[sizes.len() as int / 2]]
                    }
            }
        }),
{
    lemma_sizes_of_lines(flow);
    let sizes = flow_sizes(flow);
    flow.lemma_filter_len(|e: (nat, EventView)| e.1 is Line);
    if sizes.len() > 0 {
        ranking_is_a_stable_permutation(sizes);
        let order = ranked(sizes).map_values(|p: (i128, usize)| p.1 as int);
        assert(ranked(sizes)[sizes.len() as int / 2].0 == sizes[order[sizes.len() as int / 2]]);
        assert(are_all_positions(order, sizes.len()));
    }
}

/// An event and the number of its page.
struct Placed<'a> {
    page_num: u32,
    event: &'a FlowEvent,
}

spec fn placed_views(flow: Seq<Placed<'_>>) -> Seq<(nat, EventView)> {
    flow.map_values(|p: Placed| (p.page_num as nat, p.event@))
}

fn flatten<'a>(doc: &'a ExtractedDoc) -> (r: Vec<Placed<'a>>)
    ensures
        placed_views(r@) == flow_of(doc@.pages),
{
    let mut out: Vec<Placed<'a>> = Vec::new();
    let ghost pages = doc@.pages;
    assert(pages.take(0) == Seq::<PageView>::empty());
    assert(placed_views(out@) == Seq::<(nat, EventView)>::empty());
    for i in 0..doc.pages.len()
        invariant
            pages == doc@.pages,
            placed_views(out@) == flow_of(pages.take(i as int)),
    {
        let page = &doc.pages[i];
        let ghost before = flow_of(pages.take(i as int));
        let ghost here = page@.events.map_values(|e: (int, EventView)| (page@.page_num, e.1));
        assert(pages.take(i + 1).drop_last() == pages.take(i as int));
        assert(pages.take(i + 1).last() == page@);
        assert(before + here.take(0) == before);
        for j in 0..page.events.len()
            invariant
                here == page@.events.map_values(|e: (int, EventView)| (page@.page_num, e.1)),
                placed_views(out@) == before + here.take(j as int),
        {
            let ghost held = out@;
            out.push(Placed { page_num: page.page_num, event: &page.events[j].1 });
            assert(here[j as int] == (page.page_num as nat, page.events@[j as int].1@));
            assert(placed_views(out@) == placed_views(held).push(here[j as int]));
            assert(before + here.take(j + 1) == (before + here.take(j as int)).push(
                here[j as int],
            ));
        }
        assert(here.take(page.events@.len() as int) == here);
    }
    assert(pages.take(doc.pages@.len() as int) == pages);
    out
}

fn baseline_of_flow(flow: &Vec<Placed<'_>>) -> (r: i64)
    ensures
        r == baseline_of(placed_views(flow@)),
{
    let mut sizes: Vec<i128> = Vec::new();
    let ghost views = placed_views(flow@);
    assert(views.take(0) == Seq::<(nat, EventView)>::empty());
    for i in 0..flow.len()
        invariant
            views == placed_views(flow@),
            sizes@ == flow_sizes(views.take(i as int)),
            forall|k: int| 0 <= k < sizes@.len() ==> i64::MIN <= #[trigger] sizes@[k] <= i64::MAX,
    {
        assert(views.take(i + 1).drop_last() == views.take(i as int));
        assert(views.take(i + 1).last() == (
            flow@[i as int].page_num as nat,
            flow@[i as int].event@,
        ));
        if let FlowEvent::Line(run) = flow[i].event {
            sizes.push(run.font_size as i128);
        }
    }
    assert(views.take(flow@.len() as int) == views);
    if sizes.len() == 0 {
        return UNIT;
    }
    let order = rank(&sizes);
    proof {
        crate::order::ranking_sorts(sizes@);
    }
    let middle: usize = sizes.len() / 2;
    let (size, at) = order[middle];
    assert(size == sizes@[at as int]);
    size as i64
}

/// The font size that most of the document's text is set in: its median.
pub fn body_font_baseline(doc: &ExtractedDoc) -> (r: i64)
    ensures
        r == baseline_of(flow_of(doc@.pages)),
{
    let flow = flatten(doc);
    baseline_of_flow(&flow)
}

/// Adds to `found` the lines in which the pattern matches.
fn note_matches(pattern: &str, lines: &Vec<String>, found: &mut Vec<bool>)
    requires
        old(found)@.len() == lines@.len(),
    ensures
        final(found)@.len() == lines@.len(),
        forall|i: int|
            0 <= i < lines@.len() ==> #[trigger] final(found)@[i] == (old(found)@[i]
                || pattern_found(pattern@, lines@[i]@)),
{
    let ghost before = found@;
    if let Some(matches) = match_lines(pattern, lines) {
        for i in 0..lines.len()
            invariant
                found@.len() == lines@.len(),
                before.len() == lines@.len(),
                matches@.len() == lines@.len(),
                regex_is_valid(pattern@),
                forall|k: int|
                    0 <= k < lines@.len() ==> #[trigger] matches@[k] == regex_is_match(
                        pattern@,
                        lines@[k]@,
                    ),
                forall|k: int|
                    0 <= k < i ==> #[trigger] found@[k] == (before[k] || pattern_found(
                        pattern@,
                        lines@[k]@,
                    )),
                forall|k: int| i <= k < lines@.len() ==> #[trigger] found@[k] == before[k],
        {
            let old_value: bool = found[i];
            let hit: bool = matches[i];
            found.set(i, old_value || hit);
        }
    }
}

/// For each line, whether it is numbered as a chapter is.
pub fn find_numbered_titles(lines: &Vec<String>) -> (r: Vec<bool>)
    ensures
        r@.len() == lines@.len(),
        forall|i: int| 0 <= i < lines@.len() ==> #[trigger] r@[i] == is_numbered_title(lines@[i]@),
{
    let mut found: Vec<bool> = Vec::new();
    for i in 0..lines.len()
        invariant
            found@.len() == i,
            forall|k: int| 0 <= k < i ==> !#[trigger] found@[k],
    {
        found.push(false);
    }
    note_matches(r"(?i)^\s*cap[ií]tulo\s+\d+", lines, &mut found);
    note_matches(r"(?i)^\s*chapter\s+\d+", lines, &mut found);
    note_matches(r"(?i)^\s*parte\s+\d+", lines, &mut found);
    note_matches(r"(?i)^\s*part\s+\d+", lines, &mut found);
    found
}

/// The text of each line of a document, trimmed, and an empty text for each picture, in reading
/// order.
pub fn line_texts(doc: &ExtractedDoc) -> (r: Vec<String>)
    ensures
        r@.len() == flow_of(doc@.pages).len(),
        forall|i: int|
            0 <= i < r@.len() ==> (#[trigger] r@[i])@ == line_text(flow_of(doc@.pages)[i].1),
{
    let flow = flatten(doc);
    let ghost views = flow_of(doc@.pages);
    let mut lines: Vec<String> = Vec::new();
    for i in 0..flow.len()
        invariant
            views == placed_views(flow@),
            lines@.len() == i,
            forall|k: int| 0 <= k < i ==> (#[trigger] lines@[k])@ == line_text(views[k].1),
    {
        assert(views[i as int].1 == flow@[i as int].event@);
        match flow[i].event {
            FlowEvent::Line(run) => {
                lines.push(run.text.as_str().trim().to_owned());
            },
            FlowEvent::Image(_) => {
                let nothing = String::new();
                assert(nothing@ == Seq::<char>::empty());
                lines.push(nothing);
            },
        }
    }
    lines
}

fn is_set_large(run: &TextRun, text: &str, baseline: i64) -> (r: bool)
    requires
        text@ == trimmed(run.text@),
    ensures
        r == is_large_title(run@, baseline as int),
{
    assert(baseline * TITLE_MIN == baseline * 125);
    let least: i128 = baseline as i128 * (TITLE_MIN as i128);
    baseline > 0 && run.font_size as i128 * 100 >= least && text.unicode_len() < TITLE_MAX_CHARS
}

fn report_heading(page_num: u32, text: &str, run: &TextRun, baseline: i64) -> (r: String)
    requires
        text@ == trimmed(run.text@),
    ensures
        r@ == heading_message(page_num as nat, run@, baseline as int),
{
    let mut message = String::new();
    message.append("capítulo detectado (pág. ");
    push_decimal(&mut message, page_num as u128);
    message.append("): \"");
    message.append(text);
    message.append("\" (fonte ");
    push_one_decimal(&mut message, run.font_size as i128);
    message.append("pt, baseline ");
    push_one_decimal(&mut message, baseline as i128);
    message.append("pt)");
    assert(message@ == heading_message(page_num as nat, run@, baseline as int));
    message
}

/// Splits the document's flow into chapters, given for each event whether its line is numbered as
/// a chapter is: see `chapters_of`. Every title line is reported in `log`.
pub fn split_into_chapters(
    doc: &ExtractedDoc,
    numbered: &Vec<bool>,
    log: &mut Vec<String>,
) -> (r: Vec<Chapter>)
    ensures
        chapter_views(r@) == chapters_of(
            marked(flow_of(doc@.pages), numbered@),
            baseline_of(flow_of(doc@.pages)),
        ),
        texts(final(log)@) == texts(old(log)@) + heading_messages(
            marked(flow_of(doc@.pages), numbered@),
            baseline_of(flow_of(doc@.pages)),
        ),
{
    let flow = flatten(doc);
    let baseline: i64 = baseline_of_flow(&flow);
    let ghost views = marked(placed_views(flow@), numbered@);
    let ghost base = baseline as int;
    let ghost logged = texts(log@);

    let mut chapters: Vec<Chapter> = Vec::new();
    let mut title: String = "Introdução".to_owned();
    let mut events: Vec<FlowEvent> = Vec::new();
    let mut in_heading_run = false;
    assert(views.take(0) == Seq::<(nat, EventView, bool)>::empty());
    assert(chapter_views(chapters@) == Seq::<ChapterView>::empty());
    assert(event_views(events@) == Seq::<EventView>::empty());
    assert(logged + Seq::<Seq<char>>::empty() == logged);
    for i in 0..flow.len()
        invariant
            views == marked(placed_views(flow@), numbered@),
            base == baseline as int,
            chapter_views(chapters@) == split(views.take(i as int), base).done,
            title@ == split(views.take(i as int), base).title,
            event_views(events@) == split(views.take(i as int), base).events,
            in_heading_run == (i > 0 && is_heading(views[i - 1], base)),
            texts(log@) == logged + heading_messages(views.take(i as int), base),
    {
        let ghost here = views.take(i + 1);
        let ghost kept = events@;
        let ghost closed = chapters@;
        let ghost said = log@;
        assert(here.drop_last() == views.take(i as int));
        assert(here.last() == views[i as int]);
        let is_numbered = i < numbered.len() && numbered[i];
        assert(placed_views(flow@)[i as int] == (
            flow@[i as int].page_num as nat,
            flow@[i as int].event@,
        ));
        assert(views[i as int] == (
            flow@[i as int].page_num as nat,
            flow@[i as int].event@,
            is_numbered,
        ));
        assert(i > 0 ==> here[here.len() - 2] == views[i - 1]);
        match flow[i].event {
            FlowEvent::Line(run) => {
                let text = run.text.as_str().trim();
                let has_words = contains_alphanumeric(text);
                let is_large = is_set_large(run, text, baseline);
                if has_words && (is_numbered || is_large) {
                    assert(is_heading(views[i as int], base));
                    if in_heading_run {
                        let ghost before = title@;
                        title.push(' ');
                        title.append(text);
                        assert(title@ == before.push(' ') + text@);
                    } else {
                        if events.len() > 0 {
                            let chapter = Chapter { title, events };
                            let ghost view = chapter@;
                            chapters.push(chapter);
                            assert(chapter_views(chapters@) == chapter_views(closed).push(view));
                            events = Vec::new();
                            assert(event_views(events@) == Seq::<EventView>::empty());
                        }
                        title = text.to_owned();
                    }
                    let message = report_heading(flow[i].page_num, text, run, baseline);
                    let ghost words = message@;
                    log.push(message);
                    assert(texts(log@) == texts(said).push(words));
                    assert(logged + heading_messages(here, base) == (logged + heading_messages(
                        views.take(i as int),
                        base,
                    )).push(words));
                    in_heading_run = true;
                } else {
                    assert(!is_heading(views[i as int], base));
                    in_heading_run = false;
                    events.push(FlowEvent::Line(run.clone()));
                    assert(event_views(events@) == event_views(kept).push(views[i as int].1));
                }
            },
            FlowEvent::Image(idx) => {
                in_heading_run = false;
                events.push(FlowEvent::Image(*idx));
                assert(event_views(events@) == event_views(kept).push(views[i as int].1));
            },
        }
    }
    assert(views.take(flow@.len() as int) == views);
    let ghost closed = chapters@;
    if events.len() > 0 || chapters.len() == 0 {
        let chapter = Chapter { title, events };
        let ghost view = chapter@;
        chapters.push(chapter);
        assert(chapter_views(chapters@) == chapter_views(closed).push(view));
    }
    chapters
}

/// Splits the document's flow into chapters. A line opens a chapter if it is numbered like one
/// ("Capítulo 1"), or if it is set well above the body's size and reads like a short title.
/// This is a heuristic, so every title line is reported in `log`.
pub fn detect_chapters(doc: &ExtractedDoc, log: &mut Vec<String>) -> (r: Vec<Chapter>)
    ensures
        chapter_views(r@) == chapters_of(
            document_flow(doc@.pages),
            baseline_of(flow_of(doc@.pages)),
        ),
        texts(final(log)@) == texts(old(log)@) + heading_messages(
            document_flow(doc@.pages),
            baseline_of(flow_of(doc@.pages)),
        ),
{
    let lines = line_texts(doc);
    let numbered = find_numbered_titles(&lines);
    assert(numbered@ == numbered_marks(flow_of(doc@.pages)));
    split_into_chapters(doc, &numbered, log)
}

} // verus!
