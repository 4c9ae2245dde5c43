//! Puts the characters of a page together into lines, and lines and pictures into a flow.
use vstd::prelude::*;

use crate::order::{
    are_all_positions, rank, ranked, ranking_is_a_stable_permutation, ranking_sorts,
};
use crate::pdf_model::{EventView, FlowEvent, PageFlow, RunView, TextRun, FULL_WIDTH, UNIT};
use crate::text::{
    decimal, is_blank, is_whitespace_char, push_decimal, texts, trimmed,
};

verus! {

// ---------------------------------------------------------------------------------------
// Lines
// ---------------------------------------------------------------------------------------

/// Collects the characters of a page, in the order in which they are drawn, into lines.
#[derive(Debug)]
pub struct FlowRecorder {
    pub page_width: i64,
    pub lines: Vec<TextRun>,
    pub cur_text: String,
    pub cur_y: i64,
    pub cur_font_size: i64,
    /// The leftmost character of the line, if there was one.
    pub cur_x_start: Option<i64>,
    pub last_end: i64,
    pub last_y: i64,
    pub line_start: bool,
    pub first_char_of_word: bool,
    pub any_output_yet: bool,
}

#[verifier::ext_equal]
pub ghost struct RecorderView {
    pub page_width: int,
    pub lines: Seq<RunView>,
    pub cur_text: Seq<char>,
    pub cur_y: int,
    pub cur_font_size: int,
    pub cur_x_start: Option<i64>,
    pub last_end: int,
    pub last_y: int,
    pub line_start: bool,
    pub first_char_of_word: bool,
    pub any_output_yet: bool,
}

/// The contents of a list of lines.
pub open spec fn run_views(lines: Seq<TextRun>) -> Seq<RunView> {
    lines.map_values(|r: TextRun| r@)
}

impl View for FlowRecorder {
    type V = RecorderView;

    open spec fn view(&self) -> RecorderView {
        RecorderView {
            page_width: self.page_width as int,
            lines: run_views(self.lines@),
            cur_text: self.cur_text@,
            cur_y: self.cur_y as int,
            cur_font_size: self.cur_font_size as int,
            cur_x_start: self.cur_x_start,
            last_end: self.last_end as int,
            last_y: self.last_y as int,
            line_start: self.line_start,
            first_char_of_word: self.first_char_of_word,
            any_output_yet: self.any_output_yet,
        }
    }
}

/// A position in parts of the page width, from the left edge to the right, rounded up: so it
/// lies beyond a mark exactly where the position does. A page without a width counts as one point
/// wide.
pub open spec fn page_fraction(x: int, page_width: int) -> int {
    let width = if page_width > 0 {
        page_width
    } else {
        UNIT as int
    };
    if x <= 0 {
        0
    } else if x >= width {
        FULL_WIDTH as int
    } else {
        (x * FULL_WIDTH + width - 1) / width
    }
}

/// The line that is open, once it is closed. A line without a size counts as one point high.
pub open spec fn open_line(s: RecorderView) -> RunView {
    RunView {
        text: trimmed(s.cur_text),
        y: s.cur_y,
        font_size: if s.cur_font_size > 0 {
            s.cur_font_size
        } else {
            UNIT as int
        },
        x_start: match s.cur_x_start {
            Some(x) => page_fraction(x as int, s.page_width),
            None => FULL_WIDTH as int,
        },
    }
}

/// The open line is closed. A blank one leaves nothing behind.
pub open spec fn flushed(s: RecorderView) -> RecorderView {
    RecorderView {
        lines: if is_blank(s.cur_text) {
            s.lines
        } else {
            s.lines.push(open_line(s))
        },
        cur_text: Seq::empty(),
        cur_font_size: 0,
        cur_x_start: None,
        line_start: true,
        ..s
    }
}

/// A page of this width begins.
pub open spec fn page_begun(s: RecorderView, page_width: int) -> RecorderView {
    RecorderView {
        page_width,
        cur_x_start: None,
        last_end: 100_000 * UNIT,
        last_y: 0,
        line_start: true,
        ..s
    }
}

/// The distance between two positions.
pub open spec fn distance(a: int, b: int) -> int {
    if a < b {
        b - a
    } else {
        a - b
    }
}

/// A character at this place, of this size, begins a line: it begins a word, and it stands far
/// above or below the character before it, or a little and further to the left.
pub open spec fn breaks_line(s: RecorderView, x: int, y: int, size: int) -> bool {
    &&& s.first_char_of_word
    &&& s.any_output_yet
    &&& 2 * distance(y, s.last_y) > 3 * size || (x < s.last_end && 2 * distance(y, s.last_y)
        > size)
}

/// A character is drawn at this place, with this end and of this size. Only lines are broken
/// here: no space is made up from a gap between words. Justified text spreads its stretch over
/// pairs of letters too, and carries a space of its own at every real word boundary.
pub open spec fn drawn(
    s: RecorderView,
    x: int,
    y: int,
    end: int,
    size: int,
    text: Seq<char>,
) -> RecorderView {
    let t = if breaks_line(s, x, y, size) {
        flushed(s)
    } else {
        s
    };
    RecorderView {
        cur_y: if t.line_start {
            y
        } else {
            t.cur_y
        },
        line_start: false,
        first_char_of_word: false,
        cur_text: t.cur_text + text,
        cur_font_size: if t.cur_font_size < size {
            size
        } else {
            t.cur_font_size
        },
        cur_x_start: match t.cur_x_start {
            Some(left) => if left < x {
                Some(left)
            } else {
                Some(x as i64)
            },
            None => Some(x as i64),
        },
        any_output_yet: true,
        last_y: y,
        last_end: end,
        ..t
    }
}

/// A recorder that has seen nothing yet.
pub open spec fn blank_recorder() -> RecorderView {
    RecorderView {
        page_width: 0,
        lines: Seq::empty(),
        cur_text: Seq::empty(),
        cur_y: 0,
        cur_font_size: 0,
        cur_x_start: Some(0),
        last_end: 0,
        last_y: 0,
        line_start: false,
        first_char_of_word: false,
        any_output_yet: false,
    }
}

impl Default for FlowRecorder {
    fn default() -> (r: Self)
        ensures
            r@ == blank_recorder(),
    {
        let r = FlowRecorder {
            page_width: 0,
            lines: Vec::new(),
            cur_text: String::new(),
            cur_y: 0,
            cur_font_size: 0,
            cur_x_start: Some(0),
            last_end: 0,
            last_y: 0,
            line_start: false,
            first_char_of_word: false,
            any_output_yet: false,
        };
        assert(r@.lines == Seq::<RunView>::empty());
        r
    }
}

fn fraction_of(x: i64, page_width: i64) -> (r: i64)
    ensures
        r == page_fraction(x as int, page_width as int),
{
    let width: i64 = if page_width > 0 {
        page_width
    } else {
        UNIT
    };
    if x <= 0 {
        0
    } else if x >= width {
        FULL_WIDTH
    } else {
        assert(0 <= x * FULL_WIDTH <= 0x7fff_ffff_ffff_ffff * 1_000_000_000_000_000)
            by (nonlinear_arith)
            requires
                0 < x <= 0x7fff_ffff_ffff_ffff,
                FULL_WIDTH == 1_000_000_000_000_000,
        ;
        let share: i128 = (x as i128 * (FULL_WIDTH as i128) + (width as i128 - 1)) / width as i128;
        assert(0 <= (x * FULL_WIDTH + width - 1) / width as int <= FULL_WIDTH) by (nonlinear_arith)
            requires
                0 < x < width,
                FULL_WIDTH == 1_000_000_000_000_000,
        ;
        share as i64
    }
}

fn gap_between(a: i64, b: i64) -> (r: i128)
    ensures
        r == distance(a as int, b as int),
{
    if a < b {
        b as i128 - a as i128
    } else {
        a as i128 - b as i128
    }
}

impl FlowRecorder {
    /// Closes the open line.
    pub fn flush_line(&mut self)
        ensures
            final(self)@ == flushed(old(self)@),
    {
        let ghost before = self.lines@;
        let ghost start = self@;
        let text: String = self.cur_text.as_str().trim().to_owned();
        if !text.as_str().is_empty() {
            let run = TextRun {
                text,
                y: self.cur_y,
                font_size: if self.cur_font_size > 0 {
                    self.cur_font_size
                } else {
                    UNIT
                },
                x_start: match self.cur_x_start {
                    Some(x) => fraction_of(x, self.page_width),
                    None => FULL_WIDTH,
                },
            };
            let ghost view = run@;
            self.lines.push(run);
            assert(run_views(self.lines@) == run_views(before).push(view));
            assert(view == open_line(start));
        }
        self.cur_text = String::new();
        self.cur_font_size = 0;
        self.cur_x_start = None;
        self.line_start = true;
        assert(self@ == flushed(start));
    }

    /// Begins a page of this width.
    pub fn begin_page(&mut self, page_width: i64)
        ensures
            final(self)@ == page_begun(old(self)@, page_width as int),
    {
        self.page_width = page_width;
        self.cur_x_start = None;
        self.last_end = 100_000 * UNIT;
        self.last_y = 0;
        self.line_start = true;
    }

    /// Ends the page.
    pub fn end_page(&mut self)
        ensures
            final(self)@ == flushed(old(self)@),
    {
        self.flush_line();
    }

    /// Takes a character, or several that are drawn as one: see `drawn`.
    pub fn output_character(&mut self, x: i64, y: i64, end: i64, size: i64, text: &str)
        ensures
            final(self)@ == drawn(
                old(self)@,
                x as int,
                y as int,
                end as int,
                size as int,
                text@,
            ),
    {
        if self.first_char_of_word && self.any_output_yet {
            let jump: i128 = 2 * gap_between(y, self.last_y);
            let big_y_jump = jump > 3 * (size as i128);
            let moved_left_down = x < self.last_end && jump > size as i128;
            if big_y_jump || moved_left_down {
                self.flush_line();
            }
        }
        self.first_char_of_word = false;
        if self.line_start {
            self.cur_y = y;
            self.line_start = false;
        }
        self.cur_text.append(text);
        if self.cur_font_size < size {
            self.cur_font_size = size;
        }
        self.cur_x_start = match self.cur_x_start {
            Some(left) => if left < x {
                Some(left)
            } else {
                Some(x)
            },
            None => Some(x),
        };
        self.any_output_yet = true;
        self.last_y = y;
        self.last_end = end;
    }

    /// Begins a word.
    pub fn begin_word(&mut self)
        ensures
            final(self)@ == (RecorderView { first_char_of_word: true, ..old(self)@ }),
    {
        self.first_char_of_word = true;
    }
}

// ---------------------------------------------------------------------------------------
// What holds of every page
// ---------------------------------------------------------------------------------------

/// The line has text, none of it white space at either end, a size, and a place on the page.
pub open spec fn is_sound_line(run: RunView) -> bool {
    &&& run.text.len() > 0
    &&& trimmed(run.text) == run.text
    &&& run.font_size > 0
    &&& 0 <= run.x_start <= FULL_WIDTH
}

/// Every line that was closed is sound.
pub open spec fn lines_are_sound(s: RecorderView) -> bool {
    forall|i: int| 0 <= i < s.lines.len() ==> is_sound_line(#[trigger] s.lines[i])
}

proof fn lemma_fraction(x: int, page_width: int)
    ensures
        0 <= page_fraction(x, page_width) <= FULL_WIDTH,
{
    let width = if page_width > 0 {
        page_width
    } else {
        UNIT as int
    };
    if 0 < x < width {
        assert(0 <= (x * FULL_WIDTH + width - 1) / width <= FULL_WIDTH) by (nonlinear_arith)
            requires
                0 < x < width,
                FULL_WIDTH == 1_000_000_000_000_000,
        ;
    }
}

/// A position on the page comes to no less than its share of the width, and to less than one part
/// more.
proof fn lemma_fraction_is_close(x: int, page_width: int)
    requires
        0 <= x <= page_width,
        0 < page_width,
    ensures
        x * FULL_WIDTH <= page_fraction(x, page_width) * page_width,
        page_fraction(x, page_width) * page_width < x * FULL_WIDTH + page_width,
{
    let width = page_width;
    let up = page_fraction(x, width);
    if x == 0 {
        assert(up * width == 0) by (nonlinear_arith)
            requires
                up == 0,
        ;
    } else if x < width {
        let sum = x * FULL_WIDTH + width - 1;
        assert(sum < up * width + width && up * width <= sum) by (nonlinear_arith)
            requires
                width > 0,
                up == sum / width,
        ;
    } else {
        assert(up * width == x * FULL_WIDTH) by (nonlinear_arith)
            requires
                up == FULL_WIDTH,
                x == width,
        ;
    }
}

/// A position on the page counts as lying beyond a mark exactly where it does so, however close
/// the two are.
pub proof fn marks_are_compared_exactly(x: int, page_width: int, mark: int)
    requires
        0 <= x <= page_width,
        0 < page_width,
    ensures
        page_fraction(x, page_width) > mark <==> x * FULL_WIDTH > mark * page_width,
{
    lemma_fraction_is_close(x, page_width);
    let up = page_fraction(x, page_width);
    assert(up > mark ==> up * page_width >= mark * page_width + page_width) by (nonlinear_arith)
        requires
            page_width > 0,
    ;
    assert(up <= mark ==> up * page_width <= mark * page_width) by (nonlinear_arith)
        requires
            page_width > 0,
    ;
}

/// Of two positions on pages of the same width, one counts as lying some thousandths of the width
/// beyond the other exactly where it does so. This holds of pages up to a million points wide.
pub proof fn distances_are_compared_exactly(x: int, y: int, page_width: int, thousandths: int)
    requires
        0 <= x <= page_width,
        0 <= y <= page_width,
        0 < page_width <= 1_000_000 * UNIT,
    ensures
        page_fraction(x, page_width) > page_fraction(y, page_width) + thousandths
            * 1_000_000_000_000 <==> 1000 * x > 1000 * y + thousandths * page_width,
{
    let width = page_width;
    let (a, b) = (page_fraction(x, width), page_fraction(y, width));
    let shift = thousandths * 1_000_000_000_000;
    let parts = thousandths * width;
    lemma_fraction_is_close(x, width);
    lemma_fraction_is_close(y, width);
    assert(shift * width == 1_000_000_000_000 * parts) by (nonlinear_arith)
        requires
            shift == thousandths * 1_000_000_000_000,
            parts == thousandths * width,
    ;
    assert((b + shift) * width == b * width + shift * width) by (nonlinear_arith);
    assert(a > b + shift ==> a * width >= (b + shift) * width + width) by (nonlinear_arith)
        requires
            width > 0,
    ;
    assert(a <= b + shift ==> a * width <= (b + shift) * width) by (nonlinear_arith)
        requires
            width > 0,
    ;
}

/// Closing a line leaves only sound lines behind.
pub proof fn closed_lines_are_sound(s: RecorderView)
    requires
        lines_are_sound(s),
    ensures
        lines_are_sound(flushed(s)),
{
    crate::text::trim_is_idempotent(s.cur_text);
    if let Some(x) = s.cur_x_start {
        lemma_fraction(x as int, s.page_width);
    }
}

/// Taking a character leaves only sound lines behind.
pub proof fn characters_keep_lines_sound(
    s: RecorderView,
    x: int,
    y: int,
    end: int,
    size: int,
    text: Seq<char>,
)
    requires
        lines_are_sound(s),
    ensures
        lines_are_sound(drawn(s, x, y, end, size, text)),
{
    closed_lines_are_sound(s);
}

/// The characters of a text other than white space.
pub open spec fn solid(s: Seq<char>) -> Seq<char>
    decreases s.len(),
{
    if s.len() == 0 {
        Seq::empty()
    } else if is_whitespace_char(s.last()) {
        solid(s.drop_last())
    } else {
        solid(s.drop_last()).push(s.last())
    }
}

/// The characters of some lines other than white space.
pub open spec fn solid_lines(lines: Seq<RunView>) -> Seq<char>
    decreases lines.len(),
{
    if lines.len() == 0 {
        Seq::empty()
    } else {
        solid_lines(lines.drop_last()) + solid(lines.last().text)
    }
}

/// All characters that a recorder has taken, other than white space.
pub open spec fn taken(s: RecorderView) -> Seq<char> {
    solid_lines(s.lines) + solid(s.cur_text)
}

proof fn lemma_solid_concat(a: Seq<char>, b: Seq<char>)
    ensures
        solid(a + b) == solid(a) + solid(b),
    decreases b.len(),
{
    if b.len() == 0 {
        assert(a + b == a);
        assert(solid(a) + solid(b) == solid(a));
    } else {
        assert((a + b).drop_last() == a + b.drop_last());
        lemma_solid_concat(a, b.drop_last());
        assert(solid(a + b) == solid(a) + solid(b));
    }
}

proof fn lemma_solid_trim_end(s: Seq<char>)
    ensures
        solid(crate::text::trim_end(s)) == solid(s),
    decreases s.len(),
{
    if s.len() > 0 && is_whitespace_char(s.last()) {
        lemma_solid_trim_end(s.drop_last());
    }
}

proof fn lemma_solid_trim_start(s: Seq<char>)
    ensures
        solid(crate::text::trim_start(s)) == solid(s),
    decreases s.len(),
{
    if s.len() > 0 && is_whitespace_char(s[0]) {
        let first = seq![s[0]];
        let rest = s.drop_first();
        assert(first + rest == s);
        lemma_solid_concat(first, rest);
        assert(first.drop_last() == Seq::<char>::empty());
        assert(solid(first.drop_last()) == Seq::<char>::empty());
        assert(first.last() == s[0]);
        assert(solid(first) == Seq::<char>::empty());
        assert(solid(s) == solid(rest));
        lemma_solid_trim_start(rest);
    }
}

/// Closing a line loses no character but white space.
pub proof fn closing_a_line_keeps_its_text(s: RecorderView)
    ensures
        taken(flushed(s)) == taken(s),
{
    lemma_solid_trim_start(s.cur_text);
    lemma_solid_trim_end(crate::text::trim_start(s.cur_text));
    let after = flushed(s);
    assert(solid(after.cur_text) == Seq::<char>::empty());
    if is_blank(s.cur_text) {
        assert(solid(trimmed(s.cur_text)) == Seq::<char>::empty());
    } else {
        assert(after.lines.drop_last() == s.lines);
    }
    assert(taken(after) == taken(s));
}

/// Characters are kept in the order in which they are drawn, and none but white space is lost.
pub proof fn characters_are_kept_in_order(
    s: RecorderView,
    x: int,
    y: int,
    end: int,
    size: int,
    text: Seq<char>,
)
    ensures
        taken(drawn(s, x, y, end, size, text)) == taken(s) + solid(text),
{
    closing_a_line_keeps_its_text(s);
    let t = if breaks_line(s, x, y, size) {
        flushed(s)
    } else {
        s
    };
    lemma_solid_concat(t.cur_text, text);
    assert(taken(drawn(s, x, y, end, size, text)) == taken(t) + solid(text));
}

/// A character that begins a word begins a line where it stands more than one and a half times
/// its size above or below the character before it, and also where it stands left of the end of
/// that character and more than half its size above or below it. No other character does, none
/// inside a word, and not the very first one. Where it begins a line, the open line is closed and
/// the text goes on with the character alone; elsewhere the character is added to the open line.
pub proof fn lines_break_at_jumps(
    s: RecorderView,
    x: int,
    y: int,
    end: int,
    size: int,
    text: Seq<char>,
)
    ensures
        ({
            let after = drawn(s, x, y, end, size, text);
            let is_far = 2 * (y - s.last_y) > 3 * size || 2 * (s.last_y - y) > 3 * size;
            let is_off = 2 * (y - s.last_y) > size || 2 * (s.last_y - y) > size;
            if s.first_char_of_word && s.any_output_yet && (is_far || (x < s.last_end
                && is_off)) {
                after.lines == flushed(s).lines && after.cur_text == text
            } else {
                after.lines == s.lines && after.cur_text == s.cur_text + text
            }
        }),
{
    assert(Seq::<char>::empty() + text == text);
}

/// A line that is closed has the trimmed text of its characters, the height of the first, and the
/// size that was measured, or one point where there was none. It starts at the leftmost
/// character, and where there was none, at the right edge. A blank one leaves nothing behind, and
/// either way the next line starts out empty.
pub proof fn a_closed_line_is_what_was_measured(s: RecorderView)
    ensures
        ({
            let after = flushed(s);
            &&& is_blank(s.cur_text) ==> after.lines == s.lines
            &&& !is_blank(s.cur_text) ==> {
                let line = after.lines.last();
                &&& after.lines.len() == s.lines.len() + 1
                &&& after.lines.drop_last() == s.lines
                &&& line.text == trimmed(s.cur_text)
                &&& line.y == s.cur_y
                &&& s.cur_font_size > 0 ==> line.font_size == s.cur_font_size
                &&& s.cur_font_size <= 0 ==> line.font_size == 1_000_000
                &&& s.cur_x_start matches Some(x) ==> line.x_start == page_fraction(
                    x as int,
                    s.page_width,
                )
                &&& s.cur_x_start is None ==> line.x_start == 1_000_000_000_000_000
            }
            &&& after.cur_text.len() == 0
            &&& after.cur_font_size == 0
            &&& after.cur_x_start is None
            &&& after.line_start
            &&& after.page_width == s.page_width
            &&& after.last_end == s.last_end
            &&& after.last_y == s.last_y
            &&& after.first_char_of_word == s.first_char_of_word
            &&& after.any_output_yet == s.any_output_yet
        }),
{
    let after = flushed(s);
    if !is_blank(s.cur_text) {
        assert(after.lines.drop_last() == s.lines);
    }
}

/// A position left of the page counts as its left edge, and one right of it as its right edge. A
/// page without a width counts as one point wide. Positions further right never count as less.
pub proof fn positions_stay_on_the_page(x: int, y: int, page_width: int)
    requires
        x <= y,
    ensures
        x <= 0 ==> page_fraction(x, page_width) == 0,
        page_width > 0 && x >= page_width ==> page_fraction(x, page_width)
            == 1_000_000_000_000_000,
        page_width <= 0 ==> page_fraction(x, page_width) == page_fraction(x, 1_000_000),
        page_fraction(x, page_width) <= page_fraction(y, page_width),
{
    let width = if page_width > 0 {
        page_width
    } else {
        UNIT as int
    };
    lemma_fraction(x, page_width);
    lemma_fraction(y, page_width);
    if 0 < x && y < width {
        assert((x * FULL_WIDTH + width - 1) / width <= (y * FULL_WIDTH + width - 1) / width)
            by (nonlinear_arith)
            requires
                x <= y,
                0 < width,
                FULL_WIDTH == 1_000_000_000_000_000,
        ;
    }
}

/// Taking a character into the open line, the line is as large as the largest of its characters,
/// starts at the leftmost one, and stands where the first one does. A line that begins with the
/// character has the character's own measures. The next character is compared with this one.
pub proof fn a_line_is_measured_by_its_characters(
    s: RecorderView,
    x: int,
    y: int,
    end: int,
    size: int,
    text: Seq<char>,
)
    requires
        i64::MIN <= x <= i64::MAX,
    ensures
        ({
            let after = drawn(s, x, y, end, size, text);
            let is_far = 2 * (y - s.last_y) > 3 * size || 2 * (s.last_y - y) > 3 * size;
            let is_off = 2 * (y - s.last_y) > size || 2 * (s.last_y - y) > size;
            let begins = s.first_char_of_word && s.any_output_yet && (is_far || (x < s.last_end
                && is_off));
            &&& after.cur_font_size >= size
            &&& begins ==> after.cur_x_start == Some(x as i64) && after.cur_y == y
            &&& begins && size >= 0 ==> after.cur_font_size == size
            &&& !begins ==> {
                &&& after.cur_font_size >= s.cur_font_size
                &&& after.cur_font_size == size || after.cur_font_size == s.cur_font_size
                &&& after.cur_x_start is Some
                &&& after.cur_x_start->0 <= x
                &&& after.cur_x_start->0 == x || after.cur_x_start == s.cur_x_start
                &&& s.cur_x_start matches Some(left) ==> after.cur_x_start->0 <= left
                &&& s.line_start ==> after.cur_y == y
                &&& !s.line_start ==> after.cur_y == s.cur_y
            }
            &&& after.last_y == y
            &&& after.last_end == end
            &&& after.page_width == s.page_width
            &&& !after.line_start
            &&& !after.first_char_of_word
            &&& after.any_output_yet
        }),
{
}

/// A page begins on a fresh line, far right of where anything can stand and at the top, and keeps
/// the lines before it. Between words nothing else changes.
pub proof fn a_page_begins_on_a_fresh_line(s: RecorderView, page_width: int)
    ensures
        ({
            let after = page_begun(s, page_width);
            &&& after.page_width == page_width
            &&& after.lines == s.lines
            &&& after.cur_text == s.cur_text
            &&& after.cur_x_start is None
            &&& after.line_start
            &&& after.last_end == 100_000_000_000
            &&& after.last_y == 0
        }),
{
}

// ---------------------------------------------------------------------------------------
// Flow
// ---------------------------------------------------------------------------------------

/// The lines and the pictures of a page, each with its distance from the top.
pub open spec fn page_events(lines: Seq<RunView>, images: Seq<(int, nat)>) -> Seq<
    (int, EventView),
> {
    lines.map_values(|r: RunView| (r.y, EventView::Line(r))) + images.map_values(
        |p: (int, nat)| (p.0, EventView::Image(p.1)),
    )
}

/// The distances of some events from the top.
pub open spec fn event_heights(events: Seq<(int, EventView)>) -> Seq<i128> {
    events.map_values(|e: (int, EventView)| e.0 as i128)
}

/// The events from the top of the page down. Those at one height keep their order.
pub open spec fn from_the_top(events: Seq<(int, EventView)>) -> Seq<(int, EventView)> {
    let order = ranked(event_heights(events));
    Seq::new(events.len(), |k: int| events[order[k].1 as int])
}

/// What is reported of a page.
pub open spec fn page_message(page_num: nat, lines: nat, images: nat) -> Seq<char> {
    "página "@ + decimal(page_num) + ": "@ + decimal(lines) + " linhas, "@ + decimal(images)
        + " imagens"@
}

/// The heights of all events fit the type that measures have.
pub open spec fn heights_fit(events: Seq<(int, EventView)>) -> bool {
    forall|i: int| 0 <= i < events.len() ==> i64::MIN <= (#[trigger] events[i]).0 <= i64::MAX
}

/// A page reads from the top down.
pub proof fn pages_read_from_the_top(events: Seq<(int, EventView)>, i: int, j: int)
    requires
        events.len() <= usize::MAX,
        heights_fit(events),
        0 <= i < j < events.len(),
    ensures
        from_the_top(events)[i].0 <= from_the_top(events)[j].0,
{
    let heights = event_heights(events);
    ranking_sorts(heights);
    let order = ranked(heights);
    assert(crate::order::before_or_same(order[i], order[j]));
    let (a, b) = (order[i].1 as int, order[j].1 as int);
    assert(heights[a] == events[a].0 as i128 && heights[b] == events[b].0 as i128);
    assert(i64::MIN <= events[a].0 <= i64::MAX && i64::MIN <= events[b].0 <= i64::MAX);
}

/// Putting the events in order loses none: each one stands at some place.
pub proof fn every_event_stands_on_its_page(events: Seq<(int, EventView)>, i: int)
    requires
        events.len() <= usize::MAX,
        0 <= i < events.len(),
    ensures
        exists|k: int|
            0 <= k < events.len() && (#[trigger] ranked(event_heights(events))[k]).1 == i
                && from_the_top(events)[k] == events[i],
{
    broadcast use vstd::seq_lib::group_to_multiset_ensures;

    let heights = event_heights(events);
    ranking_sorts(heights);
    let order = ranked(heights);
    let numbered = crate::order::numbered(heights);
    assert(numbered[i] == (heights[i], i as usize));
    assert(numbered.contains(numbered[i]));
    assert(order.to_multiset().contains(numbered[i]));
    assert(order.contains(numbered[i]));
    let k = choose|k: int| 0 <= k < order.len() && order[k] == numbered[i];
    assert(order[k].1 == i);
}

/// Putting the events in order makes none up: no event stands at two places, and of two at one
/// height the one that came first stands first.
pub proof fn no_event_stands_twice(events: Seq<(int, EventView)>, i: int, j: int)
    requires
        events.len() <= usize::MAX,
        heights_fit(events),
        0 <= i < j < events.len(),
    ensures
        ranked(event_heights(events))[i].1 != ranked(event_heights(events))[j].1,
        from_the_top(events)[i].0 == from_the_top(events)[j].0 ==> ranked(
            event_heights(events),
        )[i].1 < ranked(event_heights(events))[j].1,
{
    let heights = event_heights(events);
    ranking_sorts(heights);
    let order = ranked(heights);
    let numbered = crate::order::numbered(heights);
    assert(numbered.no_duplicates());
    numbered.lemma_multiset_has_no_duplicates();
    order.lemma_multiset_has_no_duplicates_conv();
    assert(order[i] != order[j]);
    let (a, b) = (order[i].1 as int, order[j].1 as int);
    assert(heights[a] == events[a].0 as i128 && heights[b] == events[b].0 as i128);
    assert(crate::order::before_or_same(order[i], order[j]));
    assert(i64::MIN <= events[a].0 <= i64::MAX && i64::MIN <= events[b].0 <= i64::MAX);
}

/// Every line of a page is an event at its own height, and every picture one at the height where
/// it was placed, the lines before the pictures.
pub proof fn lines_and_pictures_are_events(
    lines: Seq<RunView>,
    images: Seq<(int, nat)>,
    i: int,
    j: int,
)
    ensures
        page_events(lines, images).len() == lines.len() + images.len(),
        0 <= i < lines.len() ==> page_events(lines, images)[i].0 == lines[i].y && page_events(
            lines,
            images,
        )[i].1 == EventView::Line(lines[i]),
        0 <= j < images.len() ==> page_events(lines, images)[lines.len() + j].0 == images[j].0
            && page_events(lines, images)[lines.len() + j].1 == EventView::Image(images[j].1),
{
}

/// The events of a page are the same ones from the top down, each once, those at one height in
/// the order in which they came.
pub proof fn the_order_of_a_page_is_stable(events: Seq<(int, EventView)>)
    requires
        events.len() <= usize::MAX,
        heights_fit(events),
    ensures
        exists|order: Seq<int>|
            {
                &&& #[trigger] are_all_positions(order, events.len())
                &&& from_the_top(events).len() == events.len()
                &&& forall|k: int|
                    0 <= k < events.len() ==> from_the_top(events)[k] == events[#[trigger] order[k]]
                &&& forall|k: int, l: int|
                    0 <= k < l < events.len() ==> {
                        let (a, b) = (#[trigger] order[k], #[trigger] order[l]);
                        events[a].0 < events[b].0 || (events[a].0 == events[b].0 && a < b)
                    }
            },
{
    let heights = event_heights(events);
    ranking_is_a_stable_permutation(heights);
    let order = ranked(heights).map_values(|p: (i128, usize)| p.1 as int);
    ranking_sorts(heights);
    assert forall|k: int, l: int| 0 <= k < l < events.len() implies ({
        let (a, b) = (#[trigger] order[k], #[trigger] order[l]);
        events[a].0 < events[b].0 || (events[a].0 == events[b].0 && a < b)
    }) by {
        let (a, b) = (order[k], order[l]);
        assert(0 <= a < events.len() && 0 <= b < events.len());
        assert(heights[a] == events[a].0 as i128 && heights[b] == events[b].0 as i128);
        assert(i64::MIN <= events[a].0 <= i64::MAX && i64::MIN <= events[b].0 <= i64::MAX);
    }
    assert(are_all_positions(order, events.len()));
}

/// The contents of a list of placed pictures.
pub open spec fn placed_views(images: Seq<(i64, usize)>) -> Seq<(int, nat)> {
    images.map_values(|p: (i64, usize)| (p.0 as int, p.1 as nat))
}

fn report_page(page_num: u32, lines: usize, images: usize) -> (r: String)
    ensures
        r@ == page_message(page_num as nat, lines as nat, images as nat),
{
    let mut message: String = "página ".to_owned();
    push_decimal(&mut message, page_num as u128);
    message.append(": ");
    push_decimal(&mut message, lines as u128);
    message.append(" linhas, ");
    push_decimal(&mut message, images as u128);
    message.append(" imagens");
    message
}

/// Puts the lines and the pictures of a page in reading order, and reports how many there are.
pub fn finish_page(
    page_num: u32,
    lines: Vec<TextRun>,
    images: Vec<(i64, usize)>,
    log: &mut Vec<String>,
) -> (r: PageFlow)
    ensures
        r@.page_num == page_num,
        r@.events == from_the_top(page_events(run_views(lines@), placed_views(images@))),
        texts(final(log)@) == texts(old(log)@).push(
            page_message(page_num as nat, lines@.len(), images@.len()),
        ),
{
    let ghost said = log@;
    let ghost all = page_events(run_views(lines@), placed_views(images@));
    let message = report_page(page_num, lines.len(), images.len());
    let ghost words = message@;
    log.push(message);
    assert(texts(log@) == texts(said).push(words));

    let ghost event_view = |e: (i64, FlowEvent)| (e.0 as int, e.1@);
    let mut events: Vec<(i64, FlowEvent)> = Vec::new();
    let mut heights: Vec<i128> = Vec::new();
    for i in 0..lines.len()
        invariant
            all == page_events(run_views(lines@), placed_views(images@)),
            event_view == (|e: (i64, FlowEvent)| (e.0 as int, e.1@)),
            events@.map_values(event_view) == all.take(i as int),
            heights@ == event_heights(all).take(i as int),
    {
        let ghost before = events@;
        let y: i64 = lines[i].y;
        events.push((y, FlowEvent::Line(lines[i].clone())));
        heights.push(y as i128);
        assert(all[i as int] == (y as int, EventView::Line(lines@[i as int]@)));
        assert(events@.map_values(event_view) == before.map_values(event_view).push(
            all[i as int],
        ));
        assert(all.take(i + 1) == all.take(i as int).push(all[i as int]));
        assert(event_heights(all).take(i + 1) == event_heights(all).take(i as int).push(y as i128));
    }
    for i in 0..images.len()
        invariant
            all == page_events(run_views(lines@), placed_views(images@)),
            event_view == (|e: (i64, FlowEvent)| (e.0 as int, e.1@)),
            events@.map_values(event_view) == all.take(lines@.len() + i),
            heights@ == event_heights(all).take(lines@.len() + i),
    {
        let ghost before = events@;
        let ghost at = lines@.len() + i;
        let (y, image) = images[i];
        events.push((y, FlowEvent::Image(image)));
        heights.push(y as i128);
        assert(all[at] == (y as int, EventView::Image(image as nat)));
        assert(events@.map_values(event_view) == before.map_values(event_view).push(all[at]));
        assert(all.take(at + 1) == all.take(at).push(all[at]));
        assert(event_heights(all).take(at + 1) == event_heights(all).take(at).push(y as i128));
    }
    assert(all.take(all.len() as int) == all);
    assert(event_heights(all).take(all.len() as int) == event_heights(all));

    let count: usize = heights.len();
    let order = rank(&heights);
    proof {
        ranking_sorts(heights@);
    }
    let mut flow: Vec<(i64, FlowEvent)> = Vec::new();
    for k in 0..count
        invariant
            event_view == (|e: (i64, FlowEvent)| (e.0 as int, e.1@)),
            events@.map_values(event_view) == all,
            order@ == ranked(event_heights(all)),
            order@.len() == all.len(),
            count == all.len(),
            forall|i: int| 0 <= i < order@.len() ==> (#[trigger] order@[i]).1 < all.len(),
            flow@.map_values(event_view) == from_the_top(all).take(k as int),
    {
        let ghost before = flow@;
        let at: usize = order[k].1;
        assert(order@[k as int].1 < all.len());
        assert(all.len() == events@.len());
        let event = (events[at].0, events[at].1.clone());
        let ghost view = event_view(event);
        assert(all[at as int] == event_view(events@[at as int]));
        flow.push(event);
        assert(flow@.map_values(event_view) == before.map_values(event_view).push(view));
        assert(from_the_top(all)[k as int] == all[at as int]);
        assert(from_the_top(all).take(k + 1) == from_the_top(all).take(k as int).push(
            all[at as int],
        ));
    }
    assert(from_the_top(all).take(all.len() as int) == from_the_top(all));
    PageFlow { page_num, events: flow }
}

} // verus!
