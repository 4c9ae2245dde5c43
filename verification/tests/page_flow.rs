use pdf_to_epub::flow::{finish_page, FlowRecorder};
use pdf_to_epub::pdf_model::{FlowEvent, TextRun};

const POINT: i64 = 1_000_000;

/// Shows a word of letters ten points wide, from a place of the page on.
fn write(recorder: &mut FlowRecorder, text: &str, x: i64, y: i64, size: i64) {
    recorder.begin_word();
    for (i, c) in text.chars().enumerate() {
        let at = (x + 10 * i as i64) * POINT;
        recorder.output_character(at, y * POINT, at + 10 * POINT, size * POINT, &c.to_string());
    }
}

fn recorded(words: &[(&str, i64, i64, i64)]) -> Vec<TextRun> {
    let mut recorder = FlowRecorder::default();
    recorder.begin_page(1000 * POINT);
    for (text, x, y, size) in words {
        write(&mut recorder, text, *x, *y, *size);
    }
    recorder.end_page();
    recorder.lines
}

fn texts(lines: &[TextRun]) -> Vec<&str> {
    lines.iter().map(|l| l.text.as_str()).collect()
}

#[test]
fn words_on_one_height_make_up_one_line() {
    let lines = recorded(&[("Uma ", 100, 50, 10), ("linha", 140, 50, 12)]);
    assert_eq!(texts(&lines), vec!["Uma linha"]);
    assert_eq!(lines[0].y, 50 * POINT);
    assert_eq!(lines[0].font_size, 12 * POINT);
    assert_eq!(lines[0].x_start, 100_000_000_000_000);
}

#[test]
fn a_jump_of_more_than_a_line_and_a_half_starts_a_new_one() {
    assert_eq!(texts(&recorded(&[("a", 0, 50, 10), ("b", 500, 65, 10)])), vec!["ab"]);
    assert_eq!(texts(&recorded(&[("a", 0, 50, 10), ("b", 500, 66, 10)])), vec!["a", "b"]);
    assert_eq!(texts(&recorded(&[("a", 0, 50, 10), ("b", 500, 34, 10)])), vec!["a", "b"]);
}

#[test]
fn a_step_back_to_the_left_needs_only_half_a_line() {
    assert_eq!(texts(&recorded(&[("ab", 0, 50, 10), ("c", 5, 55, 10)])), vec!["abc"]);
    assert_eq!(texts(&recorded(&[("ab", 0, 50, 10), ("c", 5, 56, 10)])), vec!["ab", "c"]);
    assert_eq!(texts(&recorded(&[("ab", 0, 50, 10), ("c", 20, 56, 10)])), vec!["abc"]);
}

#[test]
fn lines_only_break_between_words() {
    let mut recorder = FlowRecorder::default();
    recorder.begin_page(1000 * POINT);
    recorder.begin_word();
    recorder.output_character(0, 0, POINT, POINT, "a");
    recorder.output_character(0, 500 * POINT, POINT, POINT, "b");
    recorder.end_page();
    assert_eq!(texts(&recorder.lines), vec!["ab"]);
}

#[test]
fn blank_lines_are_not_kept_and_text_is_trimmed() {
    let lines = recorded(&[("  ", 0, 10, 10), (" um ", 0, 50, 10), (" ", 0, 90, 10)]);
    assert_eq!(texts(&lines), vec!["um"]);
}

#[test]
fn a_line_of_no_size_counts_as_one_point_and_positions_stay_on_the_page() {
    let lines = recorded(&[("a", -30, 10, 0)]);
    assert_eq!((lines[0].font_size, lines[0].x_start), (POINT, 0));
    let lines = recorded(&[("a", 5000, 10, 10)]);
    assert_eq!(lines[0].x_start, 1_000_000_000_000_000);

    let mut recorder = FlowRecorder::default();
    recorder.begin_page(0);
    recorder.begin_word();
    recorder.output_character(POINT / 4, 0, POINT, POINT, "a");
    recorder.end_page();
    assert_eq!(recorder.lines[0].x_start, 250_000_000_000_000);
}

fn line(text: &str, y: i64) -> TextRun {
    TextRun { text: text.to_string(), y, font_size: POINT, x_start: 0 }
}

#[test]
fn lines_and_pictures_are_put_in_the_order_of_the_page() {
    let mut log = Vec::new();
    let page = finish_page(
        7,
        vec![line("b", 20), line("a", 10), line("c", 30)],
        vec![(20, 4), (-5, 3)],
        &mut log,
    );
    let seen: Vec<String> = page
        .events
        .iter()
        .map(|(y, e)| match e {
            FlowEvent::Line(run) => format!("{y}:{}", run.text),
            FlowEvent::Image(i) => format!("{y}:#{i}"),
        })
        .collect();
    assert_eq!(page.page_num, 7);
    assert_eq!(seen, vec!["-5:#3", "10:a", "20:b", "20:#4", "30:c"]);
    assert_eq!(log, vec!["página 7: 3 linhas, 2 imagens"]);
}

#[test]
fn a_page_with_nothing_on_it_is_kept() {
    let mut log = Vec::new();
    let page = finish_page(1, vec![], vec![], &mut log);
    assert!(page.events.is_empty());
    assert_eq!(log, vec!["página 1: 0 linhas, 0 imagens"]);
}

#[test]
fn a_start_just_beyond_a_mark_counts_as_beyond_it() {
    let start = |x: i64, width: i64| {
        let mut recorder = FlowRecorder::default();
        recorder.begin_page(width);
        recorder.begin_word();
        recorder.output_character(x, 0, x + 1, POINT, "a");
        recorder.end_page();
        recorder.lines[0].x_start
    };
    assert_eq!(start(270 * POINT, 600 * POINT), 450_000_000_000_000);
    assert!(start(270 * POINT + 1, 600 * POINT) > 450_000_000_000_000);
    assert_eq!(start(1, 3), 333_333_333_333_334);
}
