//! The screens of the terminal interface and what keys do on them.
use std::collections::VecDeque;

use vstd::prelude::*;

use crate::cli::{language_or_default, starting_language};
use crate::text::{decimal, joined, optional, push_decimal, stands_in, texts, trimmed};

verus! {

/// A key that was pressed.
#[derive(Debug, Clone, Copy, PartialEq, Eq, Structural)]
pub enum Key {
    Enter,
    Backspace,
    Esc,
    Tab,
    BackTab,
    Char(char),
    Other,
}

/// What a conversion reports while it runs.
#[derive(Debug)]
pub enum ProgressMsg {
    Stage(String),
    Log(String),
    Done(Outcome),
    Error(String),
}

/// What a conversion produced.
#[derive(Debug)]
pub struct Outcome {
    pub epub_path: String,
    pub preview_path: String,
    pub chapter_count: usize,
    pub image_count: usize,
}

/// How many lines of the log are kept.
pub const LOG_LIMIT: usize = 500;

/// The fields of the screen on which the metadata is confirmed, from the first to the last.
pub const FIELDS: usize = 4;

#[derive(Debug)]
pub enum Screen {
    Input {
        path: String,
        /// Carried over from `--cover`, so that it is filled in on the next screen.
        cover: String,
    },
    Confirm {
        path: String,
        title: String,
        author: String,
        lang: String,
        /// Empty where the cover is to be detected.
        cover: String,
        field: usize,
    },
    Progress { stage: String, logs: VecDeque<String>, done: Option<Result<Outcome, String>> },
}

/// What is to be done about a key, besides what it changes on the screen.
#[derive(Debug)]
pub enum Action {
    Nothing,
    Quit,
    /// Look for a file, and confirm its metadata if it is there.
    OpenPdf(String),
    /// Convert a file.
    Convert { path: String, title: String, author: String, lang: String, cover: String },
    /// Show a preview.
    ShowPreview(String),
    /// Show the directory that a file is in.
    ShowFolder(String),
}

#[verifier::ext_equal]
pub ghost struct OutcomeView {
    pub epub_path: Seq<char>,
    pub preview_path: Seq<char>,
    pub chapter_count: nat,
    pub image_count: nat,
}

#[verifier::ext_equal]
pub ghost enum ScreenView {
    Input { path: Seq<char>, cover: Seq<char> },
    Confirm {
        path: Seq<char>,
        title: Seq<char>,
        author: Seq<char>,
        lang: Seq<char>,
        cover: Seq<char>,
        field: nat,
    },
    Progress {
        stage: Seq<char>,
        logs: Seq<Seq<char>>,
        done: Option<Result<OutcomeView, Seq<char>>>,
    },
}

#[verifier::ext_equal]
pub ghost enum ActionView {
    Nothing,
    Quit,
    OpenPdf(Seq<char>),
    Convert {
        path: Seq<char>,
        title: Seq<char>,
        author: Seq<char>,
        lang: Seq<char>,
        cover: Seq<char>,
    },
    ShowPreview(Seq<char>),
    ShowFolder(Seq<char>),
}

impl View for Outcome {
    type V = OutcomeView;

    open spec fn view(&self) -> OutcomeView {
        OutcomeView {
            epub_path: self.epub_path@,
            preview_path: self.preview_path@,
            chapter_count: self.chapter_count as nat,
            image_count: self.image_count as nat,
        }
    }
}

/// The content of a result.
pub open spec fn done_view(done: Option<Result<Outcome, String>>) -> Option<
    Result<OutcomeView, Seq<char>>,
> {
    match done {
        Some(Ok(outcome)) => Some(Ok(outcome@)),
        Some(Err(e)) => Some(Err(e@)),
        None => None,
    }
}

impl View for Screen {
    type V = ScreenView;

    open spec fn view(&self) -> ScreenView {
        match self {
            Screen::Input { path, cover } => ScreenView::Input { path: path@, cover: cover@ },
            Screen::Confirm { path, title, author, lang, cover, field } => ScreenView::Confirm {
                path: path@,
                title: title@,
                author: author@,
                lang: lang@,
                cover: cover@,
                field: *field as nat,
            },
            Screen::Progress { stage, logs, done } => ScreenView::Progress {
                stage: stage@,
                logs: texts(logs@),
                done: done_view(*done),
            },
        }
    }
}

impl View for Action {
    type V = ActionView;

    open spec fn view(&self) -> ActionView {
        match self {
            Action::Nothing => ActionView::Nothing,
            Action::Quit => ActionView::Quit,
            Action::OpenPdf(path) => ActionView::OpenPdf(path@),
            Action::Convert { path, title, author, lang, cover } => ActionView::Convert {
                path: path@,
                title: title@,
                author: author@,
                lang: lang@,
                cover: cover@,
            },
            Action::ShowPreview(path) => ActionView::ShowPreview(path@),
            Action::ShowFolder(path) => ActionView::ShowFolder(path@),
        }
    }
}

impl ScreenView {
    /// The field is one of the fields, and the log is not too long.
    pub open spec fn wf(self) -> bool {
        match self {
            ScreenView::Input { .. } => true,
            ScreenView::Confirm { field, .. } => field < FIELDS,
            ScreenView::Progress { logs, .. } => logs.len() <= LOG_LIMIT,
        }
    }
}

/// A text with its last character gone.
pub open spec fn shortened(s: Seq<char>) -> Seq<char> {
    if s.len() == 0 {
        s
    } else {
        s.drop_last()
    }
}

/// A text that a key was typed into.
pub open spec fn typed(s: Seq<char>, key: Key) -> Seq<char> {
    match key {
        Key::Char(c) => s.push(c),
        Key::Backspace => shortened(s),
        _ => s,
    }
}

/// The text of one field, given the field that a key is typed into.
pub open spec fn typed_field(s: Seq<char>, field: nat, active: nat, key: Key) -> Seq<char> {
    if field == active {
        typed(s, key)
    } else {
        s
    }
}

/// The field that is active after a key.
pub open spec fn next_field(field: nat, key: Key) -> nat {
    match key {
        Key::Tab => (field + 1) % (FIELDS as nat),
        Key::BackTab => (field + 3) % (FIELDS as nat),
        _ => field,
    }
}

/// The field that letters go to: past the third, it is the last one.
pub open spec fn typing_field(field: nat) -> nat {
    if field < 3 {
        field
    } else {
        3
    }
}

/// What a key does on the screen where the path is typed. A blank path is not looked for.
pub open spec fn input_key(path: Seq<char>, cover: Seq<char>, key: Key) -> (
    ScreenView,
    ActionView,
) {
    let screen = ScreenView::Input { path: typed(path, key), cover };
    match key {
        Key::Enter => if trimmed(path).len() == 0 {
            (screen, ActionView::Nothing)
        } else {
            (screen, ActionView::OpenPdf(trimmed(path)))
        },
        Key::Esc => (screen, ActionView::Quit),
        _ => (screen, ActionView::Nothing),
    }
}

/// What a key does on the screen where a conversion runs.
pub open spec fn progress_key(
    screen: ScreenView,
    done: Option<Result<OutcomeView, Seq<char>>>,
    key: Key,
) -> (ScreenView, ActionView) {
    match key {
        Key::Esc => (screen, ActionView::Quit),
        Key::Char(c) => if c == 'q' {
            (screen, ActionView::Quit)
        } else if c == 'p' {
            match done {
                Some(Ok(outcome)) => (screen, ActionView::ShowPreview(outcome.preview_path)),
                _ => (screen, ActionView::Nothing),
            }
        } else if c == 'o' {
            match done {
                Some(Ok(outcome)) => (screen, ActionView::ShowFolder(outcome.epub_path)),
                _ => (screen, ActionView::Nothing),
            }
        } else if c == 'n' {
            (
                ScreenView::Input { path: Seq::empty(), cover: Seq::empty() },
                ActionView::Nothing,
            )
        } else {
            (screen, ActionView::Nothing)
        },
        _ => (screen, ActionView::Nothing),
    }
}

/// What a key does: the screen that it leads to, and what is to be done.
pub open spec fn key_effect(screen: ScreenView, key: Key) -> (ScreenView, ActionView) {
    match screen {
        ScreenView::Input { path, cover } => input_key(path, cover, key),
        ScreenView::Confirm { path, title, author, lang, cover, field } => {
            let active = typing_field(field);
            match key {
                Key::Enter => (
                    ScreenView::Progress {
                        stage: "Iniciando"@,
                        logs: Seq::empty(),
                        done: None,
                    },
                    ActionView::Convert { path, title, author, lang, cover: trimmed(cover) },
                ),
                _ => (
                    ScreenView::Confirm {
                        path,
                        title: typed_field(title, 0, active, key),
                        author: typed_field(author, 1, active, key),
                        lang: typed_field(lang, 2, active, key),
                        cover: typed_field(cover, 3, active, key),
                        field: next_field(field, key),
                    },
                    if key is Esc {
                        ActionView::Quit
                    } else {
                        ActionView::Nothing
                    },
                ),
            }
        },
        ScreenView::Progress { stage, logs, done } => progress_key(screen, done, key),
    }
}

fn type_into(text: &mut String, key: Key)
    ensures
        final(text)@ == typed(old(text)@, key),
{
    match key {
        Key::Char(c) => {
            text.push(c);
        },
        Key::Backspace => {
            let _ = text.pop();
        },
        _ => {},
    }
}

fn press_on_input(path: String, cover: String, key: Key) -> (r: (Screen, Action))
    ensures
        (r.0@, r.1@) == input_key(path@, cover@, key),
{
    let mut path = path;
    let action = match key {
        Key::Enter => {
            let wanted: String = path.as_str().trim().to_owned();
            if wanted.as_str().is_empty() {
                Action::Nothing
            } else {
                Action::OpenPdf(wanted)
            }
        },
        Key::Esc => Action::Quit,
        _ => Action::Nothing,
    };
    type_into(&mut path, key);
    (Screen::Input { path, cover }, action)
}

fn press_on_progress(
    stage: String,
    logs: VecDeque<String>,
    done: Option<Result<Outcome, String>>,
    key: Key,
) -> (r: (Screen, Action))
    ensures
        (r.0@, r.1@) == progress_key(
            ScreenView::Progress { stage: stage@, logs: texts(logs@), done: done_view(done) },
            done_view(done),
            key,
        ),
{
    let action = match key {
        Key::Esc => Action::Quit,
        Key::Char(c) => if c == 'q' {
            Action::Quit
        } else if c == 'p' {
            match &done {
                Some(Ok(outcome)) => Action::ShowPreview(outcome.preview_path.clone()),
                _ => Action::Nothing,
            }
        } else if c == 'o' {
            match &done {
                Some(Ok(outcome)) => Action::ShowFolder(outcome.epub_path.clone()),
                _ => Action::Nothing,
            }
        } else if c == 'n' {
            return (Screen::Input { path: String::new(), cover: String::new() }, Action::Nothing);
        } else {
            Action::Nothing
        },
        _ => Action::Nothing,
    };
    (Screen::Progress { stage, logs, done }, action)
}

/// Answers a key: see `key_effect`.
pub fn handle_key(screen: Screen, key: Key) -> (r: (Screen, Action))
    requires
        screen@.wf(),
    ensures
        (r.0@, r.1@) == key_effect(screen@, key),
        r.0@.wf(),
{
    match screen {
        Screen::Input { path, cover } => press_on_input(path, cover, key),
        Screen::Confirm { path, title, author, lang, cover, field } => {
            let mut title = title;
            let mut author = author;
            let mut lang = lang;
            let mut cover = cover;
            let mut field: usize = field;
            let mut action = Action::Nothing;
            match key {
                Key::Enter => {
                    let art: String = cover.as_str().trim().to_owned();
                    let logs: VecDeque<String> = VecDeque::new();
                    assert(texts(logs@) == Seq::<Seq<char>>::empty());
                    return (
                        Screen::Progress { stage: "Iniciando".to_owned(), logs, done: None },
                        Action::Convert { path, title, author, lang, cover: art },
                    );
                },
                Key::Tab => {
                    field = (field + 1) % FIELDS;
                },
                Key::BackTab => {
                    field = (field + 3) % FIELDS;
                },
                Key::Esc => {
                    action = Action::Quit;
                },
                _ => {
                    if field == 0 {
                        type_into(&mut title, key);
                    } else if field == 1 {
                        type_into(&mut author, key);
                    } else if field == 2 {
                        type_into(&mut lang, key);
                    } else {
                        type_into(&mut cover, key);
                    }
                },
            }
            (Screen::Confirm { path, title, author, lang, cover, field }, action)
        },
        Screen::Progress { stage, logs, done } => press_on_progress(stage, logs, done, key),
    }
}

/// The screen that comes up first.
pub fn first_screen(initial_path: Option<String>, initial_cover: Option<String>) -> (r: Screen)
    ensures
        r@ == (ScreenView::Input {
            path: match initial_path {
                Some(path) => path@,
                None => Seq::empty(),
            },
            cover: match initial_cover {
                Some(cover) => cover@,
                None => Seq::empty(),
            },
        }),
{
    Screen::Input {
        path: match initial_path {
            Some(path) => path,
            None => String::new(),
        },
        cover: match initial_cover {
            Some(cover) => cover,
            None => String::new(),
        },
    }
}

/// The screen that follows once a file was found: its metadata is to be confirmed. The language
/// is the one that was found in the file, or else the one to start from. On any other screen
/// nothing happens.
pub fn pdf_opened(
    screen: Screen,
    path: String,
    title: String,
    author: String,
    language: Option<String>,
) -> (r: Screen)
    ensures
        r@ == (match screen@ {
            ScreenView::Input { path: _, cover } => ScreenView::Confirm {
                path: path@,
                title: title@,
                author: author@,
                lang: language_or_default(optional(language)),
                cover,
                field: 0,
            },
            other => other,
        }),
        screen@.wf() ==> r@.wf(),
{
    match screen {
        Screen::Input { path: _, cover } => Screen::Confirm {
            path,
            title,
            author,
            lang: starting_language(language),
            cover,
            field: 0,
        },
        other => other,
    }
}

/// The log with one more line. The oldest line gives way where the log is full.
pub open spec fn logged(logs: Seq<Seq<char>>, line: Seq<char>) -> Seq<Seq<char>> {
    let all = logs.push(line);
    if all.len() > LOG_LIMIT {
        all.drop_first()
    } else {
        all
    }
}

#[verifier::ext_equal]
pub ghost enum MessageView {
    Stage(Seq<char>),
    Log(Seq<char>),
    Done(OutcomeView),
    Error(Seq<char>),
}

impl View for ProgressMsg {
    type V = MessageView;

    open spec fn view(&self) -> MessageView {
        match self {
            ProgressMsg::Stage(s) => MessageView::Stage(s@),
            ProgressMsg::Log(s) => MessageView::Log(s@),
            ProgressMsg::Done(outcome) => MessageView::Done(outcome@),
            ProgressMsg::Error(e) => MessageView::Error(e@),
        }
    }
}

/// What a report of the conversion changes on the screen.
pub open spec fn report_effect(screen: ScreenView, msg: MessageView) -> ScreenView {
    match screen {
        ScreenView::Progress { stage, logs, done } => match msg {
            MessageView::Stage(s) => ScreenView::Progress { stage: s, logs, done },
            MessageView::Log(s) => ScreenView::Progress { stage, logs: logged(logs, s), done },
            MessageView::Done(outcome) => ScreenView::Progress {
                stage,
                logs,
                done: Some(Ok(outcome)),
            },
            MessageView::Error(e) => ScreenView::Progress { stage, logs, done: Some(Err(e)) },
        },
        other => other,
    }
}

/// Takes a report of the conversion: see `report_effect`.
pub fn take_report(screen: Screen, msg: ProgressMsg) -> (r: Screen)
    requires
        screen@.wf(),
    ensures
        r@ == report_effect(screen@, msg@),
        r@.wf(),
{
    match screen {
        Screen::Progress { stage, logs, done } => match msg {
            ProgressMsg::Stage(s) => Screen::Progress { stage: s, logs, done },
            ProgressMsg::Log(s) => {
                let mut logs = logs;
                let ghost before = logs@;
                let ghost line = s@;
                assert(texts(before).len() == before.len());
                logs.push_back(s);
                assert(texts(logs@) == texts(before).push(line));
                if logs.len() > LOG_LIMIT {
                    let ghost full = logs@;
                    let _ = logs.pop_front();
                    assert(texts(logs@) == texts(full).drop_first());
                }
                Screen::Progress { stage, logs, done }
            },
            ProgressMsg::Done(outcome) => Screen::Progress { stage, logs, done: Some(Ok(outcome)) },
            ProgressMsg::Error(e) => Screen::Progress { stage, logs, done: Some(Err(e)) },
        },
        other => other,
    }
}

// ---------------------------------------------------------------------------------------
// What holds on every screen
// ---------------------------------------------------------------------------------------

/// Going forward a field and back again ends where it began, and so does the other way round.
pub proof fn tab_and_back_tab_undo_each_other(field: nat)
    requires
        field < FIELDS,
    ensures
        next_field(next_field(field, Key::Tab), Key::BackTab) == field,
        next_field(next_field(field, Key::BackTab), Key::Tab) == field,
        next_field(field, Key::Tab) < FIELDS,
        next_field(field, Key::BackTab) < FIELDS,
{
}

/// Taking back a letter that was just typed leaves every field as it was.
pub proof fn backspace_takes_back_a_letter(screen: ScreenView, c: char)
    requires
        screen !is Progress,
    ensures
        key_effect(key_effect(screen, Key::Char(c)).0, Key::Backspace).0 == screen,
{
    match screen {
        ScreenView::Input { path, cover } => {
            assert(path.push(c).drop_last() == path);
        },
        ScreenView::Confirm { path, title, author, lang, cover, field } => {
            assert(title.push(c).drop_last() == title);
            assert(author.push(c).drop_last() == author);
            assert(lang.push(c).drop_last() == lang);
            assert(cover.push(c).drop_last() == cover);
        },
        ScreenView::Progress { .. } => {},
    }
}

/// The program can be left from every screen.
pub proof fn escape_always_quits(screen: ScreenView)
    ensures
        key_effect(screen, Key::Esc).1 == ActionView::Quit,
{
}

/// The log always ends in the latest line, never grows beyond its limit, and loses nothing but
/// its oldest line.
pub proof fn the_log_keeps_the_latest_lines(logs: Seq<Seq<char>>, line: Seq<char>)
    requires
        logs.len() <= LOG_LIMIT,
    ensures
        logged(logs, line).len() <= LOG_LIMIT,
        logged(logs, line).last() == line,
        logged(logs, line).drop_last() == logs || logged(logs, line).drop_last()
            == logs.drop_first(),
        logs.len() < LOG_LIMIT ==> logged(logs, line) == logs.push(line),
{
    let all = logs.push(line);
    assert(all.drop_last() == logs);
    if all.len() > LOG_LIMIT {
        assert(all.drop_first().drop_last() == logs.drop_first());
    }
}

/// A letter goes to the field that is active and to no other, and nothing else changes.
pub proof fn letters_go_to_the_active_field(
    path: Seq<char>,
    title: Seq<char>,
    author: Seq<char>,
    lang: Seq<char>,
    cover: Seq<char>,
    field: nat,
    c: char,
)
    requires
        field < 4,
    ensures
        key_effect(ScreenView::Input { path, cover }, Key::Char(c)) == (
            ScreenView::Input { path: path.push(c), cover },
            ActionView::Nothing,
        ),
        key_effect(
            ScreenView::Confirm { path, title, author, lang, cover, field },
            Key::Char(c),
        ) == (
            if field == 0 {
                ScreenView::Confirm { path, title: title.push(c), author, lang, cover, field }
            } else if field == 1 {
                ScreenView::Confirm { path, title, author: author.push(c), lang, cover, field }
            } else if field == 2 {
                ScreenView::Confirm { path, title, author, lang: lang.push(c), cover, field }
            } else {
                ScreenView::Confirm { path, title, author, lang, cover: cover.push(c), field }
            },
            ActionView::Nothing,
        ),
{
}

/// On an empty field there is nothing to take back.
pub proof fn backspace_leaves_empty_fields_alone(cover: Seq<char>)
    ensures
        key_effect(
            ScreenView::Input { path: Seq::empty(), cover },
            Key::Backspace,
        ) == (ScreenView::Input { path: Seq::empty(), cover }, ActionView::Nothing),
{
}

/// A tab leads from each field to the next one, from the title over the author and the language
/// to the cover and back to the title, and a back tab the other way round. No text changes.
pub proof fn tabs_go_round_the_fields(
    path: Seq<char>,
    title: Seq<char>,
    author: Seq<char>,
    lang: Seq<char>,
    cover: Seq<char>,
    field: nat,
)
    requires
        field < 4,
    ensures
        key_effect(ScreenView::Confirm { path, title, author, lang, cover, field }, Key::Tab) == (
            ScreenView::Confirm {
                path,
                title,
                author,
                lang,
                cover,
                field: if field == 3 {
                    0
                } else {
                    field + 1
                },
            },
            ActionView::Nothing,
        ),
        key_effect(
            ScreenView::Confirm { path, title, author, lang, cover, field },
            Key::BackTab,
        ) == (
            ScreenView::Confirm {
                path,
                title,
                author,
                lang,
                cover,
                field: if field == 0 {
                    3
                } else {
                    (field - 1) as nat
                },
            },
            ActionView::Nothing,
        ),
{
}

/// A key without a meaning changes nothing, and leaving keeps the screen as it is.
pub proof fn other_keys_do_nothing(screen: ScreenView)
    ensures
        key_effect(screen, Key::Other) == (screen, ActionView::Nothing),
        key_effect(screen, Key::Esc).0 == screen,
{
}

/// Entering a path has that path looked for, without the white space around it. A blank one is
/// not looked for. Either way the screen stays.
pub proof fn entering_a_path_opens_it(path: Seq<char>, cover: Seq<char>)
    ensures
        key_effect(ScreenView::Input { path, cover }, Key::Enter).0 == (ScreenView::Input {
            path,
            cover,
        }),
        trimmed(path).len() > 0 ==> key_effect(
            ScreenView::Input { path, cover },
            Key::Enter,
        ).1 == ActionView::OpenPdf(trimmed(path)),
        trimmed(path).len() == 0 ==> key_effect(
            ScreenView::Input { path, cover },
            Key::Enter,
        ).1 == ActionView::Nothing,
{
}

/// Confirming starts the conversion of that file with the metadata as it stands on the screen,
/// whichever field is active, on a screen that reports nothing yet.
pub proof fn confirming_converts_what_is_shown(
    path: Seq<char>,
    title: Seq<char>,
    author: Seq<char>,
    lang: Seq<char>,
    cover: Seq<char>,
    field: nat,
)
    ensures
        ({
            let (screen, action) = key_effect(
                ScreenView::Confirm { path, title, author, lang, cover, field },
                Key::Enter,
            );
            &&& action == (ActionView::Convert {
                path,
                title,
                author,
                lang,
                cover: trimmed(cover),
            })
            &&& screen matches ScreenView::Progress { stage, logs, done } && logs.len() == 0
                && done is None
        }),
{
}

/// While a conversion runs and once it is done, `q` leaves, `n` begins anew, and once it went
/// well `p` shows its preview and `o` the folder of its book. No other letter does anything, and
/// none but `n` changes the screen.
pub proof fn letters_act_while_converting(
    stage: Seq<char>,
    logs: Seq<Seq<char>>,
    done: Option<Result<OutcomeView, Seq<char>>>,
    c: char,
)
    ensures
        ({
            let screen = ScreenView::Progress { stage, logs, done };
            let (next, action) = key_effect(screen, Key::Char(c));
            &&& c != 'n' ==> next == screen
            &&& c == 'n' ==> action == ActionView::Nothing && (next matches ScreenView::Input {
                path,
                cover,
            } && path.len() == 0 && cover.len() == 0)
            &&& c == 'q' ==> action == ActionView::Quit
            &&& c == 'p' ==> match done {
                Some(Ok(outcome)) => action == ActionView::ShowPreview(outcome.preview_path),
                _ => action == ActionView::Nothing,
            }
            &&& c == 'o' ==> match done {
                Some(Ok(outcome)) => action == ActionView::ShowFolder(outcome.epub_path),
                _ => action == ActionView::Nothing,
            }
            &&& c != 'q' && c != 'p' && c != 'o' && c != 'n' ==> action == ActionView::Nothing
            &&& key_effect(screen, Key::Enter) == (screen, ActionView::Nothing)
            &&& key_effect(screen, Key::Backspace) == (screen, ActionView::Nothing)
            &&& key_effect(screen, Key::Tab) == (screen, ActionView::Nothing)
            &&& key_effect(screen, Key::BackTab) == (screen, ActionView::Nothing)
        }),
{
}

/// A report changes the one thing that it is about: the step, the log or the result. Screens on
/// which nothing is converted stay as they are.
pub proof fn a_report_changes_one_thing(
    screen: ScreenView,
    stage: Seq<char>,
    logs: Seq<Seq<char>>,
    done: Option<Result<OutcomeView, Seq<char>>>,
    msg: MessageView,
)
    requires
        logs.len() < 500,
    ensures
        screen !is Progress ==> report_effect(screen, msg) == screen,
        ({
            let after = report_effect(ScreenView::Progress { stage, logs, done }, msg);
            match msg {
                MessageView::Stage(s) => after == (ScreenView::Progress { stage: s, logs, done }),
                MessageView::Log(s) => after == (ScreenView::Progress {
                    stage,
                    logs: logs.push(s),
                    done,
                }),
                MessageView::Done(outcome) => after == (ScreenView::Progress {
                    stage,
                    logs,
                    done: Some(Ok(outcome)),
                }),
                MessageView::Error(e) => after == (ScreenView::Progress {
                    stage,
                    logs,
                    done: Some(Err(e)),
                }),
            }
        }),
{
}

/// Once there are 500 lines in the log, each new one takes the place of the oldest.
pub proof fn a_full_log_drops_its_oldest_line(
    stage: Seq<char>,
    logs: Seq<Seq<char>>,
    done: Option<Result<OutcomeView, Seq<char>>>,
    line: Seq<char>,
)
    requires
        logs.len() == 500,
    ensures
        report_effect(
            ScreenView::Progress { stage, logs, done },
            MessageView::Log(line),
        ) == (ScreenView::Progress { stage, logs: logs.skip(1).push(line), done }),
{
    assert(logs.push(line).drop_first() == logs.skip(1).push(line));
}

// ---------------------------------------------------------------------------------------
// What the screens say
// ---------------------------------------------------------------------------------------

/// The line that says how far a conversion is.
pub open spec fn status_of(stage: Seq<char>, done: Option<Result<OutcomeView, Seq<char>>>) -> Seq<
    char,
> {
    match done {
        Some(Ok(outcome)) => "Concluído: "@ + outcome.epub_path + " ("@ + decimal(
            outcome.chapter_count,
        ) + " capítulos, "@ + decimal(outcome.image_count) + " imagens)"@,
        Some(Err(e)) => "Erro: "@ + e,
        None => stage,
    }
}

/// What is said of a conversion is the step that it is at, until it is done. Then it is where the
/// book was saved and how many chapters and pictures it has, or why there is none.
pub proof fn the_status_tells_how_far_it_is(
    stage: Seq<char>,
    outcome: OutcomeView,
    e: Seq<char>,
)
    ensures
        status_of(stage, None) == stage,
        exists|at: int| #[trigger] stands_in(status_of(stage, Some(Err(e))), e, at),
        exists|at: int| #[trigger]
            stands_in(status_of(stage, Some(Ok(outcome))), outcome.epub_path, at),
        exists|at: int| #[trigger]
            stands_in(
                status_of(stage, Some(Ok(outcome))),
                decimal(outcome.chapter_count) + " capítulos, "@ + decimal(outcome.image_count)
                    + " imagens"@,
                at,
            ),
{
    let failed = status_of(stage, Some(Err(e)));
    let n = "Erro: "@.len() as int;
    assert(failed.subrange(n, n + e.len()) == e);
    assert(stands_in(failed, e, n));
    let text = status_of(stage, Some(Ok(outcome)));
    let start = "Concluído: "@.len() as int;
    assert(text.subrange(start, start + outcome.epub_path.len()) == outcome.epub_path);
    assert(stands_in(text, outcome.epub_path, start));
    let counts = decimal(outcome.chapter_count) + " capítulos, "@ + decimal(outcome.image_count)
        + " imagens"@;
    reveal_strlit(" imagens");
    reveal_strlit(" imagens)");
    assert(" imagens)"@.take(8) == " imagens"@);
    let at = start + outcome.epub_path.len() + " ("@.len();
    assert(text.subrange(at, at + counts.len()) == counts);
    assert(stands_in(text, counts, at));
}

pub fn status_line(stage: &str, done: &Option<Result<Outcome, String>>) -> (r: String)
    ensures
        r@ == status_of(stage@, done_view(*done)),
{
    match done {
        Some(Ok(outcome)) => {
            let mut text: String = "Concluído: ".to_owned();
            text.append(outcome.epub_path.as_str());
            text.append(" (");
            push_decimal(&mut text, outcome.chapter_count as u128);
            text.append(" capítulos, ");
            push_decimal(&mut text, outcome.image_count as u128);
            text.append(" imagens)");
            text
        },
        Some(Err(e)) => joined("Erro: ", e.as_str()),
        None => stage.to_owned(),
    }
}

/// The line that says what keys do while a conversion runs and once it is done.
pub fn footer(done: &Option<Result<Outcome, String>>) -> (r: &'static str)
    ensures
        r@ == (match done_view(*done) {
            Some(Ok(_)) => "[p] abrir preview no navegador  [o] abrir pasta de saída  [n] converter outro PDF  [q] sair"@,
            Some(Err(_)) => "[n] tentar outro PDF  [q] sair"@,
            None => "convertendo... [q] sair"@,
        }),
{
    match done {
        Some(Ok(_)) => "[p] abrir preview no navegador  [o] abrir pasta de saída  [n] converter outro PDF  [q] sair",
        Some(Err(_)) => "[n] tentar outro PDF  [q] sair",
        None => "convertendo... [q] sair",
    }
}

} // verus!
