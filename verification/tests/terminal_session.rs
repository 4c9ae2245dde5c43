use std::collections::VecDeque;

use pdf_to_epub::session::{
    first_screen, footer, handle_key, pdf_opened, status_line, take_report, Action, Key, Outcome, ProgressMsg, Screen,
};

fn input(path: &str, cover: &str) -> Screen {
    first_screen(Some(path.to_string()), Some(cover.to_string()))
}

fn confirm(field: usize) -> Screen {
    Screen::Confirm {
        path: "/livros/a.pdf".to_string(),
        title: "T".to_string(),
        author: "A".to_string(),
        lang: "pt".to_string(),
        cover: " c.png ".to_string(),
        field,
    }
}

fn progress(done: Option<Result<Outcome, String>>) -> Screen {
    Screen::Progress { stage: "Iniciando".to_string(), logs: VecDeque::new(), done }
}

fn outcome() -> Outcome {
    Outcome {
        epub_path: "/livros/a.epub".to_string(),
        preview_path: "/livros/preview.html".to_string(),
        chapter_count: 12,
        image_count: 3,
    }
}

fn fields(screen: &Screen) -> (String, String, String, String, usize) {
    match screen {
        Screen::Confirm { title, author, lang, cover, field, .. } => {
            (title.clone(), author.clone(), lang.clone(), cover.clone(), *field)
        }
        _ => panic!("esperava a tela de confirmação"),
    }
}

#[test]
fn the_first_screen_starts_from_the_arguments() {
    match first_screen(None, Some("c.png".to_string())) {
        Screen::Input { path, cover } => assert_eq!((path.as_str(), cover.as_str()), ("", "c.png")),
        _ => panic!("esperava a tela de entrada"),
    }
}

#[test]
fn letters_are_typed_into_the_path_and_taken_back() {
    let (screen, action) = handle_key(input("/a", ""), Key::Char('ç'));
    assert!(matches!(action, Action::Nothing));
    match &screen {
        Screen::Input { path, .. } => assert_eq!(path, "/aç"),
        _ => panic!("esperava a tela de entrada"),
    }
    match handle_key(screen, Key::Backspace).0 {
        Screen::Input { path, .. } => assert_eq!(path, "/a"),
        _ => panic!("esperava a tela de entrada"),
    }
    match handle_key(input("", ""), Key::Backspace).0 {
        Screen::Input { path, .. } => assert_eq!(path, ""),
        _ => panic!("esperava a tela de entrada"),
    }
}

#[test]
fn enter_asks_for_the_trimmed_path_and_for_nothing_where_it_is_blank() {
    match handle_key(input("  /a.pdf ", "c"), Key::Enter) {
        (Screen::Input { path, cover }, Action::OpenPdf(wanted)) => {
            assert_eq!((path.as_str(), cover.as_str(), wanted.as_str()), ("  /a.pdf ", "c", "/a.pdf"));
        }
        _ => panic!("esperava o pedido de abrir"),
    }
    assert!(matches!(handle_key(input("  ", "c"), Key::Enter), (Screen::Input { .. }, Action::Nothing)));
}

#[test]
fn an_opened_pdf_is_confirmed_with_the_cover_that_was_given() {
    let opened = |language: Option<&str>| {
        let (path, title, author) = ("/a.pdf".to_string(), "T".to_string(), "A".to_string());
        pdf_opened(input("x", "c.png"), path, title, author, language.map(str::to_string))
    };
    assert!(matches!(opened(Some("en-US")), Screen::Confirm { lang, .. } if lang == "en-US"));
    match opened(None) {
        Screen::Confirm { path, title, author, lang, cover, field } => {
            assert_eq!(
                (path.as_str(), title.as_str(), author.as_str(), lang.as_str(), cover.as_str(), field),
                ("/a.pdf", "T", "A", "pt", "c.png", 0)
            );
        }
        _ => panic!("esperava a tela de confirmação"),
    }
}

#[test]
fn tab_goes_round_the_four_fields_and_back_tab_goes_back() {
    let mut screen = confirm(0);
    let mut seen = Vec::new();
    for _ in 0..4 {
        screen = handle_key(screen, Key::Tab).0;
        seen.push(fields(&screen).4);
    }
    assert_eq!(seen, vec![1, 2, 3, 0]);
    screen = handle_key(screen, Key::BackTab).0;
    assert_eq!(fields(&screen).4, 3);
    screen = handle_key(screen, Key::Tab).0;
    assert_eq!(fields(&screen).4, 0);
}

#[test]
fn a_letter_goes_to_the_field_in_use_and_backspace_takes_it_back() {
    let expected = [
        ("Tx", "A", "pt", " c.png "),
        ("T", "Ax", "pt", " c.png "),
        ("T", "A", "ptx", " c.png "),
        ("T", "A", "pt", " c.png x"),
    ];
    for (i, e) in expected.iter().enumerate() {
        let typed = handle_key(confirm(i), Key::Char('x')).0;
        let f = fields(&typed);
        assert_eq!((f.0.as_str(), f.1.as_str(), f.2.as_str(), f.3.as_str(), f.4), (e.0, e.1, e.2, e.3, i));
        let back = fields(&handle_key(typed, Key::Backspace).0);
        assert_eq!(back, fields(&confirm(i)));
    }
}

#[test]
fn enter_starts_the_conversion_with_what_is_on_the_screen() {
    match handle_key(confirm(2), Key::Enter) {
        (Screen::Progress { stage, logs, done }, Action::Convert { path, title, author, lang, cover }) => {
            assert_eq!((stage.as_str(), logs.len(), done.is_none()), ("Iniciando", 0, true));
            assert_eq!(
                (path.as_str(), title.as_str(), author.as_str(), lang.as_str(), cover.as_str()),
                ("/livros/a.pdf", "T", "A", "pt", "c.png")
            );
        }
        _ => panic!("esperava a conversão"),
    }
}

#[test]
fn escape_quits_from_every_screen() {
    for screen in [input("a", ""), confirm(1), progress(None)] {
        assert!(matches!(handle_key(screen, Key::Esc).1, Action::Quit));
    }
    assert!(matches!(handle_key(progress(None), Key::Char('q')).1, Action::Quit));
    assert!(matches!(handle_key(input("", ""), Key::Char('q')).1, Action::Nothing));
    assert!(matches!(handle_key(input("", ""), Key::Other).1, Action::Nothing));
}

#[test]
fn the_result_can_be_shown_only_once_it_is_there() {
    match handle_key(progress(Some(Ok(outcome()))), Key::Char('p')).1 {
        Action::ShowPreview(path) => assert_eq!(path, "/livros/preview.html"),
        _ => panic!("esperava o preview"),
    }
    match handle_key(progress(Some(Ok(outcome()))), Key::Char('o')).1 {
        Action::ShowFolder(path) => assert_eq!(path, "/livros/a.epub"),
        _ => panic!("esperava a pasta"),
    }
    for key in ['p', 'o'] {
        assert!(matches!(handle_key(progress(None), Key::Char(key)).1, Action::Nothing));
        let failed = progress(Some(Err("x".to_string())));
        assert!(matches!(handle_key(failed, Key::Char(key)).1, Action::Nothing));
    }
    match handle_key(progress(None), Key::Char('n')) {
        (Screen::Input { path, cover }, Action::Nothing) => assert_eq!((path.as_str(), cover.as_str()), ("", "")),
        _ => panic!("esperava a tela de entrada"),
    }
}

#[test]
fn the_log_keeps_its_latest_five_hundred_lines() {
    let mut screen = progress(None);
    for i in 0..503 {
        screen = take_report(screen, ProgressMsg::Log(format!("{i}")));
    }
    match screen {
        Screen::Progress { logs, .. } => {
            assert_eq!(logs.len(), 500);
            assert_eq!((logs[0].as_str(), logs[499].as_str()), ("3", "502"));
        }
        _ => panic!("esperava a tela de progresso"),
    }
}

#[test]
fn reports_change_the_stage_and_end_the_work() {
    let screen = take_report(progress(None), ProgressMsg::Stage("Gerando EPUB".to_string()));
    match &screen {
        Screen::Progress { stage, done, .. } => {
            assert_eq!(stage, "Gerando EPUB");
            assert_eq!(status_line(stage, done), "Gerando EPUB");
            assert_eq!(footer(done), "convertendo... [q] sair");
        }
        _ => panic!("esperava a tela de progresso"),
    }
    match take_report(screen, ProgressMsg::Done(outcome())) {
        Screen::Progress { stage, done, .. } => {
            assert_eq!(status_line(&stage, &done), "Concluído: /livros/a.epub (12 capítulos, 3 imagens)");
            assert_eq!(
                footer(&done),
                "[p] abrir preview no navegador  [o] abrir pasta de saída  [n] converter outro PDF  [q] sair"
            );
        }
        _ => panic!("esperava a tela de progresso"),
    }
    match take_report(progress(None), ProgressMsg::Error("falhou".to_string())) {
        Screen::Progress { stage, done, .. } => {
            assert_eq!(status_line(&stage, &done), "Erro: falhou");
            assert_eq!(footer(&done), "[n] tentar outro PDF  [q] sair");
        }
        _ => panic!("esperava a tela de progresso"),
    }
    match take_report(input("a", "b"), ProgressMsg::Log("x".to_string())) {
        Screen::Input { path, cover } => assert_eq!((path.as_str(), cover.as_str()), ("a", "b")),
        _ => panic!("esperava a tela de entrada"),
    }
}
