use pdf_to_epub::cli::{
    epub_filename, epub_name_from_stem, filename_title, read_command, starting_language, starting_metadata, take_cover_flag,
    title_from_stem,
    Command,
};

fn argv(items: &[&str]) -> Vec<String> {
    items.iter().map(|s| s.to_string()).collect()
}

#[test]
fn without_the_flag_nothing_is_consumed() {
    let mut args = argv(&["pdf_to_epub", "livro.pdf"]);
    assert_eq!(take_cover_flag(&mut args), Ok(None));
    assert_eq!(args, argv(&["pdf_to_epub", "livro.pdf"]));
}

#[test]
fn the_flag_is_removed_with_its_value_wherever_it_sits() {
    let mut args = argv(&["pdf_to_epub", "--cover", "capa.jpg", "--headless", "livro.pdf"]);
    assert_eq!(take_cover_flag(&mut args), Ok(Some("capa.jpg".to_string())));
    assert_eq!(args, argv(&["pdf_to_epub", "--headless", "livro.pdf"]));

    let mut args = argv(&["pdf_to_epub", "--headless", "livro.pdf", "saida", "--cover", "capa.jpg"]);
    assert_eq!(take_cover_flag(&mut args), Ok(Some("capa.jpg".to_string())));
    assert_eq!(args, argv(&["pdf_to_epub", "--headless", "livro.pdf", "saida"]));
}

#[test]
fn the_flag_without_a_value_is_an_error() {
    let mut args = argv(&["pdf_to_epub", "livro.pdf", "--cover"]);
    assert!(take_cover_flag(&mut args).is_err());
}

#[test]
fn the_next_flag_is_never_swallowed_as_the_cover_path() {
    // `--cover --headless livro.pdf` is a typo, not a request to open a file called
    // "--headless"; silently consuming it would drop the user into the TUI instead.
    let mut args = argv(&["pdf_to_epub", "--cover", "--headless", "livro.pdf"]);
    assert!(take_cover_flag(&mut args).is_err());
}

#[test]
fn repeating_the_flag_is_an_error_rather_than_a_silent_pick() {
    let mut args = argv(&["pdf_to_epub", "--cover", "a.jpg", "--cover", "b.jpg", "livro.pdf"]);
    assert!(take_cover_flag(&mut args).is_err());
}

#[test]
fn a_path_that_merely_looks_like_a_flag_still_works_after_a_separator() {
    // Um caminho relativo comum não deve ser confundido com flag.
    let mut args = argv(&["pdf_to_epub", "--cover", "./--estranho.jpg", "livro.pdf"]);
    assert_eq!(take_cover_flag(&mut args), Ok(Some("./--estranho.jpg".to_string())));
}

#[test]
fn each_refusal_has_its_own_words_and_leaves_the_arguments_alone() {
    let cases = [
        (vec!["p", "--cover"], "--cover exige o caminho de uma imagem"),
        (vec!["p", "--cover", "a", "--cover", "b"], "--cover foi informado mais de uma vez"),
        (
            vec!["p", "--cover", "--help"],
            "--cover esperava o caminho de uma imagem, mas veio a opção --help \
             (se for mesmo um arquivo, escreva ./--help)",
        ),
    ];
    for (items, message) in cases {
        let mut args = argv(&items);
        assert_eq!(take_cover_flag(&mut args), Err(message.to_string()));
        assert_eq!(args, argv(&items));
    }
}

#[test]
fn taking_the_flag_twice_finds_nothing_the_second_time() {
    let mut args = argv(&["p", "--cover", "a.jpg", "x"]);
    assert_eq!(take_cover_flag(&mut args), Ok(Some("a.jpg".to_string())));
    assert_eq!(take_cover_flag(&mut args), Ok(None));
    assert_eq!(args, argv(&["p", "x"]));
}

#[test]
fn the_epub_sits_next_to_the_pdf_under_the_same_name() {
    assert_eq!(epub_filename("/livros/Meu Livro.pdf"), "Meu Livro.epub");
}

#[test]
fn a_dotted_filename_only_loses_its_last_extension() {
    assert_eq!(epub_filename("vol.2.final.pdf"), "vol.2.final.epub");
}

#[test]
fn the_title_falls_back_to_the_filename_without_its_extension() {
    assert_eq!(filename_title("/tmp/Como Mentir.pdf"), "Como Mentir");
}

#[test]
fn a_path_with_no_filename_still_yields_usable_names() {
    assert_eq!(filename_title("/"), "Documento");
    assert_eq!(epub_filename("/"), "livro.epub");
}

#[test]
fn names_are_made_from_the_stem_where_there_is_one() {
    assert_eq!(title_from_stem(Some("Livro".to_string())), "Livro");
    assert_eq!(title_from_stem(None), "Documento");
    assert_eq!(epub_name_from_stem(Some("Livro".to_string())), "Livro.epub");
    assert_eq!(epub_name_from_stem(None), "livro.epub");
    assert_eq!(filename_title("sem_extensao"), "sem_extensao");
    assert_eq!(filename_title(".oculto"), ".oculto");
}

#[test]
fn what_the_document_says_of_itself_comes_before_the_filename() {
    let known = (Some("T".to_string()), Some("A".to_string()));
    assert_eq!(starting_metadata(known, "arquivo".to_string()), ("T".to_string(), "A".to_string()));
    assert_eq!(
        starting_metadata((None, None), "arquivo".to_string()),
        ("arquivo".to_string(), "".to_string())
    );
}

#[test]
fn the_first_argument_decides_what_is_run() {
    assert!(matches!(read_command(&argv(&["pdf_to_epub", "--version", "x"])), Command::ShowVersion));
    assert!(matches!(read_command(&argv(&["pdf_to_epub", "--help"])), Command::ShowHelp));
    assert!(matches!(read_command(&argv(&["pdf_to_epub", "--headless"])), Command::Misused));
    assert!(matches!(read_command(&argv(&["pdf_to_epub"])), Command::Interactive(None)));
    assert!(matches!(read_command(&argv(&[])), Command::Interactive(None)));
    match read_command(&argv(&["pdf_to_epub", "livro.pdf", "--help"])) {
        Command::Interactive(Some(path)) => assert_eq!(path, "livro.pdf"),
        _ => panic!("esperava a interface interativa"),
    }
    match read_command(&argv(&["pdf_to_epub", "--headless", "a.pdf", "saida"])) {
        Command::Headless { pdf, out_dir } => {
            assert_eq!((pdf.as_str(), out_dir.as_deref()), ("a.pdf", Some("saida")));
        }
        _ => panic!("esperava o modo sem interface"),
    }
    match read_command(&argv(&["pdf_to_epub", "--headless", "a.pdf"])) {
        Command::Headless { pdf, out_dir } => {
            assert_eq!((pdf.as_str(), out_dir), ("a.pdf", None));
        }
        _ => panic!("esperava o modo sem interface"),
    }
}

#[test]
fn the_stem_is_what_stands_before_the_last_dot_of_the_last_part() {
    assert_eq!(filename_title("a.b/c.d.pdf"), "c.d");
    assert_eq!(filename_title("/a/b"), "b");
    assert_eq!(epub_filename("pasta/.oculto.pdf"), ".oculto.epub");
    assert_eq!(epub_filename("nome."), "nome.epub");
    assert_eq!(epub_filename("a.pdf//./"), "a.epub");
    assert_eq!(epub_filename("./a.pdf/."), "a.epub");
    for nameless in ["", ".", "..", "./", "./.", "/.", "a/..", "../.", "/"] {
        assert_eq!((filename_title(nameless), epub_filename(nameless)), ("Documento".into(), "livro.epub".into()));
    }
    assert_eq!(filename_title("..."), "..");
}

#[test]
fn the_language_of_the_document_comes_before_the_usual_one() {
    assert_eq!(starting_language(Some("en".to_string())), "en");
    assert_eq!(starting_language(None), "pt");
}
