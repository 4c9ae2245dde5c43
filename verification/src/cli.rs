//! What the command line asks for.
use vstd::prelude::*;

use crate::text::{joined, optional, same_text, texts};

verus! {

/// The text begins with two dashes, as options do.
pub open spec fn is_option(s: Seq<char>) -> bool {
    s.len() >= 2 && s[0] == '-' && s[1] == '-'
}

/// What `--cover` asks for: nothing where it is absent, else the position of the option, whose
/// value stands right behind it. The option may stand only once, and its value may neither be
/// missing nor be an option itself.
pub open spec fn cover_request(args: Seq<Seq<char>>) -> Result<Option<int>, Seq<char>> {
    match (args.index_of_first("--cover"@), args.index_of_last("--cover"@)) {
        (Some(i), Some(last)) => if i != last {
            Err("--cover foi informado mais de uma vez"@)
        } else if i + 1 >= args.len() {
            Err("--cover exige o caminho de uma imagem"@)
        } else if is_option(args[i + 1]) {
            Err(
                "--cover esperava o caminho de uma imagem, mas veio a opção "@ + args[i + 1]
                    + " (se for mesmo um arquivo, escreva ./"@ + args[i + 1] + ")"@,
            )
        } else {
            Ok(Some(i))
        },
        _ => Ok(None),
    }
}

/// The arguments without the option at `i` and its value.
pub open spec fn without_request(args: Seq<Seq<char>>, i: int) -> Seq<Seq<char>> {
    args.take(i) + args.skip(i + 2)
}

/// Once the option was taken out, it is gone.
pub proof fn a_taken_request_is_gone(args: Seq<Seq<char>>, i: int)
    requires
        cover_request(args) == Ok::<Option<int>, Seq<char>>(Some(i)),
    ensures
        cover_request(without_request(args, i)) == Ok::<Option<int>, Seq<char>>(None),
{
    let flag = "--cover"@;
    let rest = without_request(args, i);
    reveal_strlit("--cover");
    args.index_of_first_ensures(flag);
    args.index_of_last_ensures(flag);
    assert(is_option(flag)) by {
        assert(flag[0] == '-' && flag[1] == '-');
    }
    assert forall|j: int| 0 <= j < rest.len() implies #[trigger] rest[j] != flag by {
        if j < i {
            assert(rest[j] == args[j]);
        } else {
            assert(rest[j] == args[j + 2]);
        }
    }
    assert(!rest.contains(flag));
    rest.index_of_first_ensures(flag);
}

/// The option and its value are taken out wherever they stand, and everything else stays in its
/// order. The value is what stands right behind the option, unless it begins with two dashes.
pub proof fn a_request_is_taken_out(
    before: Seq<Seq<char>>,
    value: Seq<char>,
    after: Seq<Seq<char>>,
)
    requires
        !before.contains("--cover"@),
        !after.contains("--cover"@),
        !(value.len() >= 2 && value[0] == '-' && value[1] == '-'),
    ensures
        ({
            let args = before + seq!["--cover"@, value] + after;
            &&& cover_request(args) == Ok::<Option<int>, Seq<char>>(Some(before.len() as int))
            &&& args[before.len() as int + 1] == value
            &&& without_request(args, before.len() as int) == before + after
        }),
{
    let flag = "--cover"@;
    reveal_strlit("--cover");
    let args = before + seq![flag, value] + after;
    let n = before.len() as int;
    lemma_only_flag(before, value, after);
    assert(args[n + 1] == value);
    assert(args.take(n) == before);
    assert(args.skip(n + 2) == after);
}

proof fn lemma_only_flag(before: Seq<Seq<char>>, value: Seq<char>, after: Seq<Seq<char>>)
    requires
        !before.contains("--cover"@),
        !after.contains("--cover"@),
        value != "--cover"@,
    ensures
        ({
            let args = before + seq!["--cover"@, value] + after;
            &&& args.index_of_first("--cover"@) == Some(before.len() as int)
            &&& args.index_of_last("--cover"@) == Some(before.len() as int)
        }),
{
    let flag = "--cover"@;
    let args = before + seq![flag, value] + after;
    let n = before.len() as int;
    assert(args[n] == flag);
    assert(args[n + 1] == value);
    assert(args.contains(flag));
    args.index_of_first_ensures(flag);
    args.index_of_last_ensures(flag);
    assert forall|j: int| 0 <= j < args.len() && j != n implies args[j] != flag by {
        if j < n {
            assert(args[j] == before[j]);
        } else if j > n + 1 {
            assert(args[j] == after[j - n - 2]);
        }
    }
}

/// Arguments without the option ask for no cover. The option twice, the option at the end and the
/// option before another option are refused.
pub proof fn other_requests_are_refused(args: Seq<Seq<char>>, i: int, j: int)
    ensures
        !args.contains("--cover"@) ==> cover_request(args) == Ok::<Option<int>, Seq<char>>(None),
        0 <= i < j < args.len() && args[i] == "--cover"@ && args[j] == "--cover"@ ==> cover_request(
            args,
        ) is Err,
        args.len() > 0 && args.last() == "--cover"@ ==> cover_request(args) is Err,
        0 <= i && args[i] == "--cover"@ && i + 1 < args.len() && args[i + 1].len() >= 2 && args[i + 1][0]
            == '-' && args[i + 1][1] == '-' ==> cover_request(args) is Err,
{
    let flag = "--cover"@;
    args.index_of_first_ensures(flag);
    args.index_of_last_ensures(flag);
    if 0 <= i < args.len() && args[i] == flag {
        assert(args.contains(flag));
    }
    if args.len() > 0 && args.last() == flag {
        assert(args[args.len() - 1] == flag);
        assert(args.contains(flag));
    }
}

fn looks_like_option(s: &str) -> (r: bool)
    ensures
        r == is_option(s@),
{
    s.unicode_len() >= 2 && s.get_char(0) == '-' && s.get_char(1) == '-'
}

fn unexpected_option(v: &str) -> (r: String)
    ensures
        r@ == "--cover esperava o caminho de uma imagem, mas veio a opção "@ + v@
            + " (se for mesmo um arquivo, escreva ./"@ + v@ + ")"@,
{
    let mut message: String = "--cover esperava o caminho de uma imagem, mas veio a opção ".to_owned();
    message.append(v);
    message.append(" (se for mesmo um arquivo, escreva ./");
    message.append(v);
    message.append(")");
    message
}

/// Takes `--cover <caminho>` out of the arguments and hands out the path. A missing value, a
/// value that is itself an option and a repeated `--cover` are all refused here, with the
/// arguments left alone, rather than being quietly taken for positional arguments.
pub fn take_cover_flag(args: &mut Vec<String>) -> (r: Result<Option<String>, String>)
    ensures
        match cover_request(texts(old(args)@)) {
            Err(message) => (r matches Err(e) && e@ == message) && final(args)@ == old(args)@,
            Ok(None) => r == Ok::<Option<String>, String>(None) && final(args)@ == old(args)@,
            Ok(Some(i)) => (r matches Ok(Some(path)) && path@ == texts(old(args)@)[i + 1])
                && texts(final(args)@) == without_request(texts(old(args)@), i),
        },
{
    let ghost all = texts(args@);
    let ghost word = "--cover"@;
    proof {
        all.index_of_first_ensures(word);
        all.index_of_last_ensures(word);
    }
    let flag: String = "--cover".to_owned();
    let mut first: Option<usize> = None;
    let mut many = false;
    for k in 0..args.len()
        invariant
            all == texts(args@),
            flag@ == word,
            match first {
                Some(f) => f < k && all[f as int] == word && forall|j: int|
                    0 <= j < f ==> #[trigger] all[j] != word,
                None => forall|j: int| 0 <= j < k ==> #[trigger] all[j] != word,
            },
            many ==> first is Some && exists|j: int|
                first->0 < j < k && #[trigger] all[j] == word,
            first is Some && !many ==> forall|j: int|
                first->0 < j < k ==> #[trigger] all[j] != word,
    {
        assert(all[k as int] == args@[k as int]@);
        if args[k] == flag {
            if first.is_none() {
                first = Some(k);
            } else {
                many = true;
            }
        }
    }
    let i: usize = match first {
        Some(i) => i,
        None => {
            assert(!all.contains(word));
            return Ok(None);
        },
    };
    assert(all.contains(word)) by {
        assert(all[i as int] == word);
    }
    assert(all.index_of_first(word) == Some(i as int));
    if many {
        assert(all.index_of_last(word) != Some(i as int));
        return Err("--cover foi informado mais de uma vez".to_owned());
    }
    assert(all.index_of_last(word) == Some(i as int));
    if i + 1 >= args.len() {
        return Err("--cover exige o caminho de uma imagem".to_owned());
    }
    assert(all[i + 1] == args@[i + 1]@);
    if looks_like_option(args[i + 1].as_str()) {
        return Err(unexpected_option(args[i + 1].as_str()));
    }
    args.remove(i);
    let path = args.remove(i);
    assert(texts(args@) == without_request(all, i as int));
    Ok(Some(path))
}

// ---------------------------------------------------------------------------------------
// Commands
// ---------------------------------------------------------------------------------------

/// What the program is asked to do.
#[derive(Debug)]
pub enum Command {
    ShowVersion,
    ShowHelp,
    /// Convert a file without the terminal interface. The directory is that of the file where
    /// none is given.
    Headless { pdf: String, out_dir: Option<String> },
    /// `--headless` without a file.
    Misused,
    /// Open the terminal interface, with a path filled in where one is given.
    Interactive(Option<String>),
}

#[verifier::ext_equal]
pub ghost enum CommandView {
    ShowVersion,
    ShowHelp,
    Headless { pdf: Seq<char>, out_dir: Option<Seq<char>> },
    Misused,
    Interactive(Option<Seq<char>>),
}

impl View for Command {
    type V = CommandView;

    open spec fn view(&self) -> CommandView {
        match self {
            Command::ShowVersion => CommandView::ShowVersion,
            Command::ShowHelp => CommandView::ShowHelp,
            Command::Headless { pdf, out_dir } => CommandView::Headless {
                pdf: pdf@,
                out_dir: optional(*out_dir),
            },
            Command::Misused => CommandView::Misused,
            Command::Interactive(path) => CommandView::Interactive(optional(*path)),
        }
    }
}

/// The argument at a position, where there is one.
pub open spec fn argument(args: Seq<Seq<char>>, i: int) -> Option<Seq<char>> {
    if i < args.len() {
        Some(args[i])
    } else {
        None
    }
}

/// What the arguments ask for, the first of which is the program itself.
pub open spec fn command_of(args: Seq<Seq<char>>) -> CommandView {
    match argument(args, 1) {
        None => CommandView::Interactive(None),
        Some(first) => if first == "--version"@ {
            CommandView::ShowVersion
        } else if first == "--help"@ {
            CommandView::ShowHelp
        } else if first == "--headless"@ {
            match argument(args, 2) {
                Some(pdf) => CommandView::Headless { pdf, out_dir: argument(args, 3) },
                None => CommandView::Misused,
            }
        } else {
            CommandView::Interactive(Some(first))
        },
    }
}

/// The first argument decides what is done: the version and the help are asked for by name, a
/// conversion without the terminal interface takes the file and then the directory, and anything
/// else is a path for the interface. The first of all is the program itself.
pub proof fn the_first_argument_decides(
    program: Seq<char>,
    first: Seq<char>,
    pdf: Seq<char>,
    directory: Seq<char>,
    rest: Seq<Seq<char>>,
)
    requires
        first != "--version"@ && first != "--help"@ && first != "--headless"@,
    ensures
        command_of(seq![program]) == CommandView::Interactive(None),
        command_of(seq![program, "--version"@] + rest) == CommandView::ShowVersion,
        command_of(seq![program, "--help"@] + rest) == CommandView::ShowHelp,
        command_of(seq![program, "--headless"@]) == CommandView::Misused,
        command_of(seq![program, "--headless"@, pdf]) == (CommandView::Headless {
            pdf,
            out_dir: None,
        }),
        command_of(seq![program, "--headless"@, pdf, directory] + rest) == (
        CommandView::Headless { pdf, out_dir: Some(directory) }),
        command_of(seq![program, first] + rest) == CommandView::Interactive(Some(first)),
{
    reveal_strlit("--version");
    reveal_strlit("--help");
    reveal_strlit("--headless");
    assert("--version"@[2] == 'v' && "--help"@[2] == 'h' && "--headless"@[2] == 'h');
    assert("--help"@.len() == 6 && "--headless"@.len() == 10);
    assert((seq![program, "--version"@] + rest)[1] == "--version"@);
    assert((seq![program, "--help"@] + rest)[1] == "--help"@);
    assert((seq![program, first] + rest)[1] == first);
    let all = seq![program, "--headless"@, pdf, directory] + rest;
    assert(all[1] == "--headless"@ && all[2] == pdf && all[3] == directory);
}

fn argument_at(args: &Vec<String>, i: usize) -> (r: Option<String>)
    ensures
        optional(r) == argument(texts(args@), i as int),
{
    if i < args.len() {
        assert(texts(args@)[i as int] == args@[i as int]@);
        Some(args[i].clone())
    } else {
        None
    }
}

/// Reads the arguments that are left once `--cover` was taken out: see `command_of`.
pub fn read_command(args: &Vec<String>) -> (r: Command)
    ensures
        r@ == command_of(texts(args@)),
{
    match argument_at(args, 1) {
        None => Command::Interactive(None),
        Some(first) => if same_text(first.as_str(), "--version") {
            Command::ShowVersion
        } else if same_text(first.as_str(), "--help") {
            Command::ShowHelp
        } else if same_text(first.as_str(), "--headless") {
            match argument_at(args, 2) {
                Some(pdf) => Command::Headless { pdf, out_dir: argument_at(args, 3) },
                None => Command::Misused,
            }
        } else {
            Command::Interactive(Some(first))
        },
    }
}

// ---------------------------------------------------------------------------------------
// Names of files
// ---------------------------------------------------------------------------------------

/// What stands behind the last slash of a path.
pub open spec fn last_part(path: Seq<char>) -> Seq<char> {
    match path.index_of_last('/') {
        Some(i) => path.skip(i + 1),
        None => path,
    }
}

/// A path without the slashes at its end, and without the parts there that are a single dot.
pub open spec fn without_end(path: Seq<char>) -> Seq<char>
    decreases path.len(),
{
    if path.len() > 0 && path.last() == '/' {
        without_end(path.drop_last())
    } else if path.len() > 1 && path.last() == '.' && path[path.len() - 2] == '/' {
        without_end(path.take(path.len() - 2))
    } else {
        path
    }
}

/// A name without its extension: what stands before the last dot. A dot that begins the name
/// begins no extension.
pub open spec fn plain_stem(name: Seq<char>) -> Seq<char> {
    match name.index_of_last('.') {
        Some(i) => if i > 0 {
            name.take(i)
        } else {
            name
        },
        None => name,
    }
}

/// The parts of the path are the same on every system: nothing but slashes can separate them.
pub open spec fn is_portable(path: Seq<char>) -> bool {
    &&& !path.contains('\\')
    &&& !path.contains(':')
    &&& !(path.len() >= 2 && path[0] == '/' && path[1] == '/')
}

/// The last part of a path without its extension. A path that ends in nothing, in the folder
/// itself or in the one above has no such part.
pub open spec fn portable_stem(path: Seq<char>) -> Option<Seq<char>> {
    let name = last_part(without_end(path));
    if name.len() == 0 || name == "."@ || name == ".."@ {
        None
    } else {
        Some(plain_stem(name))
    }
}

/// The stem is the last part of the path without its extension. Where it depends on the system
/// what the parts are, the stem is some part of the path and not an empty one, or there is none.
pub open spec fn is_stem(stem: Option<Seq<char>>, path: Seq<char>) -> bool {
    if is_portable(path) {
        stem == portable_stem(path)
    } else {
        match stem {
            Some(s) => s.len() > 0 && exists|i: int, j: int|
                0 <= i <= j <= path.len() && s == #[trigger] path.subrange(i, j),
            None => true,
        }
    }
}

/// `std::path::Path::file_stem` gives the last part of a path without its extension, where the
/// path has such a part. A slash separates the parts on every system, and slashes and single dots
/// at the end do not count. Elsewhere a backslash separates parts too, and a colon or two slashes
/// may begin a path, so of such paths it is only claimed that the stem is a part of the path.
#[verifier::external_body]
fn file_stem(path: &str) -> (r: Option<String>)
    ensures
        is_stem(optional(r), path@),
{
    std::path::Path::new(path).file_stem().map(|s| s.to_string_lossy().to_string())
}

/// The title of a book whose file has this stem.
pub open spec fn title_of_stem(stem: Option<Seq<char>>) -> Seq<char> {
    match stem {
        Some(s) => s,
        None => "Documento"@,
    }
}

/// The name of the EPUB that is made of a file with this stem.
pub open spec fn epub_name_of_stem(stem: Option<Seq<char>>) -> Seq<char> {
    (match stem {
        Some(s) => s,
        None => "livro"@,
    }) + ".epub"@
}

proof fn lemma_last_index(path: Seq<char>, c: char, at: int)
    requires
        0 <= at < path.len(),
        path[at] == c,
        forall|j: int| at < j < path.len() ==> #[trigger] path[j] != c,
    ensures
        path.index_of_last(c) == Some(at),
{
    assert(path.contains(c));
    path.index_of_last_ensures(c);
}

/// A book is named after its file: the title is the name of the file without its folders and
/// without its extension, and the EPUB has that name with an extension of its own.
pub proof fn books_are_named_after_their_files(
    folders: Seq<char>,
    name: Seq<char>,
    extension: Seq<char>,
)
    requires
        folders.len() == 0 || folders.last() == '/',
        name.len() > 0,
        !name.contains('/'),
        extension.len() > 0,
        !extension.contains('/'),
        !extension.contains('.'),
    ensures
        ({
            let path = folders + name + seq!['.'] + extension;
            &&& portable_stem(path) == Some(name)
            &&& title_of_stem(portable_stem(path)) == name
            &&& epub_name_of_stem(portable_stem(path)) == name + ".epub"@
        }),
{
    let file = name + seq!['.'] + extension;
    let path = folders + name + seq!['.'] + extension;
    assert(path == folders + file);
    let n = file.len();
    assert(path.last() == extension.last());
    assert(extension.contains(extension.last()));
    assert(without_end(path) == path);
    assert forall|j: int| 0 <= j < n implies #[trigger] file[j] != '/' by {
        if j < name.len() {
            assert(name.contains(name[j]));
        } else if j > name.len() {
            assert(file[j] == extension[j - name.len() - 1]);
            assert(extension.contains(file[j]));
        }
    }
    if folders.len() > 0 {
        let at = folders.len() - 1;
        assert(path[at] == '/');
        assert forall|j: int| at < j < path.len() implies #[trigger] path[j] != '/' by {
            assert(path[j] == file[j - folders.len()]);
        }
        lemma_last_index(path, '/', at as int);
        assert(path.skip(at + 1) == file);
    } else {
        assert(path == file);
        assert(!path.contains('/'));
        path.index_of_last_ensures('/');
    }
    assert(last_part(path) == file);
    assert(file[name.len() as int] == '.');
    assert forall|j: int| name.len() < j < n implies #[trigger] file[j] != '.' by {
        assert(file[j] == extension[j - name.len() - 1]);
        assert(extension.contains(file[j]));
    }
    lemma_last_index(file, '.', name.len() as int);
    assert(file.take(name.len() as int) == name);
    assert(file != "."@ && file != ".."@) by {
        reveal_strlit(".");
        reveal_strlit("..");
        assert("."@.len() == 1);
        assert(".."@.len() == 2 && ".."@[1] == '.');
        assert(file[n - 1] == extension.last());
        assert(extension.contains(extension.last()));
    }
}

/// A file without an extension gives its whole name, and without a file there is a name to fall
/// back on.
pub proof fn names_without_extension_are_kept(folders: Seq<char>, name: Seq<char>)
    requires
        folders.len() == 0 || folders.last() == '/',
        name.len() > 0,
        !name.contains('/'),
        !name.contains('.'),
    ensures
        portable_stem(folders + name) == Some(name),
        title_of_stem(None) == "Documento"@,
        epub_name_of_stem(None) == "livro"@ + ".epub"@,
{
    let path = folders + name;
    assert(name.contains(name.last()));
    assert(path.last() == name.last());
    assert(without_end(path) == path);
    if folders.len() > 0 {
        let at = folders.len() - 1;
        assert forall|j: int| at < j < path.len() implies #[trigger] path[j] != '/' by {
            assert(path[j] == name[j - folders.len()]);
            assert(name.contains(path[j]));
        }
        lemma_last_index(path, '/', at as int);
        assert(path.skip(at + 1) == name);
    } else {
        assert(path == name);
        path.index_of_last_ensures('/');
    }
    name.index_of_last_ensures('.');
    assert(name != "."@ && name != ".."@) by {
        reveal_strlit(".");
        reveal_strlit("..");
        assert("."@[0] == '.' && ".."@[0] == '.');
        assert(name.contains(name[0]));
    }
}

/// The title of a book whose file has this stem.
pub fn title_from_stem(stem: Option<String>) -> (r: String)
    ensures
        r@ == title_of_stem(optional(stem)),
{
    match stem {
        Some(s) => s,
        None => "Documento".to_owned(),
    }
}

/// The name of the EPUB that is made of a file with this stem.
pub fn epub_name_from_stem(stem: Option<String>) -> (r: String)
    ensures
        r@ == epub_name_of_stem(optional(stem)),
{
    match stem {
        Some(s) => joined(s.as_str(), ".epub"),
        None => joined("livro", ".epub"),
    }
}

/// The title of a book by the name of its file.
pub fn filename_title(path: &str) -> (r: String)
    ensures
        exists|stem: Option<Seq<char>>|
            #[trigger] is_stem(stem, path@) && r@ == title_of_stem(stem),
        is_portable(path@) ==> r@ == title_of_stem(portable_stem(path@)),
{
    let stem = file_stem(path);
    let ghost found = optional(stem);
    assert(is_stem(found, path@));
    title_from_stem(stem)
}

/// The name of the EPUB that is made of a PDF.
pub fn epub_filename(pdf_path: &str) -> (r: String)
    ensures
        exists|stem: Option<Seq<char>>|
            #[trigger] is_stem(stem, pdf_path@) && r@ == epub_name_of_stem(stem),
        is_portable(pdf_path@) ==> r@ == epub_name_of_stem(portable_stem(pdf_path@)),
{
    let stem = file_stem(pdf_path);
    let ghost found = optional(stem);
    assert(is_stem(found, pdf_path@));
    epub_name_from_stem(stem)
}

/// The title and the author to start from: those that the PDF gives, or else the name of the
/// file and nobody.
pub fn starting_metadata(found: (Option<String>, Option<String>), file_title: String) -> (r: (
    String,
    String,
))
    ensures
        r.0@ == (match found.0 {
            Some(title) => title@,
            None => file_title@,
        }),
        r.1@ == (match found.1 {
            Some(author) => author@,
            None => Seq::empty(),
        }),
{
    let title = match found.0 {
        Some(title) => title,
        None => file_title,
    };
    let author = match found.1 {
        Some(author) => author,
        None => String::new(),
    };
    (title, author)
}

/// The language to start from: the one that the PDF gives, or else Portuguese.
pub open spec fn language_or_default(found: Option<Seq<char>>) -> Seq<char> {
    match found {
        Some(language) => language,
        None => "pt"@,
    }
}

/// The language of the document is the one to start from, and without one it is Portuguese.
pub proof fn the_language_is_the_one_that_was_found(language: Seq<char>)
    ensures
        language_or_default(Some(language)) == language,
        language_or_default(None) == seq!['p', 't'],
{
    reveal_strlit("pt");
    assert("pt"@ == seq!['p', 't']);
}

/// The language to start from: see `language_or_default`.
pub fn starting_language(found: Option<String>) -> (r: String)
    ensures
        r@ == language_or_default(optional(found)),
{
    match found {
        Some(language) => language,
        None => "pt".to_owned(),
    }
}

} // verus!
