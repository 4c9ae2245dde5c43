# pdf_to_epub

Turns a PDF into a reflowable EPUB. Pictures are put back between the paragraphs where they
stood, chapters are found in the text itself, and every book gets a cover.

The library under `src/` is verified with Verus: each function states what it returns in
`ensures`, and the public proof functions state what holds of several of them together (that no
line or picture is lost or changes its place, that a page loses nothing but the drawing of its
pictures, that every picture the text shows is in the book). What it takes from outside crates
stands behind small functions whose doc comments say what is believed of them.

| Module | What it does |
| --- | --- |
| `pdf_source`, `pdf_parse`, `page_scan` | objects and pages of a PDF; takes the pictures out of a page |
| `images`, `color` | pictures of a PDF as JPEG or PNG files |
| `flow`, `pdf_model` | lines of text and pictures in reading order |
| `layout`, `order` | measures of the page; headings, paragraphs, captions |
| `text`, `rounding` | texts, and numbers as they are written |
| `chapters` | where chapters begin |
| `cover`, `typeset` | which picture is the cover, and how a drawn one is set |
| `epub_gen`, `epub_writer` | pages and archive of the book |
| `preview` | one HTML page with everything in it |
| `cli`, `session`, `pipeline` | arguments, screens, and the steps of a conversion |

Lengths are integers: millionths of a point, or finer parts of the page width.

`app/` is the program around the library: files, the terminal, the text extractor, and the
typefaces, which it reads from the folder `assets` beside the program.
