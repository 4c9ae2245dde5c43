//! Turns the text and the pictures of a PDF into a reflowable EPUB.
pub mod chapters;
pub mod cli;
pub mod color;
pub mod cover;
pub mod epub_gen;
pub mod epub_writer;
pub mod flow;
pub mod images;
pub mod layout;
pub mod order;
pub mod page_scan;
pub mod pdf_model;
pub mod pdf_parse;
pub mod pdf_source;
pub mod pipeline;
pub mod preview;
pub mod rounding;
pub mod session;
pub mod text;
pub mod typeset;
