//! Literate-programming tangling: fenced code blocks of Markdown documents are
//! gathered into chunks, named references between them are expanded, and the
//! results are grouped by destination file.
pub mod text;
pub mod chunk;
pub mod expand;
pub mod info;
pub mod extract;
pub mod paths;
pub mod output;
pub mod laws;
