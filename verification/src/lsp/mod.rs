//! Editor support for the `.nowui` language: a highlighter's lexer, the
//! mapping from character offsets to editor positions, and the wire encoding
//! of highlighted tokens.

pub mod line_index;
pub mod lsp_laws;
pub mod semantic;
pub mod tokenizer;
