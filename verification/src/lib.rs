//! The verified core of a retained-mode UI toolkit.

pub mod assets;
pub mod assoc;
pub mod derive;
pub mod derive_laws;
pub mod designer;
pub mod lsp;
pub mod order;
pub mod order_laws;
pub mod state;
pub mod text;
pub mod text_laws;
pub mod toolkit;
