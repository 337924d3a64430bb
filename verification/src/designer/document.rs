//! The parts of a parsed document that the designer reads.

use vstd::prelude::*;

verus! {

/// A byte range of a source text.
#[derive(Debug, Clone, Copy, PartialEq, Eq, Structural)]
pub struct Span {
    pub start: usize,
    pub end: usize,
}

/// A style token of a widget.
#[derive(Debug)]
pub struct StylePair {
    pub key: String,
    pub value: String,
    pub span: Span,
}

/// What a binding is bound to.
#[derive(Debug)]
pub enum BindValue {
    Path(Vec<String>),
    Bool(bool),
    /// A number, as it is shown.
    Number(String),
    Str(String),
}

/// A binding of a widget.
#[derive(Debug)]
pub struct Binding {
    pub key: String,
    pub value: BindValue,
    pub span: Span,
}

/// A node of a document.
#[derive(Debug)]
pub enum AstNode {
    Widget {
        kind: String,
        styles: Vec<StylePair>,
        bindings: Vec<Binding>,
        children: Vec<AstNode>,
        span: Span,
    },
    LayoutDef { name: String, children: Vec<AstNode> },
    /// The bodies of the branches in order, and of the `else`.
    If { branches: Vec<Vec<AstNode>>, else_branch: Vec<AstNode> },
    For { body: Vec<AstNode> },
    Import { path: String },
}

} // verus!
