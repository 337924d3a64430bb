//! The inspector: what a widget's style tokens and bindings are, and how an edit
//! of one of them is put back into the source text.

use vstd::prelude::*;
use vstd::string::*;
use vstd::utf8::*;
use crate::designer::document::{AstNode, BindValue, Binding, Span, StylePair};

verus! {

/// One style token or binding of a widget.
#[derive(Debug)]
pub struct InspectorField {
    pub label: String,
    pub value: String,
    /// Where the whole token stands.
    pub span: Span,
    pub is_binding: bool,
}

/// A widget: its kind, its style tokens, then its bindings.
#[derive(Debug)]
pub struct InspectorSelection {
    pub kind: String,
    pub fields: Vec<InspectorField>,
}

/// The model of a field.
pub struct FieldView {
    pub label: Seq<char>,
    pub value: Seq<char>,
    pub span: Span,
    pub is_binding: bool,
}

/// The model of a selection.
pub struct SelectionView {
    pub kind: Seq<char>,
    pub fields: Seq<FieldView>,
}

impl View for InspectorField {
    type V = FieldView;

    open spec fn view(&self) -> FieldView {
        FieldView {
            label: self.label@,
            value: self.value@,
            span: self.span,
            is_binding: self.is_binding,
        }
    }
}

pub open spec fn field_views(v: Seq<InspectorField>) -> Seq<FieldView> {
    v.map_values(|f: InspectorField| f@)
}

impl View for InspectorSelection {
    type V = SelectionView;

    open spec fn view(&self) -> SelectionView {
        SelectionView { kind: self.kind@, fields: field_views(self.fields@) }
    }
}

/// Path segments from `i` on, with dots between them.
pub open spec fn dotted(segs: Seq<String>, i: int) -> Seq<char>
    decreases segs.len() - i,
{
    if 0 <= i < segs.len() {
        if i + 1 == segs.len() {
            segs[i]@
        } else {
            segs[i]@ + seq!['.'] + dotted(segs, i + 1)
        }
    } else {
        Seq::empty()
    }
}

/// How the value of a binding is shown.
pub open spec fn shown_value(v: BindValue) -> Seq<char> {
    match v {
        BindValue::Path(segs) => dotted(segs@, 0),
        BindValue::Bool(b) => if b {
            "true"@
        } else {
            "false"@
        },
        BindValue::Number(n) => n@,
        BindValue::Str(s) => s@,
    }
}

fn bind_value_display(v: &BindValue) -> (r: String)
    ensures
        r@ == shown_value(*v),
{
    match v {
        BindValue::Path(segs) => {
            let mut out: String = String::new();
            let mut i: usize = 0;
            let ghost want = dotted(segs@, 0);
            assert(out@ + want =~= want);
            while i < segs.len()
                invariant
                    0 <= i <= segs@.len(),
                    out@ + dotted(segs@, i as int) == want,
                decreases segs@.len() - i,
            {
                let ghost before = out@;
                out.append(segs[i].as_str());
                if i + 1 < segs.len() {
                    out.push('.');
                }
                i = i + 1;
                proof {
                    let p = segs@[i - 1]@;
                    if i < segs@.len() {
                        let rest = dotted(segs@, i as int);
                        assert(before + (p + seq!['.'] + rest) =~= (before + p).push('.') + rest);
                    } else {
                        assert(out@ + dotted(segs@, i as int) =~= before + p);
                    }
                }
            }
            assert(out@ + dotted(segs@, i as int) =~= out@);
            out
        },
        BindValue::Bool(b) => if *b {
            "true".to_owned()
        } else {
            "false".to_owned()
        },
        BindValue::Number(n) => n.clone(),
        BindValue::Str(s) => s.clone(),
    }
}

pub open spec fn style_view(s: StylePair) -> FieldView {
    FieldView { label: s.key@, value: s.value@, span: s.span, is_binding: false }
}

pub open spec fn binding_view(b: Binding) -> FieldView {
    FieldView { label: b.key@, value: shown_value(b.value), span: b.span, is_binding: true }
}

/// The fields of a widget.
pub open spec fn widget_fields(styles: Seq<StylePair>, bindings: Seq<Binding>) -> Seq<FieldView> {
    styles.map_values(|s: StylePair| style_view(s)) + bindings.map_values(
        |b: Binding| binding_view(b),
    )
}

/// The first widget at `target` in `n`, a widget before those inside it.
pub open spec fn found_in_node(n: AstNode, target: Span) -> Option<SelectionView>
    decreases n, 0int,
{
    match n {
        AstNode::Widget { kind, styles, bindings, children, span } => if span == target {
            Some(SelectionView { kind: kind@, fields: widget_fields(styles@, bindings@) })
        } else {
            found_from(children, 0, target)
        },
        AstNode::LayoutDef { name, children } => found_from(children, 0, target),
        AstNode::If { branches, else_branch } => match found_in_branches(branches, 0, target) {
            Some(s) => Some(s),
            None => found_from(else_branch, 0, target),
        },
        AstNode::For { body } => found_from(body, 0, target),
        AstNode::Import { path } => None,
    }
}

/// The first widget at `target` in the nodes from `i` on.
pub open spec fn found_from(nodes: Vec<AstNode>, i: int, target: Span) -> Option<SelectionView>
    decreases nodes, nodes@.len() - i,
{
    if 0 <= i < nodes@.len() {
        match found_in_node(nodes@[i], target) {
            Some(s) => Some(s),
            None => found_from(nodes, i + 1, target),
        }
    } else {
        None
    }
}

/// The first widget at `target` in the branches from `i` on.
pub open spec fn found_in_branches(
    branches: Vec<Vec<AstNode>>,
    i: int,
    target: Span,
) -> Option<SelectionView>
    decreases branches, branches@.len() - i,
{
    if 0 <= i < branches@.len() {
        match found_from(branches@[i], 0, target) {
            Some(s) => Some(s),
            None => found_in_branches(branches, i + 1, target),
        }
    } else {
        None
    }
}

pub open spec fn selection_view(s: Option<InspectorSelection>) -> Option<SelectionView> {
    match s {
        Some(s) => Some(s@),
        None => None,
    }
}

/// The fields of a widget: its style tokens, then its bindings.
fn collect_fields(styles: &Vec<StylePair>, bindings: &Vec<Binding>) -> (r: Vec<InspectorField>)
    ensures
        field_views(r@) == widget_fields(styles@, bindings@),
{
    let ghost first = styles@.map_values(|s: StylePair| style_view(s));
    let ghost second = bindings@.map_values(|b: Binding| binding_view(b));
    let mut fields: Vec<InspectorField> = Vec::new();
    let mut i: usize = 0;
    assert(field_views(fields@) =~= first.take(0));
    while i < styles.len()
        invariant
            0 <= i <= styles@.len(),
            first == styles@.map_values(|s: StylePair| style_view(s)),
            field_views(fields@) == first.take(i as int),
        decreases styles@.len() - i,
    {
        let ghost before = field_views(fields@);
        let s: &StylePair = &styles[i];
        fields.push(
            InspectorField {
                label: s.key.clone(),
                value: s.value.clone(),
                span: s.span,
                is_binding: false,
            },
        );
        i = i + 1;
        assert(field_views(fields@) =~= before.push(style_view(*s)));
        assert(first.take(i as int) =~= first.take(i - 1).push(first[i - 1]));
    }
    let mut j: usize = 0;
    assert(field_views(fields@) =~= first + second.take(0));
    while j < bindings.len()
        invariant
            0 <= j <= bindings@.len(),
            second == bindings@.map_values(|b: Binding| binding_view(b)),
            field_views(fields@) == first + second.take(j as int),
        decreases bindings@.len() - j,
    {
        let ghost before = field_views(fields@);
        let b: &Binding = &bindings[j];
        fields.push(
            InspectorField {
                label: b.key.clone(),
                value: bind_value_display(&b.value),
                span: b.span,
                is_binding: true,
            },
        );
        j = j + 1;
        assert(field_views(fields@) =~= before.push(binding_view(*b)));
        assert(first + second.take(j as int) =~= before.push(second[j - 1]));
    }
    assert(second.take(j as int) =~= second);
    fields
}

fn find_in_node(node: &AstNode, target: Span) -> (r: Option<InspectorSelection>)
    ensures
        selection_view(r) == found_in_node(*node, target),
    decreases node, 0int,
{
    match node {
        AstNode::Widget { kind, styles, bindings, children, span } => {
            if *span == target {
                let fields: Vec<InspectorField> = collect_fields(styles, bindings);
                return Some(InspectorSelection { kind: kind.clone(), fields });
            }
            find_widget(children, target)
        },
        AstNode::LayoutDef { name: _, children } => find_widget(children, target),
        AstNode::If { branches, else_branch } => {
            let mut i: usize = 0;
            while i < branches.len()
                invariant
                    0 <= i <= branches@.len(),
                    decreases_to!(node => branches),
                    found_in_branches(*branches, i as int, target) == found_in_branches(
                        *branches,
                        0,
                        target,
                    ),
                    *node matches AstNode::If { branches: b, else_branch: e } && b == *branches && e
                        == *else_branch,
                decreases branches@.len() - i,
            {
                let found: Option<InspectorSelection> = find_widget(&branches[i], target);
                if found.is_some() {
                    return found;
                }
                i = i + 1;
            }
            find_widget(else_branch, target)
        },
        AstNode::For { body } => find_widget(body, target),
        AstNode::Import { path: _ } => None,
    }
}

/// The first widget at `target`.
fn find_widget(nodes: &Vec<AstNode>, target: Span) -> (r: Option<InspectorSelection>)
    ensures
        selection_view(r) == found_from(*nodes, 0, target),
    decreases nodes, 0int,
{
    let mut i: usize = 0;
    while i < nodes.len()
        invariant
            0 <= i <= nodes@.len(),
            found_from(*nodes, i as int, target) == found_from(*nodes, 0, target),
        decreases nodes@.len() - i,
    {
        let found: Option<InspectorSelection> = find_in_node(&nodes[i], target);
        if found.is_some() {
            return found;
        }
        i = i + 1;
    }
    None
}

/// The widget of a document that stands at `target`, with its own style tokens
/// and bindings; none if the text does not parse, or no widget stands there.
pub fn inspect(document: Option<&Vec<AstNode>>, target: Span) -> (r: Option<InspectorSelection>)
    ensures
        selection_view(r) == match document {
            Some(nodes) => found_from(*nodes, 0, target),
            None => None,
        },
{
    match document {
        Some(nodes) => find_widget(nodes, target),
        None => None,
    }
}

/// `span` is a range of whole characters of `source`.
pub open spec fn span_fits(source: Seq<char>, span: Span) -> bool {
    &&& span.start <= span.end <= encode_utf8(source).len()
    &&& is_char_boundary(encode_utf8(source), span.start as int)
    &&& is_char_boundary(encode_utf8(source), span.end as int)
}

/// `bytes` with the range `span` replaced.
pub open spec fn spliced(bytes: Seq<u8>, span: Span, with: Seq<u8>) -> Seq<u8> {
    bytes.take(span.start as int) + with + bytes.skip(span.end as int)
}

fn splice(source: &str, span: Span, replacement: &str) -> (r: String)
    requires
        span_fits(source@, span),
    ensures
        encode_utf8(r@) == spliced(encode_utf8(source@), span, encode_utf8(replacement@)),
{
    let (head, _) = source.split_at(span.start);
    let (_, tail) = source.split_at(span.end);
    let mut out: String = String::new();
    out.append(head);
    out.append(replacement);
    out.append(tail);
    proof {
        assert(out@ =~= head@ + replacement@ + tail@);
        crate::text::lemma_encode_concat(head@ + replacement@, tail@);
        crate::text::lemma_encode_concat(head@, replacement@);
    }
    out
}

/// The source with the style token `field` replaced by `new_token`; everything
/// else stays as it is.
pub fn apply_style_edit(source: &str, field: &InspectorField, new_token: &str) -> (r: String)
    requires
        span_fits(source@, field.span),
    ensures
        encode_utf8(r@) == spliced(encode_utf8(source@), field.span, encode_utf8(new_token@)),
{
    splice(source, field.span, new_token)
}

/// A binding as it is written.
pub open spec fn binding_text(label: Seq<char>, value: Seq<char>) -> Seq<char> {
    label + ": "@ + value
}

/// The source with the binding `field` bound to `new_value_src`; everything else
/// stays as it is.
pub fn apply_binding_edit(source: &str, field: &InspectorField, new_value_src: &str) -> (r: String)
    requires
        span_fits(source@, field.span),
    ensures
        encode_utf8(r@) == spliced(
            encode_utf8(source@),
            field.span,
            encode_utf8(binding_text(field.label@, new_value_src@)),
        ),
{
    let mut replacement: String = field.label.clone();
    replacement.append(": ");
    replacement.append(new_value_src);
    splice(source, field.span, replacement.as_str())
}

// ---- laws ----

/// An edit leaves every byte in front of the token and behind it as it was.
pub proof fn law_edit_touches_only_its_span(bytes: Seq<u8>, span: Span, with: Seq<u8>)
    requires
        span.start <= span.end <= bytes.len(),
    ensures
        spliced(bytes, span, with).len() == bytes.len() - (span.end - span.start) + with.len(),
        spliced(bytes, span, with).take(span.start as int) == bytes.take(span.start as int),
        spliced(bytes, span, with).subrange(span.start as int, span.start + with.len()) == with,
        spliced(bytes, span, with).skip(span.start + with.len()) == bytes.skip(span.end as int),
{
    let r = spliced(bytes, span, with);
    assert(r.take(span.start as int) =~= bytes.take(span.start as int));
    assert(r.subrange(span.start as int, span.start + with.len()) =~= with);
    assert(r.skip(span.start + with.len()) =~= bytes.skip(span.end as int));
}

/// Putting the old token back gives the old source back.
pub proof fn law_edit_can_be_undone(bytes: Seq<u8>, span: Span, with: Seq<u8>)
    requires
        span.start <= span.end <= bytes.len(),
        span.start + with.len() <= usize::MAX,
    ensures
        spliced(
            spliced(bytes, span, with),
            (Span { start: span.start, end: (span.start + with.len()) as usize }),
            bytes.subrange(span.start as int, span.end as int),
        ) == bytes,
{
    let back = (Span { start: span.start, end: (span.start + with.len()) as usize });
    let mid = bytes.subrange(span.start as int, span.end as int);
    assert(spliced(spliced(bytes, span, with), back, mid) =~= bytes);
}

} // verus!
