//! A copy of an interface to be painted elsewhere, without what is not shown.

use vstd::prelude::*;
use vstd::string::*;
use crate::assets::decode::{DecodedImage, Frame};
use crate::assoc::AssocMap;
use crate::designer::preview::texts;
use crate::toolkit::arena::{
    is_tombstone, lemma_pruned_is_forest, rank_of, ranked, reaches_below, Layer, Node, NodeId,
    NodeKind, Template, TemplatePart, Ui,
};
use crate::toolkit::num::Num;
use crate::toolkit::style::{same_style, Style, StyleVariants};

verus! {

// ---- copies ----

fn copy_texts(v: &Vec<String>) -> (r: Vec<String>)
    ensures
        texts(r@) == texts(v@),
{
    let ghost want = texts(v@);
    let mut out: Vec<String> = Vec::new();
    let mut i: usize = 0;
    assert(texts(out@) =~= want.take(0));
    while i < v.len()
        invariant
            0 <= i <= v@.len(),
            want == texts(v@),
            texts(out@) == want.take(i as int),
        decreases v@.len() - i,
    {
        let ghost before = texts(out@);
        let s: String = v[i].clone();
        out.push(s);
        assert(texts(out@) =~= before.push(want[i as int]));
        i = i + 1;
        assert(want.take(i as int) =~= want.take(i - 1).push(want[i - 1]));
    }
    assert(want.take(i as int) =~= want);
    out
}

/// The text of an optional message.
pub open spec fn message(s: Option<String>) -> Option<Seq<char>> {
    match s {
        Some(s) => Some(s@),
        None => None,
    }
}

fn copy_message(s: &Option<String>) -> (r: Option<String>)
    ensures
        message(r) == message(*s),
{
    match s {
        Some(s) => Some(s.clone()),
        None => None,
    }
}

/// Two optional pictures are alike.
pub open spec fn same_frame(a: Option<Frame>, b: Option<Frame>) -> bool {
    match (a, b) {
        (Some(x), Some(y)) => x@ == y@,
        (None, None) => true,
        _ => false,
    }
}

fn copy_frame(f: &Option<Frame>) -> (r: Option<Frame>)
    ensures
        same_frame(r, *f),
{
    match f {
        Some(f) => Some(f.clone()),
        None => None,
    }
}

pub open spec fn same_image(a: Option<DecodedImage>, b: Option<DecodedImage>) -> bool {
    match (a, b) {
        (Some(x), Some(y)) => x@ == y@,
        (None, None) => true,
        _ => false,
    }
}

fn copy_image(img: &Option<DecodedImage>) -> (r: Option<DecodedImage>)
    ensures
        same_image(r, *img),
{
    match img {
        Some(img) => {
            let mut frames: Vec<Frame> = Vec::new();
            let mut i: usize = 0;
            while i < img.frames.len()
                invariant
                    0 <= i <= img.frames@.len(),
                    frames@.len() == i,
                    forall|k: int| 0 <= k < i ==> (#[trigger] frames@[k])@ == img.frames@[k]@,
                decreases img.frames@.len() - i,
            {
                let f: Frame = img.frames[i].clone();
                frames.push(f);
                i = i + 1;
            }
            let r: DecodedImage = DecodedImage { width: img.width, height: img.height, frames };
            assert(r@.frames =~= img@.frames);
            Some(r)
        },
        None => None,
    }
}

/// Two kinds are alike: the same variant, with the same in it.
pub open spec fn same_kind<N>(a: NodeKind<N>, b: NodeKind<N>) -> bool {
    match (a, b) {
        (NodeKind::Container, NodeKind::Container) => true,
        (NodeKind::Text { content: x }, NodeKind::Text { content: y }) => x@ == y@,
        (
            NodeKind::TextInput {
                label: l1,
                placeholder: p1,
                masked: m1,
                cursor: c1,
                selection_anchor: s1,
                ime_preview: i1,
            },
            NodeKind::TextInput {
                label: l2,
                placeholder: p2,
                masked: m2,
                cursor: c2,
                selection_anchor: s2,
                ime_preview: i2,
            },
        ) => l1@ == l2@ && p1@ == p2@ && m1 == m2 && c1 == c2 && s1 == s2 && i1@ == i2@,
        (NodeKind::Button { label: x }, NodeKind::Button { label: y }) => x@ == y@,
        (
            NodeKind::Checkbox { label: x, checked: c },
            NodeKind::Checkbox { label: y, checked: d },
        ) => x@ == y@ && c == d,
        (
            NodeKind::Dropdown { placeholder: p1, options: o1, selected: s1, open: w1 },
            NodeKind::Dropdown { placeholder: p2, options: o2, selected: s2, open: w2 },
        ) => p1@ == p2@ && texts(o1@) == texts(o2@) && s1 == s2 && w1 == w2,
        (NodeKind::Slider { value: x }, NodeKind::Slider { value: y }) => x == y,
        (NodeKind::ProgressBar { value: x }, NodeKind::ProgressBar { value: y }) => x == y,
        (NodeKind::Menu { label: x, open: o }, NodeKind::Menu { label: y, open: w }) => x@ == y@
            && o == w,
        (NodeKind::MenuItem { label: x }, NodeKind::MenuItem { label: y }) => x@ == y@,
        (
            NodeKind::Image {
                source: s1,
                decoded: d1,
                current_frame: c1,
                frame_elapsed_ms: f1,
                error: e1,
            },
            NodeKind::Image {
                source: s2,
                decoded: d2,
                current_frame: c2,
                frame_elapsed_ms: f2,
                error: e2,
            },
        ) => s1@ == s2@ && same_image(d1, d2) && c1 == c2 && f1 == f2 && message(e1) == message(e2),
        (
            NodeKind::Icon { name: n1, decoded: d1, error: e1 },
            NodeKind::Icon { name: n2, decoded: d2, error: e2 },
        ) => n1@ == n2@ && same_frame(d1, d2) && message(e1) == message(e2),
        (
            NodeKind::Date { value: v1, placeholder: p1, open: o1, picker: k1 },
            NodeKind::Date { value: v2, placeholder: p2, open: o2, picker: k2 },
        ) => v1@ == v2@ && p1@ == p2@ && o1 == o2 && k1 == k2,
        (
            NodeKind::Time { value: v1, placeholder: p1, open: o1, picker: k1 },
            NodeKind::Time { value: v2, placeholder: p2, open: o2, picker: k2 },
        ) => v1@ == v2@ && p1@ == p2@ && o1 == o2 && k1 == k2,
        (
            NodeKind::DateTime {
                value: v1,
                placeholder: p1,
                open: o1,
                date_picker: d1,
                time_picker: t1,
                active_tab: a1,
            },
            NodeKind::DateTime {
                value: v2,
                placeholder: p2,
                open: o2,
                date_picker: d2,
                time_picker: t2,
                active_tab: a2,
            },
        ) => v1@ == v2@ && p1@ == p2@ && o1 == o2 && d1 == d2 && t1 == t2 && a1 == a2,
        (NodeKind::DataGrid, NodeKind::DataGrid) => true,
        (
            NodeKind::TreeView { has_checkbox_selection: h1, can_select_multiple: c1 },
            NodeKind::TreeView { has_checkbox_selection: h2, can_select_multiple: c2 },
        ) => h1 == h2 && c1 == c2,
        (
            NodeKind::TreeViewItem {
                id: i1,
                label: l1,
                collapsed: c1,
                selected: s1,
                checkbox: b1,
                show_folder_actions: f1,
                icon: k1,
            },
            NodeKind::TreeViewItem {
                id: i2,
                label: l2,
                collapsed: c2,
                selected: s2,
                checkbox: b2,
                show_folder_actions: f2,
                icon: k2,
            },
        ) => i1@ == i2@ && l1@ == l2@ && c1 == c2 && s1 == s2 && b1 == b2 && f1 == f2
            && same_frame(k1, k2),
        _ => false,
    }
}

fn copy_kind<N: Num>(k: &NodeKind<N>) -> (r: NodeKind<N>)
    ensures
        same_kind(r, *k),
{
    match k {
        NodeKind::Container => NodeKind::Container,
        NodeKind::Text { content } => NodeKind::Text { content: content.clone() },
        NodeKind::TextInput { label, placeholder, masked, cursor, selection_anchor, ime_preview } =>
        NodeKind::TextInput {
            label: label.clone(),
            placeholder: placeholder.clone(),
            masked: *masked,
            cursor: *cursor,
            selection_anchor: *selection_anchor,
            ime_preview: ime_preview.clone(),
        },
        NodeKind::Button { label } => NodeKind::Button { label: label.clone() },
        NodeKind::Checkbox { label, checked } => NodeKind::Checkbox {
            label: label.clone(),
            checked: *checked,
        },
        NodeKind::Dropdown { placeholder, options, selected, open } => NodeKind::Dropdown {
            placeholder: placeholder.clone(),
            options: copy_texts(options),
            selected: *selected,
            open: *open,
        },
        NodeKind::Slider { value } => NodeKind::Slider { value: *value },
        NodeKind::ProgressBar { value } => NodeKind::ProgressBar { value: *value },
        NodeKind::Menu { label, open } => NodeKind::Menu { label: label.clone(), open: *open },
        NodeKind::MenuItem { label } => NodeKind::MenuItem { label: label.clone() },
        NodeKind::Image { source, decoded, current_frame, frame_elapsed_ms, error } =>
        NodeKind::Image {
            source: source.clone(),
            decoded: copy_image(decoded),
            current_frame: *current_frame,
            frame_elapsed_ms: *frame_elapsed_ms,
            error: copy_message(error),
        },
        NodeKind::Icon { name, decoded, error } => NodeKind::Icon {
            name: name.clone(),
            decoded: copy_frame(decoded),
            error: copy_message(error),
        },
        NodeKind::Date { value, placeholder, open, picker } => NodeKind::Date {
            value: value.clone(),
            placeholder: placeholder.clone(),
            open: *open,
            picker: *picker,
        },
        NodeKind::Time { value, placeholder, open, picker } => NodeKind::Time {
            value: value.clone(),
            placeholder: placeholder.clone(),
            open: *open,
            picker: *picker,
        },
        NodeKind::DateTime { value, placeholder, open, date_picker, time_picker, active_tab } =>
        NodeKind::DateTime {
            value: value.clone(),
            placeholder: placeholder.clone(),
            open: *open,
            date_picker: *date_picker,
            time_picker: *time_picker,
            active_tab: *active_tab,
        },
        NodeKind::DataGrid => NodeKind::DataGrid,
        NodeKind::TreeView { has_checkbox_selection, can_select_multiple } => NodeKind::TreeView {
            has_checkbox_selection: *has_checkbox_selection,
            can_select_multiple: *can_select_multiple,
        },
        NodeKind::TreeViewItem {
            id,
            label,
            collapsed,
            selected,
            checkbox,
            show_folder_actions,
            icon,
        } => NodeKind::TreeViewItem {
            id: id.clone(),
            label: label.clone(),
            collapsed: *collapsed,
            selected: *selected,
            checkbox: *checkbox,
            show_folder_actions: *show_folder_actions,
            icon: copy_frame(icon),
        },
    }
}

pub open spec fn same_overlay<N: Num>(a: Option<Style<N>>, b: Option<Style<N>>) -> bool {
    match (a, b) {
        (Some(x), Some(y)) => same_style(x, y),
        (None, None) => true,
        _ => false,
    }
}

fn copy_overlay<N: Num>(s: &Option<Style<N>>) -> (r: Option<Style<N>>)
    ensures
        same_overlay(r, *s),
{
    match s {
        Some(s) => Some(s.copy_style()),
        None => None,
    }
}

pub open spec fn same_variants<N: Num>(a: StyleVariants<N>, b: StyleVariants<N>) -> bool {
    &&& same_overlay(a.hover, b.hover)
    &&& same_overlay(a.focus, b.focus)
    &&& same_overlay(a.active, b.active)
    &&& a.responsive@.len() == b.responsive@.len()
    &&& forall|i: int|
        0 <= i < a.responsive@.len() ==> (#[trigger] a.responsive@[i]).0 == b.responsive@[i].0
            && same_style(a.responsive@[i].1, b.responsive@[i].1)
}

fn copy_variants<N: Num>(v: &StyleVariants<N>) -> (r: StyleVariants<N>)
    ensures
        same_variants(r, *v),
{
    let mut responsive: Vec<(u32, Style<N>)> = Vec::new();
    let mut i: usize = 0;
    while i < v.responsive.len()
        invariant
            0 <= i <= v.responsive@.len(),
            responsive@.len() == i,
            forall|k: int|
                0 <= k < i ==> (#[trigger] responsive@[k]).0 == v.responsive@[k].0 && same_style(
                    responsive@[k].1,
                    v.responsive@[k].1,
                ),
        decreases v.responsive@.len() - i,
    {
        let style: Style<N> = v.responsive[i].1.copy_style();
        responsive.push((v.responsive[i].0, style));
        i = i + 1;
    }
    StyleVariants {
        hover: copy_overlay(&v.hover),
        focus: copy_overlay(&v.focus),
        active: copy_overlay(&v.active),
        responsive,
    }
}

/// Two sets of event bindings are alike.
pub open spec fn same_events(a: AssocMap<Vec<String>>, b: AssocMap<Vec<String>>) -> bool {
    &&& a.view().dom() == b.view().dom()
    &&& forall|k: Seq<char>|
        a.view().dom().contains(k) ==> texts((#[trigger] a.view()[k])@) == texts(b.view()[k]@)
}

fn copy_events(e: &AssocMap<Vec<String>>) -> (r: AssocMap<Vec<String>>)
    ensures
        same_events(r, *e),
{
    let mut out: AssocMap<Vec<String>> = AssocMap::new();
    let n: usize = e.len();
    let ghost keys = e.key_order();
    let mut i: usize = 0;
    while i < n
        invariant
            0 <= i <= n,
            n == keys.len(),
            keys == e.key_order(),
            forall|k: int| 0 <= k < n ==> e.view().dom().contains(#[trigger] keys[k]),
            forall|k: Seq<char>| #[trigger]
                out.view().dom().contains(k) <==> exists|j: int| 0 <= j < i && #[trigger] keys[j] == k,
            forall|k: Seq<char>|
                out.view().dom().contains(k) ==> texts((#[trigger] out.view()[k])@) == texts(
                    e.view()[k]@,
                ),
        decreases n - i,
    {
        let key: &str = e.key_at(i);
        let ghost before = out.view();
        match e.get(key) {
            Some(v) => {
                let copy: Vec<String> = copy_texts(v);
                out.insert(key, copy);
            },
            None => {},
        }
        proof {
            assert forall|k: Seq<char>| #[trigger] out.view().dom().contains(k) <==> exists|j: int|
                0 <= j < i + 1 && #[trigger] keys[j] == k by {
                if out.view().dom().contains(k) {
                    if k == key@ {
                        assert(keys[i as int] == k);
                    } else {
                        assert(before.dom().contains(k));
                        let j = choose|j: int| 0 <= j < i && #[trigger] keys[j] == k;
                        assert(0 <= j < i + 1);
                    }
                }
                if exists|j: int| 0 <= j < i + 1 && #[trigger] keys[j] == k {
                    let j = choose|j: int| 0 <= j < i + 1 && #[trigger] keys[j] == k;
                    if j < i {
                        assert(before.dom().contains(k));
                    }
                }
            }
        }
        i = i + 1;
    }
    assert(out.view().dom() =~= e.view().dom());
    out
}

/// Two parts of a string with interpolations are alike.
pub open spec fn same_part(a: TemplatePart, b: TemplatePart) -> bool {
    match (a, b) {
        (TemplatePart::Lit(x), TemplatePart::Lit(y)) => x@ == y@,
        (TemplatePart::Var(x), TemplatePart::Var(y)) => texts(x@) == texts(y@),
        _ => false,
    }
}

pub open spec fn same_template(a: Template, b: Template) -> bool {
    &&& a@.len() == b@.len()
    &&& forall|i: int| 0 <= i < a@.len() ==> same_part(#[trigger] a@[i], b@[i])
}

fn copy_template(t: &Template) -> (r: Template)
    ensures
        same_template(r, *t),
{
    let mut out: Template = Vec::new();
    let mut i: usize = 0;
    while i < t.len()
        invariant
            0 <= i <= t@.len(),
            out@.len() == i,
            forall|k: int| 0 <= k < i ==> same_part(#[trigger] out@[k], t@[k]),
        decreases t@.len() - i,
    {
        let part: TemplatePart = match &t[i] {
            TemplatePart::Lit(s) => TemplatePart::Lit(s.clone()),
            TemplatePart::Var(v) => TemplatePart::Var(copy_texts(v)),
        };
        out.push(part);
        i = i + 1;
    }
    out
}

pub open spec fn same_templates(a: Seq<Template>, b: Seq<Template>) -> bool {
    &&& a.len() == b.len()
    &&& forall|i: int| 0 <= i < a.len() ==> same_template(#[trigger] a[i], b[i])
}

fn copy_templates(v: &Vec<Template>) -> (r: Vec<Template>)
    ensures
        same_templates(r@, v@),
{
    let mut out: Vec<Template> = Vec::new();
    let mut i: usize = 0;
    while i < v.len()
        invariant
            0 <= i <= v@.len(),
            out@.len() == i,
            forall|k: int| 0 <= k < i ==> same_template(#[trigger] out@[k], v@[k]),
        decreases v@.len() - i,
    {
        let t: Template = copy_template(&v[i]);
        out.push(t);
        i = i + 1;
    }
    out
}

/// Two nodes are alike.
pub open spec fn same_node<N: Num>(a: Node<N>, b: Node<N>) -> bool {
    &&& same_kind(a.kind, b.kind)
    &&& same_style(a.base_style, b.base_style)
    &&& same_variants(a.variants, b.variants)
    &&& same_style(a.style, b.style)
    &&& a.children@ == b.children@
    &&& a.computed == b.computed
    &&& a.content_size == b.content_size
    &&& a.scroll_offset == b.scroll_offset
    &&& texts(a.value_path@) == texts(b.value_path@)
    &&& same_events(a.events, b.events)
    &&& same_templates(a.templates@, b.templates@)
    &&& a.dirty == b.dirty
}

fn copy_node<N: Num>(n: &Node<N>) -> (r: Node<N>)
    ensures
        same_node(r, *n),
{
    let mut children: Vec<NodeId> = Vec::new();
    let mut i: usize = 0;
    while i < n.children.len()
        invariant
            0 <= i <= n.children@.len(),
            children@ == n.children@.take(i as int),
        decreases n.children@.len() - i,
    {
        children.push(n.children[i]);
        i = i + 1;
        assert(n.children@.take(i as int) =~= n.children@.take(i - 1).push(n.children@[i - 1]));
    }
    assert(n.children@.take(i as int) =~= n.children@);
    Node {
        kind: copy_kind(&n.kind),
        base_style: n.base_style.copy_style(),
        variants: copy_variants(&n.variants),
        style: n.style.copy_style(),
        children,
        computed: n.computed,
        content_size: n.content_size,
        scroll_offset: n.scroll_offset,
        value_path: copy_texts(&n.value_path),
        events: copy_events(&n.events),
        templates: copy_templates(&n.templates),
        dirty: n.dirty,
    }
}

// ---- what is not shown ----

/// A tree row with its rows folded away.
pub open spec fn is_collapsed<N>(n: Node<N>) -> bool {
    n.kind matches NodeKind::TreeViewItem { collapsed, .. } && collapsed
}

/// `to` is folded away in a collapsed row in the subtree of `id`.
pub open spec fn folded<N>(
    nodes: Seq<Node<N>>,
    rank: spec_fn(int) -> nat,
    id: int,
    to: int,
) -> bool
    decreases rank(id), nodes[id].children@.len() + 1,
{
    if is_collapsed(nodes[id]) {
        reaches_below(nodes, rank, id, nodes[id].children@.len(), to)
    } else {
        folded_below(nodes, rank, id, nodes[id].children@.len(), to)
    }
}

/// The same for the first `n` children of `id`.
pub open spec fn folded_below<N>(
    nodes: Seq<Node<N>>,
    rank: spec_fn(int) -> nat,
    id: int,
    n: nat,
    to: int,
) -> bool
    decreases rank(id), n,
{
    ranked(nodes, rank) && 0 <= id < nodes.len() && 0 < n <= nodes[id].children@.len() && (folded(
        nodes,
        rank,
        nodes[id].children@[n - 1].0 as int,
        to,
    ) || folded_below(nodes, rank, id, (n - 1) as nat, to))
}

/// Node `i` is folded away in one of the first `n` layers.
pub open spec fn is_hidden<N: Num>(ui: Ui<N>, n: nat, i: int) -> bool {
    exists|l: int|
        0 <= l < n && folded(
            ui.nodes@,
            rank_of(ui.nodes@),
            (#[trigger] ui.layers@[l]).root.0 as int,
            i,
        )
}

fn mark_folded<N: Num>(ui: &Ui<N>, id: NodeId, hidden: &mut Vec<bool>)
    requires
        ui.wf(),
        id.0 < ui.nodes@.len(),
        old(hidden)@.len() == ui.nodes@.len(),
    ensures
        final(hidden)@.len() == old(hidden)@.len(),
        forall|i: int|
            0 <= i < final(hidden)@.len() ==> #[trigger] final(hidden)@[i] == (old(hidden)@[i]
                || folded(ui.nodes@, rank_of(ui.nodes@), id.0 as int, i)),
    decreases rank_of(ui.nodes@)(id.0 as int),
{
    let ghost nodes = ui.nodes@;
    let ghost rank = rank_of(nodes);
    let ghost start = hidden@;
    let node: &Node<N> = ui.get(id);
    let collapsed: bool = match &node.kind {
        NodeKind::TreeViewItem { collapsed, .. } => *collapsed,
        _ => false,
    };
    let mut n: usize = 0;
    while n < node.children.len()
        invariant
            0 <= n <= node.children@.len(),
            ui.wf(),
            nodes == ui.nodes@,
            rank == rank_of(nodes),
            ranked(nodes, rank),
            id.0 < nodes.len(),
            *node == nodes[id.0 as int],
            collapsed == is_collapsed(*node),
            hidden@.len() == nodes.len(),
            start.len() == nodes.len(),
            forall|i: int|
                0 <= i < hidden@.len() ==> #[trigger] hidden@[i] == (start[i] || if collapsed {
                    reaches_below(nodes, rank, id.0 as int, n as nat, i)
                } else {
                    folded_below(nodes, rank, id.0 as int, n as nat, i)
                }),
        decreases node.children@.len() - n,
    {
        let c: NodeId = node.children[n];
        assert(nodes[id.0 as int].children@[n as int] == c);
        if collapsed {
            ui.mark(c, hidden);
        } else {
            mark_folded(ui, c, hidden);
        }
        n = n + 1;
    }
}

/// Two lists of layers are alike.
pub open spec fn same_layers(a: Seq<Layer>, b: Seq<Layer>) -> bool {
    &&& a.len() == b.len()
    &&& forall|i: int| 0 <= i < a.len() ==> (#[trigger] a[i]).root == b[i].root && a[i].name@ == b[i].name@
}

fn copy_layers(v: &Vec<Layer>) -> (r: Vec<Layer>)
    ensures
        same_layers(r@, v@),
{
    let mut out: Vec<Layer> = Vec::new();
    let mut i: usize = 0;
    while i < v.len()
        invariant
            0 <= i <= v@.len(),
            out@.len() == i,
            forall|k: int|
                0 <= k < i ==> (#[trigger] out@[k]).root == v@[k].root && out@[k].name@ == v@[k].name@,
        decreases v@.len() - i,
    {
        let name: String = v[i].name.clone();
        out.push(Layer { root: v[i].root, name });
        i = i + 1;
    }
    out
}

/// A copy of `ui` to be painted: what is folded away in a collapsed tree row, and
/// so not painted at all, is left empty.
pub fn clone_for_render<N: Num>(ui: &Ui<N>) -> (r: Ui<N>)
    requires
        ui.wf(),
    ensures
        r.wf(),
        r.nodes@.len() == ui.nodes@.len(),
        forall|i: int|
            0 <= i < ui.nodes@.len() ==> if is_hidden(*ui, ui.layers@.len(), i) {
                is_tombstone(#[trigger] r.nodes@[i])
            } else {
                same_node(r.nodes@[i], ui.nodes@[i])
            },
        same_layers(r.layers@, ui.layers@),
        r == (Ui { nodes: r.nodes, layers: r.layers, ..*ui }),
{
    let n: usize = ui.nodes.len();
    let mut hidden: Vec<bool> = Vec::new();
    let mut i: usize = 0;
    while i < n
        invariant
            0 <= i <= n,
            hidden@.len() == i,
            forall|k: int| 0 <= k < i ==> !#[trigger] hidden@[k],
        decreases n - i,
    {
        hidden.push(false);
        i = i + 1;
    }
    let mut l: usize = 0;
    while l < ui.layers.len()
        invariant
            0 <= l <= ui.layers@.len(),
            ui.wf(),
            hidden@.len() == ui.nodes@.len(),
            forall|k: int|
                0 <= k < hidden@.len() ==> #[trigger] hidden@[k] == is_hidden(*ui, l as nat, k),
        decreases ui.layers@.len() - l,
    {
        let ghost before = hidden@;
        let root: NodeId = ui.layers[l].root;
        assert(ui.layers@[l as int].root.0 < ui.nodes@.len());
        mark_folded(ui, root, &mut hidden);
        proof {
            let rank = rank_of(ui.nodes@);
            assert forall|k: int| 0 <= k < hidden@.len() implies #[trigger] hidden@[k] == is_hidden(
                *ui,
                (l + 1) as nat,
                k,
            ) by {
                assert(before[k] == is_hidden(*ui, l as nat, k));
                if folded(ui.nodes@, rank, root.0 as int, k) {
                    assert(folded(ui.nodes@, rank, ui.layers@[l as int].root.0 as int, k));
                }
                if is_hidden(*ui, l as nat, k) {
                    let w = choose|w: int|
                        0 <= w < l && folded(
                            ui.nodes@,
                            rank,
                            (#[trigger] ui.layers@[w]).root.0 as int,
                            k,
                        );
                    assert(0 <= w < l + 1);
                }
            }
        }
        l = l + 1;
    }
    let mut nodes: Vec<Node<N>> = Vec::new();
    let mut j: usize = 0;
    while j < n
        invariant
            0 <= j <= n,
            n == ui.nodes@.len(),
            hidden@.len() == n,
            nodes@.len() == j,
            forall|k: int|
                0 <= k < n ==> #[trigger] hidden@[k] == is_hidden(*ui, ui.layers@.len(), k),
            forall|k: int|
                0 <= k < j ==> if is_hidden(*ui, ui.layers@.len(), k) {
                    is_tombstone(#[trigger] nodes@[k])
                } else {
                    same_node(nodes@[k], ui.nodes@[k])
                },
        decreases n - j,
    {
        let node: Node<N> = if hidden[j] {
            Node::new(NodeKind::Container, Style::default())
        } else {
            copy_node(&ui.nodes[j])
        };
        nodes.push(node);
        j = j + 1;
    }
    let layers: Vec<Layer> = copy_layers(&ui.layers);
    proof {
        assert forall|k: int| 0 <= k < n implies (#[trigger] nodes@[k]).children@
            == ui.nodes@[k].children@ || nodes@[k].children@.len() == 0 by {
            assert(if is_hidden(*ui, ui.layers@.len(), k) {
                is_tombstone(nodes@[k])
            } else {
                same_node(nodes@[k], ui.nodes@[k])
            });
        }
        lemma_pruned_is_forest(ui.nodes@, nodes@);
        assert forall|k: int| 0 <= k < layers@.len() implies (#[trigger] layers@[k]).root.0
            < nodes@.len() by {
            assert(ui.layers@[k].root.0 < ui.nodes@.len());
        }
    }
    Ui {
        nodes,
        layers,
        focus: ui.focus,
        dirty: ui.dirty,
        viewport: ui.viewport,
        auto_scroll: ui.auto_scroll,
        page_scroll_min: ui.page_scroll_min,
        page_scroll_max: ui.page_scroll_max,
        cursor: ui.cursor,
        mouse_down: ui.mouse_down,
    }
}

} // verus!
