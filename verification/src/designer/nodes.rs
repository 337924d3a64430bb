//! Walking the nodes of an interface, and what is done to them.

use vstd::prelude::*;
use vstd::string::*;
use crate::designer::editor::{blank_kind, edit_text_input, edited, node_field, FieldState, Key};
use crate::toolkit::arena::{
    hit_path_layers, ids_of, law_chain_is_under_point, lemma_same_tree_is_forest, rank_of, ranked,
    same_tree, Layer, Node, NodeId, NodeKind, Ui,
};
use crate::toolkit::geometry::{holds_point, Point, Rect, Size};
use crate::toolkit::canvas::Op;
use crate::toolkit::paint::dropdown_popup_ops;
use crate::toolkit::num::{clamp, clamp_of, whole, Num};
use crate::toolkit::style::{dropdown_metrics, dropdown_sizes};
use crate::toolkit::text_input::char_len;

verus! {

// ---- walking the tree ----

/// Which nodes a walk is after.
#[derive(Debug, Clone, Copy, PartialEq, Eq, Structural)]
pub enum Want {
    Buttons,
    TreeRows,
}

pub open spec fn is_wanted<N>(kind: NodeKind<N>, want: Want) -> bool {
    match want {
        Want::Buttons => kind is Button,
        Want::TreeRows => kind is TreeViewItem,
    }
}

fn wanted<N: Num>(kind: &NodeKind<N>, want: Want) -> (r: bool)
    ensures
        r == is_wanted(*kind, want),
{
    match want {
        Want::Buttons => matches!(kind, NodeKind::Button { .. }),
        Want::TreeRows => matches!(kind, NodeKind::TreeViewItem { .. }),
    }
}

/// The wanted nodes in the subtree of `id`, a node before its children, and those
/// in order.
pub open spec fn preorder<N>(
    nodes: Seq<Node<N>>,
    rank: spec_fn(int) -> nat,
    id: NodeId,
    want: Want,
) -> Seq<NodeId>
    decreases rank(id.0 as int), nodes[id.0 as int].children@.len() + 1,
{
    let own = if is_wanted(nodes[id.0 as int].kind, want) {
        seq![id]
    } else {
        Seq::empty()
    };
    own + preorder_below(nodes, rank, id, nodes[id.0 as int].children@.len(), want)
}

/// The same for the first `n` children of `id`.
pub open spec fn preorder_below<N>(
    nodes: Seq<Node<N>>,
    rank: spec_fn(int) -> nat,
    id: NodeId,
    n: nat,
    want: Want,
) -> Seq<NodeId>
    decreases rank(id.0 as int), n,
{
    if n == 0 {
        Seq::empty()
    } else {
        let c = nodes[id.0 as int].children@[n - 1];
        let rest = preorder_below(nodes, rank, id, (n - 1) as nat, want);
        if rank(c.0 as int) < rank(id.0 as int) {
            rest + preorder(nodes, rank, c, want)
        } else {
            rest
        }
    }
}

/// The wanted nodes in the first `n` layers.
pub open spec fn live_nodes<N: Num>(ui: Ui<N>, n: nat, want: Want) -> Seq<NodeId>
    decreases n,
{
    if n == 0 {
        Seq::empty()
    } else {
        live_nodes(ui, (n - 1) as nat, want) + preorder(
            ui.nodes@,
            rank_of(ui.nodes@),
            ui.layers@[n - 1].root,
            want,
        )
    }
}

fn walk<N: Num>(ui: &Ui<N>, id: NodeId, want: Want, out: &mut Vec<NodeId>)
    requires
        ui.wf(),
        id.0 < ui.nodes@.len(),
    ensures
        final(out)@ == old(out)@ + preorder(ui.nodes@, rank_of(ui.nodes@), id, want),
    decreases rank_of(ui.nodes@)(id.0 as int),
{
    let ghost nodes = ui.nodes@;
    let ghost rank = rank_of(nodes);
    let ghost start = out@;
    let node: &Node<N> = ui.get(id);
    if wanted(&node.kind, want) {
        out.push(id);
    }
    let ghost own = out@;
    let mut n: usize = 0;
    assert(own + preorder_below(nodes, rank, id, 0, want) =~= own);
    while n < node.children.len()
        invariant
            0 <= n <= node.children@.len(),
            ui.wf(),
            nodes == ui.nodes@,
            rank == rank_of(nodes),
            id.0 < nodes.len(),
            *node == nodes[id.0 as int],
            out@ == own + preorder_below(nodes, rank, id, n as nat, want),
        decreases node.children@.len() - n,
    {
        let c: NodeId = node.children[n];
        assert(ranked(nodes, rank));
        assert(nodes[id.0 as int].children@[n as int] == c);
        walk(ui, c, want, out);
        n = n + 1;
        assert(out@ =~= own + preorder_below(nodes, rank, id, n as nat, want));
    }
    assert(out@ =~= start + preorder(nodes, rank, id, want));
}

/// The wanted nodes that are shown: in the order of the layers, and in each as its
/// tree has them.
pub fn live_nodes_matching<N: Num>(ui: &Ui<N>, want: Want) -> (r: Vec<NodeId>)
    requires
        ui.wf(),
    ensures
        r@ == live_nodes(*ui, ui.layers@.len(), want),
{
    let mut out: Vec<NodeId> = Vec::new();
    let mut l: usize = 0;
    assert(out@ =~= live_nodes(*ui, 0, want));
    while l < ui.layers.len()
        invariant
            0 <= l <= ui.layers@.len(),
            ui.wf(),
            out@ == live_nodes(*ui, l as nat, want),
        decreases ui.layers@.len() - l,
    {
        assert(ui.layers@[l as int].root.0 < ui.nodes@.len());
        walk(ui, ui.layers[l].root, want, &mut out);
        l = l + 1;
    }
    out
}

/// The nodes that a walk finds are in range.
pub proof fn lemma_live_in_range<N: Num>(ui: Ui<N>, n: nat, want: Want)
    requires
        ui.wf(),
        n <= ui.layers@.len(),
    ensures
        forall|k: int|
            0 <= k < live_nodes(ui, n, want).len() ==> (#[trigger] live_nodes(ui, n, want)[k]).0
                < ui.nodes@.len(),
    decreases n,
{
    if n > 0 {
        lemma_live_in_range(ui, (n - 1) as nat, want);
        assert(ui.layers@[n - 1].root.0 < ui.nodes@.len());
        assert(ranked(ui.nodes@, rank_of(ui.nodes@)));
        lemma_preorder_in_range(ui.nodes@, rank_of(ui.nodes@), ui.layers@[n - 1].root, want);
        let rest = live_nodes(ui, (n - 1) as nat, want);
        let more = preorder(ui.nodes@, rank_of(ui.nodes@), ui.layers@[n - 1].root, want);
        assert(live_nodes(ui, n, want) == rest + more);
    }
}

proof fn lemma_preorder_in_range<N>(
    nodes: Seq<Node<N>>,
    rank: spec_fn(int) -> nat,
    id: NodeId,
    want: Want,
)
    requires
        ranked(nodes, rank),
        id.0 < nodes.len(),
    ensures
        forall|k: int|
            0 <= k < preorder(nodes, rank, id, want).len() ==> (#[trigger] preorder(
                nodes,
                rank,
                id,
                want,
            )[k]).0 < nodes.len(),
    decreases rank(id.0 as int), nodes[id.0 as int].children@.len() + 1,
{
    let n = nodes[id.0 as int].children@.len();
    lemma_preorder_below_in_range(nodes, rank, id, n, want);
    let more = preorder_below(nodes, rank, id, n, want);
    let all = preorder(nodes, rank, id, want);
    let own = if is_wanted(nodes[id.0 as int].kind, want) {
        seq![id]
    } else {
        Seq::empty()
    };
    assert(all == own + more);
    assert forall|k: int| 0 <= k < all.len() implies (#[trigger] all[k]).0 < nodes.len() by {
        if k >= own.len() {
            assert(all[k] == more[k - own.len()]);
        }
    }
}

proof fn lemma_preorder_below_in_range<N>(
    nodes: Seq<Node<N>>,
    rank: spec_fn(int) -> nat,
    id: NodeId,
    n: nat,
    want: Want,
)
    requires
        ranked(nodes, rank),
        id.0 < nodes.len(),
        n <= nodes[id.0 as int].children@.len(),
    ensures
        forall|k: int|
            0 <= k < preorder_below(nodes, rank, id, n, want).len() ==> (#[trigger] preorder_below(
                nodes,
                rank,
                id,
                n,
                want,
            )[k]).0 < nodes.len(),
    decreases rank(id.0 as int), n,
{
    if n > 0 {
        let c = nodes[id.0 as int].children@[n - 1];
        lemma_preorder_below_in_range(nodes, rank, id, (n - 1) as nat, want);
        lemma_preorder_in_range(nodes, rank, c, want);
        let rest = preorder_below(nodes, rank, id, (n - 1) as nat, want);
        let more = preorder(nodes, rank, c, want);
        assert(preorder_below(nodes, rank, id, n, want) == rest + more);
    }
}

/// The buttons in the subtree of `container`.
pub fn buttons_in<N: Num>(ui: &Ui<N>, container: NodeId) -> (r: Vec<NodeId>)
    requires
        ui.wf(),
        container.0 < ui.nodes@.len(),
    ensures
        r@ == preorder(ui.nodes@, rank_of(ui.nodes@), container, Want::Buttons),
{
    let mut out: Vec<NodeId> = Vec::new();
    walk(ui, container, Want::Buttons, &mut out);
    assert(out@ =~= preorder(ui.nodes@, rank_of(ui.nodes@), container, Want::Buttons));
    out
}

/// Where `id` stands among the first `n` of `ids`, the last place it does.
pub open spec fn last_position_of(ids: Seq<NodeId>, id: NodeId, n: nat) -> Option<usize>
    decreases n,
{
    if n == 0 {
        None
    } else if ids[n - 1] == id {
        Some((n - 1) as usize)
    } else {
        last_position_of(ids, id, (n - 1) as nat)
    }
}

pub fn last_position(ids: &Vec<NodeId>, id: NodeId) -> (r: Option<usize>)
    ensures
        r == last_position_of(ids@, id, ids@.len()),
        r matches Some(i) ==> i < ids@.len(),
{
    let mut n: usize = ids.len();
    while n > 0
        invariant
            0 <= n <= ids@.len(),
            last_position_of(ids@, id, n as nat) == last_position_of(ids@, id, ids@.len()),
        decreases n,
    {
        if ids[n - 1] == id {
            return Some(n - 1);
        }
        n = n - 1;
    }
    None
}

/// Where `id` stands in `ids`, from `i` on.
pub open spec fn position_from(ids: Seq<NodeId>, id: NodeId, i: int) -> Option<usize>
    decreases ids.len() - i,
{
    if 0 <= i < ids.len() {
        if ids[i] == id {
            Some(i as usize)
        } else {
            position_from(ids, id, i + 1)
        }
    } else {
        None
    }
}

pub fn position(ids: &Vec<NodeId>, id: NodeId) -> (r: Option<usize>)
    ensures
        r == position_from(ids@, id, 0),
        r matches Some(i) ==> i < ids@.len(),
{
    let mut i: usize = 0;
    while i < ids.len()
        invariant
            0 <= i <= ids@.len(),
            position_from(ids@, id, i as int) == position_from(ids@, id, 0),
        decreases ids@.len() - i,
    {
        if ids[i] == id {
            return Some(i);
        }
        i = i + 1;
    }
    None
}

// ---- the nodes, up to the identity of texts ----

/// A node: what a text field in it holds, and all the rest.
pub struct NodeModel<N> {
    pub field: FieldState,
    pub rest: Node<N>,
}

pub open spec fn node_model<N>(n: Node<N>) -> NodeModel<N> {
    NodeModel { field: node_field(n.kind), rest: Node { kind: blank_kind(n.kind), ..n } }
}

/// The model of a whole interface.
pub struct UiModel<N> {
    pub nodes: Seq<NodeModel<N>>,
    pub layers: Vec<Layer>,
    pub focus: Option<NodeId>,
    pub dirty: bool,
    pub viewport: Size<N>,
    pub auto_scroll: Point<N>,
    pub page_scroll_min: Point<N>,
    pub page_scroll_max: Point<N>,
    pub cursor: Point<N>,
    pub mouse_down: bool,
}

pub open spec fn node_models<N>(nodes: Seq<Node<N>>) -> Seq<NodeModel<N>> {
    nodes.map_values(|n: Node<N>| node_model(n))
}

pub open spec fn ui_model<N>(ui: Ui<N>) -> UiModel<N> {
    UiModel {
        nodes: node_models(ui.nodes@),
        layers: ui.layers,
        focus: ui.focus,
        dirty: ui.dirty,
        viewport: ui.viewport,
        auto_scroll: ui.auto_scroll,
        page_scroll_min: ui.page_scroll_min,
        page_scroll_max: ui.page_scroll_max,
        cursor: ui.cursor,
        mouse_down: ui.mouse_down,
    }
}

pub open spec fn with_node<N>(m: UiModel<N>, id: NodeId, n: NodeModel<N>) -> UiModel<N> {
    UiModel { nodes: m.nodes.update(id.0 as int, n), ..m }
}

pub open spec fn with_focus<N>(m: UiModel<N>, focus: Option<NodeId>) -> UiModel<N> {
    UiModel { focus, ..m }
}

/// The interface with `f` in text field `id`.
pub open spec fn with_field<N>(m: UiModel<N>, id: NodeId, f: FieldState) -> UiModel<N> {
    with_node(m, id, NodeModel { field: f, ..m.nodes[id.0 as int] })
}

/// What text field `id` holds.
pub open spec fn field_of<N>(m: UiModel<N>, id: NodeId) -> FieldState {
    m.nodes[id.0 as int].field
}

/// A field that holds `text`, with the caret at its end.
pub open spec fn filled(text: Seq<char>) -> FieldState {
    FieldState { text, cursor: text.len() as int, anchor: None }
}

/// A field that is put twice holds what was put last.
pub proof fn lemma_field_twice<N>(m: UiModel<N>, id: NodeId, a: FieldState, b: FieldState)
    requires
        id.0 < m.nodes.len(),
    ensures
        with_field(with_field(m, id, a), id, b) == with_field(m, id, b),
        field_of(with_field(m, id, a), id) == a,
{
    assert(with_field(with_field(m, id, a), id, b).nodes =~= with_field(m, id, b).nodes);
}

proof fn lemma_update_model<N>(nodes: Seq<Node<N>>, i: int, n: Node<N>)
    requires
        0 <= i < nodes.len(),
    ensures
        node_models(nodes.update(i, n)) == node_models(nodes).update(i, node_model(n)),
{
    assert(node_models(nodes.update(i, n)) =~= node_models(nodes).update(i, node_model(n)));
}

/// A change that keeps every node's children keeps the tree.
proof fn lemma_update_keeps_wf<N: Num>(before: Ui<N>, after: Ui<N>)
    requires
        before.wf(),
        after.nodes@.len() == before.nodes@.len(),
        after.layers == before.layers,
        after.focus matches Some(f) ==> f.0 < after.nodes@.len(),
        forall|i: int|
            0 <= i < before.nodes@.len() ==> (#[trigger] before.nodes@[i]).children
                == after.nodes@[i].children,
    ensures
        after.wf(),
{
    assert(same_tree(before.nodes@, after.nodes@));
    lemma_same_tree_is_forest(before.nodes@, after.nodes@);
}

/// A node that keeps its children and its kind keeps the rest as well.
pub proof fn lemma_node_changed<N: Num>(before: Ui<N>, after: Ui<N>, id: NodeId)
    requires
        before.wf(),
        id.0 < before.nodes@.len(),
        after.nodes@ == before.nodes@.update(id.0 as int, after.nodes@[id.0 as int]),
        after.nodes@[id.0 as int].children == before.nodes@[id.0 as int].children,
        after.nodes@[id.0 as int].kind == before.nodes@[id.0 as int].kind,
        after == (Ui { nodes: after.nodes, ..before }),
    ensures
        after.wf(),
        same_fields(before, after),
        ui_model(after) == with_node(
            ui_model(before),
            id,
            node_model(after.nodes@[id.0 as int]),
        ),
{
    lemma_update_model(before.nodes@, id.0 as int, after.nodes@[id.0 as int]);
    lemma_update_keeps_wf(before, after);
}

/// The tree is the same, and so is which nodes are text fields.
pub open spec fn same_fields<N>(before: Ui<N>, after: Ui<N>) -> bool {
    &&& same_tree(before.nodes@, after.nodes@)
    &&& after.layers == before.layers
    &&& forall|i: int|
        0 <= i < before.nodes@.len() ==> ((#[trigger] after.nodes@[i]).kind is TextInput
            <==> before.nodes@[i].kind is TextInput)
}

/// What a text field holds; nothing for any other node.
pub fn text_of_field<N: Num>(ui: &Ui<N>, id: NodeId) -> (r: &str)
    requires
        id.0 < ui.nodes@.len(),
    ensures
        r@ == field_of(ui_model(*ui), id).text,
{
    match &ui.get(id).kind {
        NodeKind::TextInput { label, .. } => label.as_str(),
        _ => {
            proof {
                reveal_strlit("");
                assert(""@ =~= Seq::<char>::empty());
            }
            ""
        },
    }
}

/// Puts `text` into text field `id`, with the caret at its end.
pub fn fill_field<N: Num>(ui: &mut Ui<N>, id: NodeId, text: &str)
    requires
        old(ui).wf(),
        id.0 < old(ui).nodes@.len(),
        old(ui).nodes@[id.0 as int].kind is TextInput,
    ensures
        final(ui).wf(),
        same_fields(*old(ui), *final(ui)),
        ui_model(*final(ui)) == with_field(ui_model(*old(ui)), id, filled(text@)),
{
    let ghost before = *ui;
    let len: usize = char_len(text);
    let owned: String = text.to_owned();
    let at: usize = id.0 as usize;
    match &mut ui.nodes[at].kind {
        NodeKind::TextInput { label, cursor, selection_anchor, .. } => {
            *label = owned;
            *cursor = len;
            *selection_anchor = None;
        },
        _ => {},
    }
    proof {
        lemma_update_model(before.nodes@, id.0 as int, ui.nodes@[id.0 as int]);
        assert(ui.nodes@ =~= before.nodes@.update(id.0 as int, ui.nodes@[id.0 as int]));
        lemma_update_keeps_wf(before, *ui);
    }
}

/// Puts the caret and the selection's other end of text field `id`.
pub fn place_caret<N: Num>(ui: &mut Ui<N>, id: NodeId, to: usize, anchor: Option<usize>)
    requires
        old(ui).wf(),
        id.0 < old(ui).nodes@.len(),
        old(ui).nodes@[id.0 as int].kind is TextInput,
    ensures
        final(ui).wf(),
        same_fields(*old(ui), *final(ui)),
        ui_model(*final(ui)) == with_field(
            ui_model(*old(ui)),
            id,
            (FieldState {
                text: field_of(ui_model(*old(ui)), id).text,
                cursor: to as int,
                anchor,
            }),
        ),
{
    let ghost before = *ui;
    let at: usize = id.0 as usize;
    match &mut ui.nodes[at].kind {
        NodeKind::TextInput { cursor, selection_anchor, .. } => {
            *cursor = to;
            *selection_anchor = anchor;
        },
        _ => {},
    }
    proof {
        lemma_update_model(before.nodes@, id.0 as int, ui.nodes@[id.0 as int]);
        assert(ui.nodes@ =~= before.nodes@.update(id.0 as int, ui.nodes@[id.0 as int]));
        lemma_update_keeps_wf(before, *ui);
    }
}

/// A key typed into text field `id`. Returns whether its text changed.
pub fn type_into<N: Num>(ui: &mut Ui<N>, id: NodeId, key: Key, text: Option<&str>, shift: bool) -> (r:
    bool)
    requires
        old(ui).wf(),
        id.0 < old(ui).nodes@.len(),
        old(ui).nodes@[id.0 as int].kind is TextInput,
        field_of(ui_model(*old(ui)), id).cursor < usize::MAX,
        text matches Some(t) ==> field_of(ui_model(*old(ui)), id).cursor + t@.len() <= usize::MAX,
    ensures
        final(ui).wf(),
        same_fields(*old(ui), *final(ui)),
        ({
            let typed = match text {
                Some(t) => Some(t@),
                None => None,
            };
            let e = edited(
                field_of(ui_model(*old(ui)), id),
                ui_model(*old(ui)).nodes[id.0 as int].rest.style.multiline,
                key,
                typed,
                shift,
            );
            ui_model(*final(ui)) == with_field(ui_model(*old(ui)), id, e.0) && r == e.1
        }),
{
    let ghost before = *ui;
    let r: bool = edit_text_input(ui, id, key, text, shift);
    proof {
        lemma_update_model(before.nodes@, id.0 as int, ui.nodes@[id.0 as int]);
        assert(ui.nodes@ =~= before.nodes@.update(id.0 as int, ui.nodes@[id.0 as int]));
        lemma_update_keeps_wf(before, *ui);
    }
    r
}

// ---- dropdowns ----

/// A kind with its option list shut.
pub open spec fn shut_kind<N>(kind: NodeKind<N>) -> NodeKind<N> {
    match kind {
        NodeKind::Dropdown { placeholder, options, selected, open } => NodeKind::Dropdown {
            placeholder,
            options,
            selected,
            open: false,
        },
        _ => kind,
    }
}

pub open spec fn shut_node<N>(n: NodeModel<N>) -> NodeModel<N> {
    NodeModel { field: n.field, rest: Node { kind: shut_kind(n.rest.kind), ..n.rest } }
}

/// The interface with every option list shut.
pub open spec fn all_shut<N>(m: UiModel<N>) -> UiModel<N> {
    UiModel { nodes: m.nodes.map_values(|n: NodeModel<N>| shut_node(n)), ..m }
}

/// Closes every open dropdown.
pub fn close_open_dropdowns<N: Num>(ui: &mut Ui<N>)
    requires
        old(ui).wf(),
    ensures
        final(ui).wf(),
        ui_model(*final(ui)) == all_shut(ui_model(*old(ui))),
        same_fields(*old(ui), *final(ui)),
{
    let ghost before = *ui;
    let mut i: usize = 0;
    while i < ui.nodes.len()
        invariant
            0 <= i <= ui.nodes@.len(),
            ui.nodes@.len() == before.nodes@.len(),
            *ui == (Ui { nodes: ui.nodes, ..before }),
            forall|k: int|
                0 <= k < i ==> #[trigger] ui.nodes@[k] == (Node {
                    kind: shut_kind(before.nodes@[k].kind),
                    ..before.nodes@[k]
                }),
            forall|k: int| i <= k < ui.nodes@.len() ==> #[trigger] ui.nodes@[k] == before.nodes@[k],
        decreases ui.nodes@.len() - i,
    {
        match &mut ui.nodes[i].kind {
            NodeKind::Dropdown { open, .. } => {
                *open = false;
            },
            _ => {},
        }
        i = i + 1;
    }
    proof {
        let want = all_shut(ui_model(before));
        assert forall|k: int| 0 <= k < before.nodes@.len() implies node_models(ui.nodes@)[k]
            == want.nodes[k] by {
            assert(ui.nodes@[k] == (Node {
                kind: shut_kind(before.nodes@[k].kind),
                ..before.nodes@[k]
            }));
        }
        assert(ui_model(*ui).nodes =~= want.nodes);
        lemma_update_keeps_wf(before, *ui);
    }
}

/// A kind with its option list open or shut.
pub open spec fn opened_kind<N>(kind: NodeKind<N>, to: bool) -> NodeKind<N> {
    match kind {
        NodeKind::Dropdown { placeholder, options, selected, open } => NodeKind::Dropdown {
            placeholder,
            options,
            selected,
            open: to,
        },
        _ => kind,
    }
}

pub open spec fn is_open<N>(kind: NodeKind<N>) -> bool {
    kind matches NodeKind::Dropdown { open, .. } && open
}

/// The interface once dropdown `id` was clicked: every other one is shut, and this
/// one is open if it was not.
pub open spec fn toggled_dropdown<N>(m: UiModel<N>, id: NodeId) -> UiModel<N> {
    let was = is_open(m.nodes[id.0 as int].rest.kind);
    let shut = all_shut(m);
    let n = shut.nodes[id.0 as int];
    with_node(
        shut,
        id,
        NodeModel { field: n.field, rest: Node { kind: opened_kind(n.rest.kind, !was), ..n.rest } },
    )
}

/// Opens dropdown `id`, or closes it if it is open; every other one is closed.
pub fn toggle_dropdown<N: Num>(ui: &mut Ui<N>, id: NodeId)
    requires
        old(ui).wf(),
        id.0 < old(ui).nodes@.len(),
    ensures
        final(ui).wf(),
        ui_model(*final(ui)) == toggled_dropdown(ui_model(*old(ui)), id),
        same_fields(*old(ui), *final(ui)),
{
    let was: bool = match &ui.get(id).kind {
        NodeKind::Dropdown { open, .. } => *open,
        _ => false,
    };
    let ghost start = *ui;
    close_open_dropdowns(ui);
    let ghost before = *ui;
    let at: usize = id.0 as usize;
    assert(node_models(start.nodes@)[id.0 as int] == node_model(start.nodes@[id.0 as int]));
    assert(ui_model(before).nodes.len() == before.nodes@.len());
    match &mut ui.nodes[at].kind {
        NodeKind::Dropdown { open, .. } => {
            *open = !was;
        },
        _ => {},
    }
    proof {
        lemma_update_model(before.nodes@, id.0 as int, ui.nodes@[id.0 as int]);
        assert(ui.nodes@ =~= before.nodes@.update(id.0 as int, ui.nodes@[id.0 as int]));
        lemma_update_keeps_wf(before, *ui);
    }
}

/// Where the option list of a dropdown shows, if it is open: below its box, and no
/// taller than `max_h`.
pub open spec fn popup_rect<N: Num>(node: Node<N>, max_h: N) -> Option<Rect<N>> {
    match node.kind {
        NodeKind::Dropdown { options, open, .. } => if open {
            let option_h = dropdown_sizes(node.style.font_size).1;
            Some(
                Rect {
                    x: node.computed.x,
                    y: N::add_of(node.computed.y, node.computed.h),
                    w: node.computed.w,
                    h: N::min_of(N::mul_of(option_h, N::count_of(options@.len())), max_h),
                },
            )
        } else {
            None
        },
        _ => None,
    }
}

/// Clicks and pixels agree: an open option list is hit where its panel is drawn, down
/// to the height that it is limited to.
pub proof fn law_option_list_is_hit_where_it_is_drawn<N: Num>(n: Node<N>, max_h: N)
    requires
        is_open(n.kind),
    ensures
        n.kind matches NodeKind::Dropdown { options, selected, .. } && popup_rect(
            n,
            max_h,
        ) matches Some(r) && dropdown_popup_ops(n, options@, selected)[0] matches Op::Fill(
            panel,
            _,
            _,
        ) && r == (Rect { h: N::min_of(panel.h, max_h), ..panel }),
{
}

/// The option list of dropdown `id`, if it is open.
pub fn dropdown_popup_rect<N: Num>(ui: &Ui<N>, id: NodeId, max_h: N) -> (r: Option<Rect<N>>)
    requires
        id.0 < ui.nodes@.len(),
    ensures
        r == popup_rect(ui.nodes@[id.0 as int], max_h),
{
    let node: &Node<N> = ui.get(id);
    match &node.kind {
        NodeKind::Dropdown { options, open, .. } => {
            if !*open {
                return None;
            }
            let (_, option_h) = dropdown_metrics(node.style.font_size);
            let rect: Rect<N> = node.computed;
            let h: N = option_h.times(N::count(options.len())).lesser_of(max_h);
            Some(Rect { x: rect.x, y: rect.y.plus(rect.h), w: rect.w, h })
        },
        _ => None,
    }
}

/// The option list of `n` is open and holds `p`.
pub open spec fn popup_holds<N: Num>(n: Node<N>, p: Point<N>, max_h: N) -> bool {
    popup_rect(n, max_h) matches Some(r) && holds_point(r, p)
}

/// The first dropdown from `i` on whose open option list holds `p`.
pub open spec fn popup_from<N: Num>(nodes: Seq<Node<N>>, p: Point<N>, max_h: N, i: int) -> Option<
    NodeId,
>
    decreases nodes.len() - i,
{
    if 0 <= i < nodes.len() {
        if popup_holds(nodes[i], p, max_h) {
            Some(NodeId(i as u32))
        } else {
            popup_from(nodes, p, max_h, i + 1)
        }
    } else {
        None
    }
}

/// The dropdown whose open option list holds `p`.
pub fn find_open_dropdown_popup_at<N: Num>(ui: &Ui<N>, p: Point<N>, max_h: N) -> (r: Option<NodeId>)
    requires
        ui.nodes@.len() <= 0x1_0000_0000,
    ensures
        r == popup_from(ui.nodes@, p, max_h, 0),
        r matches Some(id) ==> id.0 < ui.nodes@.len() && ui.nodes@[id.0 as int].kind is Dropdown,
{
    let mut i: usize = 0;
    while i < ui.nodes.len()
        invariant
            0 <= i <= ui.nodes@.len(),
            ui.nodes@.len() <= 0x1_0000_0000,
            popup_from(ui.nodes@, p, max_h, i as int) == popup_from(ui.nodes@, p, max_h, 0),
        decreases ui.nodes@.len() - i,
    {
        let id: NodeId = NodeId(i as u32);
        if let Some(r) = dropdown_popup_rect(ui, id, max_h) {
            if r.contains(p) {
                return Some(id);
            }
        }
        i = i + 1;
    }
    None
}

/// The row of dropdown `n`'s option list under `p`.
pub open spec fn row_at<N: Num>(n: Node<N>, p: Point<N>) -> usize {
    let top = N::add_of(n.computed.y, n.computed.h);
    let local_y = N::add_of(N::sub_of(p.y, top), n.scroll_offset.y);
    N::index_of(N::max_of(N::div_of(local_y, dropdown_sizes(n.style.font_size).1), whole(0)))
}

/// A dropdown once `row` was picked: the list is shut, and the row is chosen, if
/// there is one.
pub open spec fn picked_kind<N>(kind: NodeKind<N>, row: usize) -> NodeKind<N> {
    match kind {
        NodeKind::Dropdown { placeholder, options, selected, open } => NodeKind::Dropdown {
            placeholder,
            options,
            selected: if row < options@.len() {
                Some(row)
            } else {
                selected
            },
            open: false,
        },
        _ => kind,
    }
}

/// Whether dropdown `kind` has a row `row`.
pub open spec fn has_row<N>(kind: NodeKind<N>, row: usize) -> bool {
    kind matches NodeKind::Dropdown { options, .. } && row < options@.len()
}

/// The interface once `row` was picked in dropdown `id`.
pub open spec fn picked<N>(m: UiModel<N>, id: NodeId, row: usize) -> UiModel<N> {
    let n = m.nodes[id.0 as int];
    with_node(
        m,
        id,
        NodeModel { field: n.field, rest: Node { kind: picked_kind(n.rest.kind, row), ..n.rest } },
    )
}

/// Picks the row under `p` in the open option list of dropdown `id`, and closes the
/// list. Returns the row, if there is one.
pub fn select_dropdown_option<N: Num>(ui: &mut Ui<N>, id: NodeId, p: Point<N>) -> (r: Option<usize>)
    requires
        old(ui).wf(),
        id.0 < old(ui).nodes@.len(),
    ensures
        final(ui).wf(),
        same_fields(*old(ui), *final(ui)),
        ({
            let n = ui_model(*old(ui)).nodes[id.0 as int].rest;
            let row = row_at(n, p);
            &&& r == if has_row(n.kind, row) {
                Some(row)
            } else {
                None
            }
            &&& ui_model(*final(ui)) == picked(ui_model(*old(ui)), id, row)
        }),
{
    let ghost before = *ui;
    let node: &Node<N> = ui.get(id);
    let rect: Rect<N> = node.computed;
    let (_, option_h) = dropdown_metrics(node.style.font_size);
    let local_y: N = p.y.minus(rect.y.plus(rect.h)).plus(node.scroll_offset.y);
    let row: usize = local_y.over(option_h).greater_of(N::ratio(0, 1)).to_index();
    let at: usize = id.0 as usize;
    let mut row_picked: Option<usize> = None;
    match &mut ui.nodes[at].kind {
        NodeKind::Dropdown { options, selected, open, .. } => {
            if row < options.len() {
                *selected = Some(row);
                row_picked = Some(row);
            }
            *open = false;
        },
        _ => {},
    }
    proof {
        assert(ui.nodes@ =~= before.nodes@.update(id.0 as int, ui.nodes@[id.0 as int]));
        lemma_update_model(before.nodes@, id.0 as int, ui.nodes@[id.0 as int]);
        lemma_update_keeps_wf(before, *ui);
    }
    row_picked
}

// ---- tree rows and scrolling ----

/// A row of the tree, expanded if it was collapsed, and the other way round.
pub open spec fn flipped_kind<N>(kind: NodeKind<N>) -> NodeKind<N> {
    match kind {
        NodeKind::TreeViewItem {
            id,
            label,
            collapsed,
            selected,
            checkbox,
            show_folder_actions,
            icon,
        } => NodeKind::TreeViewItem {
            id,
            label,
            collapsed: !collapsed,
            selected,
            checkbox,
            show_folder_actions,
            icon,
        },
        _ => kind,
    }
}

/// The interface with the tree row `id` expanded, or collapsed.
pub open spec fn flipped<N>(m: UiModel<N>, id: NodeId) -> UiModel<N> {
    let n = m.nodes[id.0 as int];
    with_node(
        m,
        id,
        NodeModel { field: n.field, rest: Node { kind: flipped_kind(n.rest.kind), ..n.rest } },
    )
}

/// Expands the tree row `id`, or collapses it.
pub fn toggle_row<N: Num>(ui: &mut Ui<N>, id: NodeId)
    requires
        old(ui).wf(),
        id.0 < old(ui).nodes@.len(),
    ensures
        final(ui).wf(),
        same_fields(*old(ui), *final(ui)),
        ui_model(*final(ui)) == flipped(ui_model(*old(ui)), id),
{
    let ghost before = *ui;
    let at: usize = id.0 as usize;
    match &mut ui.nodes[at].kind {
        NodeKind::TreeViewItem { collapsed, .. } => {
            let was: bool = *collapsed;
            *collapsed = !was;
        },
        _ => {},
    }
    proof {
        assert(ui.nodes@ =~= before.nodes@.update(id.0 as int, ui.nodes@[id.0 as int]));
        lemma_update_model(before.nodes@, id.0 as int, ui.nodes@[id.0 as int]);
        lemma_update_keeps_wf(before, *ui);
    }
}

pub open spec fn scrolls<N>(n: Node<N>) -> bool {
    n.style.scroll_x || n.style.scroll_y
}

/// The innermost of the first `n` nodes of a chain that scrolls.
pub open spec fn scroller<N>(nodes: Seq<Node<N>>, chain: Seq<int>, n: nat) -> Option<int>
    decreases n,
{
    if n == 0 {
        None
    } else if scrolls(nodes[chain[n - 1]]) {
        Some(chain[n - 1])
    } else {
        scroller(nodes, chain, (n - 1) as nat)
    }
}

/// How far a node is panned once it was scrolled by `(dx, dy)`: along the axes that
/// it scrolls, and no further than its content goes.
pub open spec fn scrolled_offset<N: Num>(n: Node<N>, dx: N, dy: N) -> Point<N> {
    let max_x = N::max_of(N::sub_of(n.content_size.w, n.computed.w), whole(0));
    let max_y = N::max_of(N::sub_of(n.content_size.h, n.computed.h), whole(0));
    Point {
        x: if n.style.scroll_x {
            clamp_of(N::sub_of(n.scroll_offset.x, dx), whole(0), max_x)
        } else {
            n.scroll_offset.x
        },
        y: if n.style.scroll_y {
            clamp_of(N::sub_of(n.scroll_offset.y, dy), whole(0), max_y)
        } else {
            n.scroll_offset.y
        },
    }
}

/// The innermost node under `p` that scrolls.
pub open spec fn scroller_at<N: Num>(ui: Ui<N>, p: Point<N>) -> Option<int> {
    let chain = hit_path_layers(ui, ui.layers@.len(), p);
    scroller(ui.nodes@, chain, chain.len())
}

/// The interface once node `at` was scrolled.
pub open spec fn scrolled<N: Num>(m: UiModel<N>, at: Option<int>, dx: N, dy: N) -> UiModel<N> {
    match at {
        Some(i) => {
            let n = m.nodes[i];
            UiModel {
                nodes: m.nodes.update(
                    i,
                    NodeModel {
                        field: n.field,
                        rest: Node { scroll_offset: scrolled_offset(n.rest, dx, dy), ..n.rest },
                    },
                ),
                ..m
            }
        },
        None => m,
    }
}

/// Scrolls the innermost node under `p` that scrolls.
pub fn scroll_at<N: Num>(ui: &mut Ui<N>, p: Point<N>, dx: N, dy: N)
    requires
        old(ui).wf(),
    ensures
        final(ui).wf(),
        same_fields(*old(ui), *final(ui)),
        ui_model(*final(ui)) == scrolled(ui_model(*old(ui)), scroller_at(*old(ui), p), dx, dy),
{
    let ghost before = *ui;
    let chain: Vec<NodeId> = ui.hit_test_chain(p);
    let ghost path = hit_path_layers(before, before.layers@.len(), p);
    let mut n: usize = chain.len();
    proof {
        law_chain_is_under_point(before, before.layers@.len(), p);
    }
    while n > 0
        invariant
            0 <= n <= chain@.len(),
            *ui == before,
            before == *old(ui),
            before.wf(),
            path == hit_path_layers(before, before.layers@.len(), p),
            ids_of(chain@) == path,
            forall|k: int| 0 <= k < path.len() ==> 0 <= #[trigger] path[k] < before.nodes@.len(),
            scroller(before.nodes@, path, n as nat) == scroller(before.nodes@, path, path.len()),
        decreases n,
    {
        let id: NodeId = chain[n - 1];
        assert(path[n - 1] == id.0 as int);
        let node: &Node<N> = ui.get(id);
        let scroll_x: bool = node.style.scroll_x;
        let scroll_y: bool = node.style.scroll_y;
        if scroll_x || scroll_y {
            let content: Size<N> = node.content_size;
            let rect: Rect<N> = node.computed;
            let zero: N = N::ratio(0, 1);
            let mut offset: Point<N> = node.scroll_offset;
            if scroll_y {
                let max_y: N = content.h.minus(rect.h).greater_of(zero);
                offset.y = clamp(offset.y.minus(dy), zero, max_y);
            }
            if scroll_x {
                let max_x: N = content.w.minus(rect.w).greater_of(zero);
                offset.x = clamp(offset.x.minus(dx), zero, max_x);
            }
            let at: usize = id.0 as usize;
            ui.nodes[at].scroll_offset = offset;
            proof {
                assert(ui.nodes@ =~= before.nodes@.update(id.0 as int, ui.nodes@[id.0 as int]));
                lemma_update_model(before.nodes@, id.0 as int, ui.nodes@[id.0 as int]);
                lemma_update_keeps_wf(before, *ui);
            }
            return ;
        }
        n = n - 1;
    }
}

} // verus!
