//! The designer's own window: where its parts are in its tree.

use vstd::prelude::*;
use vstd::string::*;
use crate::designer::nodes::{
    buttons_in, field_of, fill_field, filled, preorder, text_of_field, ui_model, with_field,
    with_focus, Want,
};
use crate::toolkit::arena::{
    hit_layers, id_of, is_live, is_tombstone, lemma_same_tree_is_forest, rank_of, ranked, reaches,
    same_tree, Node, NodeId, NodeKind, Ui,
};
use crate::toolkit::geometry::{inset_rect, Rect};
use crate::toolkit::num::Num;
use crate::toolkit::style::{
    compute_effective, overlaid, same_style, state_style, width_style, Style, StyleVariants,
};

verus! {

/// The designer's own interface, with the text fields in it that are named: the
/// prompt, and the editor.
pub struct Chrome<N> {
    pub ui: Ui<N>,
    pub new_item_node: NodeId,
    pub editor_node: NodeId,
}

/// The first text field from node `i` on.
pub open spec fn text_field_from<N>(nodes: Seq<Node<N>>, i: int) -> Option<int>
    decreases nodes.len() - i,
{
    if 0 <= i < nodes.len() {
        if nodes[i].kind is TextInput {
            Some(i)
        } else {
            text_field_from(nodes, i + 1)
        }
    } else {
        None
    }
}

fn find_text_field<N: Num>(ui: &Ui<N>, from: usize) -> (r: Option<usize>)
    requires
        from <= ui.nodes@.len(),
    ensures
        match r {
            Some(i) => text_field_from(ui.nodes@, from as int) == Some(i as int) && from <= i
                < ui.nodes@.len() && ui.nodes@[i as int].kind is TextInput,
            None => text_field_from(ui.nodes@, from as int) is None,
        },
{
    let mut i: usize = from;
    while i < ui.nodes.len()
        invariant
            from <= i <= ui.nodes@.len(),
            text_field_from(ui.nodes@, i as int) == text_field_from(ui.nodes@, from as int),
        decreases ui.nodes@.len() - i,
    {
        if let NodeKind::TextInput { .. } = &ui.nodes[i].kind {
            return Some(i);
        }
        i = i + 1;
    }
    None
}

/// The `k`th child of node `id`.
pub open spec fn nth_child<N>(nodes: Seq<Node<N>>, id: NodeId, k: int) -> NodeId {
    nodes[id.0 as int].children@[k]
}

/// The node whose children are the columns of the window.
pub open spec fn root_of<N>(ui: Ui<N>) -> NodeId {
    ui.layers@[0].root
}

/// The last child of node `id`.
pub open spec fn last_child<N>(nodes: Seq<Node<N>>, id: NodeId) -> NodeId {
    nodes[id.0 as int].children@.last()
}

impl<N: Num> Chrome<N> {
    /// The prompt and the editor are two text fields of a well-formed interface.
    pub open spec fn wf(&self) -> bool {
        &&& self.ui.wf()
        &&& self.ui.nodes@.len() <= 0x1_0000_0000
        &&& self.new_item_node.0 < self.ui.nodes@.len()
        &&& self.editor_node.0 < self.ui.nodes@.len()
        &&& self.new_item_node != self.editor_node
        &&& self.ui.nodes@[self.new_item_node.0 as int].kind is TextInput
        &&& self.ui.nodes@[self.editor_node.0 as int].kind is TextInput
    }

    /// The interface has the regions that the designer looks for: the popup, the
    /// context menu, the tab strip in the middle column, and the inspector's rows
    /// in the right one.
    pub open spec fn has_regions(&self) -> bool {
        let nodes = self.ui.nodes@;
        &&& self.ui.layers@.len() > 0
        &&& nodes[root_of(self.ui).0 as int].children@.len() >= 5
        &&& nodes[nth_child(nodes, root_of(self.ui), 3).0 as int].children@.len() >= 1
        &&& nodes[nth_child(nodes, root_of(self.ui), 4).0 as int].children@.len() >= 2
    }

    /// Well-formed, with all its regions.
    pub open spec fn ready(&self) -> bool {
        self.wf() && self.has_regions()
    }

    /// Whether the interface is well-formed and has all the regions.
    pub fn is_ready(&self) -> (r: bool)
        ensures
            r == self.ready(),
    {
        let n: usize = self.ui.nodes.len();
        let prompt: usize = self.new_item_node.0 as usize;
        let editor: usize = self.editor_node.0 as usize;
        if n as u64 > 0x1_0000_0000 || prompt >= n || editor >= n || prompt == editor {
            return false;
        }
        let fields: bool = matches!(&self.ui.nodes[prompt].kind, NodeKind::TextInput { .. })
            && matches!(&self.ui.nodes[editor].kind, NodeKind::TextInput { .. });
        if !fields || !self.ui.is_well_formed() || self.ui.layers.len() == 0 {
            return false;
        }
        let root: NodeId = self.ui.layers[0].root;
        if self.ui.get(root).children.len() < 5 {
            return false;
        }
        let middle: NodeId = self.child_at(root, 3);
        let right: NodeId = self.child_at(root, 4);
        self.ui.get(middle).children.len() >= 1 && self.ui.get(right).children.len() >= 2
    }

    /// Looks the prompt and the editor up in the designer's interface: its first
    /// two text fields.
    pub fn load(ui: Ui<N>) -> (r: Result<Chrome<N>, String>)
        requires
            ui.wf(),
            ui.nodes@.len() <= 0x1_0000_0000,
        ensures
            match text_field_from(ui.nodes@, 0) {
                Some(a) => match text_field_from(ui.nodes@, a + 1) {
                    Some(b) => r is Ok && r->Ok_0.ui == ui && r->Ok_0.new_item_node.0 == a
                        && r->Ok_0.editor_node.0 == b && r->Ok_0.wf(),
                    None => r is Err && r->Err_0@
                        == "designer.nowui has no TextInput for the editor"@,
                },
                None => r is Err && r->Err_0@
                    == "designer.nowui has no TextInput for the new-item prompt"@,
            },
    {
        let _ = ui.nodes.len();
        match find_text_field(&ui, 0) {
            Some(a) => match find_text_field(&ui, a + 1) {
                Some(b) => Ok(
                    Chrome { ui, new_item_node: NodeId(a as u32), editor_node: NodeId(b as u32) },
                ),
                None => Err("designer.nowui has no TextInput for the editor".to_owned()),
            },
            None => Err("designer.nowui has no TextInput for the new-item prompt".to_owned()),
        }
    }

    /// Sweeps what a rebuild left behind: ids are handed out once, so there are more
    /// nodes than the `len_before` there were exactly if something was rebuilt. Returns
    /// whether it was.
    pub fn refresh(&mut self, len_before: usize) -> (r: bool)
        requires
            old(self).ui.wf(),
        ensures
            final(self).ui.wf(),
            r == (old(self).ui.nodes@.len() != len_before),
            !r ==> *final(self) == *old(self),
            r ==> is_swept(old(self).ui, final(self).ui),
            *final(self) == (Chrome { ui: final(self).ui, ..*old(self) }),
    {
        let rebuilt: bool = self.ui.nodes.len() != len_before;
        if rebuilt {
            self.ui.gc();
        }
        rebuilt
    }

    /// The editor's text.
    pub fn editor_text(&self) -> (r: &str)
        requires
            self.wf(),
        ensures
            r@ == field_of(ui_model(self.ui), self.editor_node).text,
    {
        text_of_field(&self.ui, self.editor_node)
    }

    /// The prompt's text.
    pub fn new_item_text(&self) -> (r: &str)
        requires
            self.wf(),
        ensures
            r@ == field_of(ui_model(self.ui), self.new_item_node).text,
    {
        text_of_field(&self.ui, self.new_item_node)
    }

    /// Puts `text` into the editor, with the caret at its end.
    pub fn set_editor_text(&mut self, text: &str)
        requires
            old(self).ready(),
        ensures
            final(self).ready(),
            final(self).new_item_node == old(self).new_item_node,
            final(self).editor_node == old(self).editor_node,
            ui_model(final(self).ui) == with_field(
                ui_model(old(self).ui),
                old(self).editor_node,
                filled(text@),
            ),
    {
        fill_field(&mut self.ui, self.editor_node, text);
        proof {
            lemma_ready_kept(*old(self), *self);
        }
    }

    /// Puts `text` into the prompt, with the caret at its end.
    pub fn set_new_item_text(&mut self, text: &str)
        requires
            old(self).ready(),
        ensures
            final(self).ready(),
            final(self).new_item_node == old(self).new_item_node,
            final(self).editor_node == old(self).editor_node,
            ui_model(final(self).ui) == with_field(
                ui_model(old(self).ui),
                old(self).new_item_node,
                filled(text@),
            ),
    {
        fill_field(&mut self.ui, self.new_item_node, text);
        proof {
            lemma_ready_kept(*old(self), *self);
        }
    }

    /// Gives the focus to `id`, or takes it away.
    pub fn set_focus(&mut self, id: Option<NodeId>)
        requires
            old(self).ready(),
            id matches Some(f) ==> f.0 < old(self).ui.nodes@.len(),
        ensures
            final(self).ready(),
            final(self).new_item_node == old(self).new_item_node,
            final(self).editor_node == old(self).editor_node,
            ui_model(final(self).ui) == with_focus(ui_model(old(self).ui), id),
    {
        self.ui.focus = id;
        proof {
            lemma_ready_kept(*old(self), *self);
        }
    }

    /// The buttons below node `id`.
    pub open spec fn region_buttons(&self, id: NodeId) -> Seq<NodeId> {
        preorder(self.ui.nodes@, rank_of(self.ui.nodes@), id, Want::Buttons)
    }

    pub open spec fn popup_region(&self) -> NodeId {
        nth_child(self.ui.nodes@, root_of(self.ui), 0)
    }

    pub open spec fn menu_region(&self) -> NodeId {
        nth_child(self.ui.nodes@, root_of(self.ui), 1)
    }

    pub open spec fn tab_region(&self) -> NodeId {
        nth_child(self.ui.nodes@, nth_child(self.ui.nodes@, root_of(self.ui), 3), 0)
    }

    pub open spec fn field_region(&self) -> NodeId {
        nth_child(self.ui.nodes@, nth_child(self.ui.nodes@, root_of(self.ui), 4), 1)
    }

    /// The child `k` of node `id`, which has one.
    fn child_at(&self, id: NodeId, k: usize) -> (r: NodeId)
        requires
            self.ui.wf(),
            id.0 < self.ui.nodes@.len(),
            k < self.ui.nodes@[id.0 as int].children@.len(),
        ensures
            r == nth_child(self.ui.nodes@, id, k as int),
            r.0 < self.ui.nodes@.len(),
    {
        let node: &Node<N> = self.ui.get(id);
        let c: NodeId = node.children[k];
        assert(ranked(self.ui.nodes@, rank_of(self.ui.nodes@)));
        assert(self.ui.nodes@[id.0 as int].children@[k as int] == c);
        c
    }

    /// The buttons of the name prompt.
    pub fn popup_buttons(&self) -> (r: Vec<NodeId>)
        requires
            self.wf(),
            self.has_regions(),
        ensures
            r@ == self.region_buttons(self.popup_region()),
    {
        let root: NodeId = self.ui.layers[0].root;
        buttons_in(&self.ui, self.child_at(root, 0))
    }

    /// The buttons of the context menu.
    pub fn context_menu_buttons(&self) -> (r: Vec<NodeId>)
        requires
            self.wf(),
            self.has_regions(),
        ensures
            r@ == self.region_buttons(self.menu_region()),
    {
        let root: NodeId = self.ui.layers[0].root;
        buttons_in(&self.ui, self.child_at(root, 1))
    }

    /// The buttons of the tab strip.
    pub fn tab_strip_buttons(&self) -> (r: Vec<NodeId>)
        requires
            self.wf(),
            self.has_regions(),
        ensures
            r@ == self.region_buttons(self.tab_region()),
    {
        let root: NodeId = self.ui.layers[0].root;
        let middle: NodeId = self.child_at(root, 3);
        buttons_in(&self.ui, self.child_at(middle, 0))
    }

    /// The inspector's rows.
    pub fn inspector_field_buttons(&self) -> (r: Vec<NodeId>)
        requires
            self.wf(),
            self.has_regions(),
        ensures
            r@ == self.region_buttons(self.field_region()),
    {
        let root: NodeId = self.ui.layers[0].root;
        let right: NodeId = self.child_at(root, 4);
        buttons_in(&self.ui, self.child_at(right, 1))
    }

    /// Where the preview shows: the last node of the last column, inside its
    /// padding.
    pub fn preview_slot_rect(&self) -> (r: Rect<N>)
        requires
            self.ui.wf(),
            self.ui.layers@.len() > 0,
            self.ui.nodes@[root_of(self.ui).0 as int].children@.len() > 0,
            self.ui.nodes@[last_child(self.ui.nodes@, root_of(self.ui)).0 as int].children@.len()
                > 0,
        ensures
            ({
                let column = last_child(self.ui.nodes@, root_of(self.ui));
                let slot = self.ui.nodes@[last_child(self.ui.nodes@, column).0 as int];
                r == inset_rect(slot.computed, slot.style.padding)
            }),
    {
        let root: NodeId = self.ui.layers[0].root;
        let column: NodeId = self.child_at(root, self.ui.get(root).children.len() - 1);
        let slot_id: NodeId = self.child_at(column, self.ui.get(column).children.len() - 1);
        let slot: &Node<N> = self.ui.get(slot_id);
        slot.computed.inset(slot.style.padding)
    }
}

/// `after` is `before` with only the nodes in use left.
pub open spec fn is_swept<N: Num>(before: Ui<N>, after: Ui<N>) -> bool {
    &&& after.nodes@.len() == before.nodes@.len()
    &&& forall|i: int|
        0 <= i < after.nodes@.len() ==> if is_live(before, i) {
            #[trigger] after.nodes@[i] == before.nodes@[i]
        } else {
            is_tombstone(after.nodes@[i])
        }
    &&& after == (Ui { nodes: after.nodes, ..before })
}

/// A change that keeps the tree and the two text fields keeps the chrome ready.
pub proof fn lemma_ready_kept<N: Num>(before: Chrome<N>, after: Chrome<N>)
    requires
        before.ready(),
        after.ui.wf(),
        after.new_item_node == before.new_item_node,
        after.editor_node == before.editor_node,
        after.ui.layers == before.ui.layers,
        same_tree(before.ui.nodes@, after.ui.nodes@),
        after.ui.nodes@[after.new_item_node.0 as int].kind is TextInput,
        after.ui.nodes@[after.editor_node.0 as int].kind is TextInput,
    ensures
        after.ready(),
{
    let a = before.ui.nodes@;
    let b = after.ui.nodes@;
    let root = root_of(before.ui);
    assert(ranked(a, rank_of(a)));
    assert(before.ui.layers@[0].root.0 < a.len());
    assert(a[root.0 as int].children@ == b[root.0 as int].children@);
    let middle = a[root.0 as int].children@[3];
    let right = a[root.0 as int].children@[4];
    assert(middle.0 < a.len() && right.0 < a.len());
    assert(a[middle.0 as int].children@ == b[middle.0 as int].children@);
    assert(a[right.0 as int].children@ == b[right.0 as int].children@);
}

/// `r` is the effective style of a node in the given state.
pub open spec fn is_effective<N: Num>(
    base: Style<N>,
    variants: StyleVariants<N>,
    viewport_w: int,
    hovered: bool,
    focused: bool,
    r: Style<N>,
) -> bool {
    match state_style(variants, hovered, focused, false) {
        Some(v) => overlaid(width_style(base, variants, viewport_w), base, v, r),
        None => same_style(r, width_style(base, variants, viewport_w)),
    }
}

/// Node `i` is in the tree of one of the first `n` layers.
pub open spec fn in_layers<N: Num>(ui: Ui<N>, n: nat, i: int) -> bool {
    exists|l: int|
        0 <= l < n && reaches(
            ui.nodes@,
            rank_of(ui.nodes@),
            (#[trigger] ui.layers@[l]).root.0 as int,
            i,
        )
}

/// `after` is `before` with the effective style in place.
pub open spec fn restyled<N: Num>(ui: Ui<N>, i: int, after: Node<N>) -> bool {
    let before = ui.nodes@[i];
    &&& after == (Node { style: after.style, ..before })
    &&& is_effective(
        before.base_style,
        before.variants,
        N::index_of(ui.viewport.w) as int,
        hit_layers(ui, ui.layers@.len(), ui.cursor) == Some(i),
        ui.focus matches Some(f) && f.0 == i,
        after.style,
    )
}

/// Gives every node that is shown its effective style: of the width of the window,
/// of the node under the mouse, and of the one that has the focus.
pub fn apply_effective_styles<N: Num>(ui: &mut Ui<N>)
    requires
        old(ui).wf(),
        old(ui).nodes@.len() <= 0x1_0000_0000,
        N::index_of(old(ui).viewport.w) <= i64::MAX,
    ensures
        final(ui).wf(),
        final(ui).nodes@.len() == old(ui).nodes@.len(),
        *final(ui) == (Ui { nodes: final(ui).nodes, ..*old(ui) }),
        forall|i: int|
            0 <= i < old(ui).nodes@.len() ==> if in_layers(*old(ui), old(ui).layers@.len(), i) {
                restyled(*old(ui), i, #[trigger] final(ui).nodes@[i])
            } else {
                final(ui).nodes@[i] == old(ui).nodes@[i]
            },
{
    let ghost before = *ui;
    let viewport_w: i64 = ui.viewport.w.to_index() as i64;
    let hovered: Option<NodeId> = ui.hit_test(ui.cursor);
    let n: usize = ui.nodes.len();
    let mut live: Vec<bool> = Vec::new();
    let mut i: usize = 0;
    while i < n
        invariant
            0 <= i <= n,
            live@.len() == i,
            forall|k: int| 0 <= k < i ==> !#[trigger] live@[k],
        decreases n - i,
    {
        live.push(false);
        i = i + 1;
    }
    let mut l: usize = 0;
    while l < ui.layers.len()
        invariant
            0 <= l <= ui.layers@.len(),
            *ui == before,
            before.wf(),
            live@.len() == before.nodes@.len(),
            forall|k: int|
                0 <= k < live@.len() ==> #[trigger] live@[k] == in_layers(before, l as nat, k),
        decreases ui.layers@.len() - l,
    {
        let ghost marked = live@;
        let root: NodeId = ui.layers[l].root;
        assert(ui.layers@[l as int].root.0 < ui.nodes@.len());
        ui.mark(root, &mut live);
        proof {
            assert forall|k: int| 0 <= k < live@.len() implies #[trigger] live@[k] == in_layers(
                before,
                (l + 1) as nat,
                k,
            ) by {
                assert(marked[k] == in_layers(before, l as nat, k));
                let rank = rank_of(before.nodes@);
                if reaches(before.nodes@, rank, root.0 as int, k) {
                    assert(reaches(
                        before.nodes@,
                        rank,
                        before.layers@[l as int].root.0 as int,
                        k,
                    ));
                }
                if in_layers(before, l as nat, k) {
                    let w = choose|w: int|
                        0 <= w < l && reaches(
                            before.nodes@,
                            rank,
                            (#[trigger] before.layers@[w]).root.0 as int,
                            k,
                        );
                    assert(0 <= w < l + 1);
                }
            }
        }
        l = l + 1;
    }
    let mut j: usize = 0;
    while j < n
        invariant
            0 <= j <= n,
            n == before.nodes@.len(),
            n <= 0x1_0000_0000,
            n == ui.nodes@.len(),
            live@.len() == n,
            viewport_w as int == N::index_of(before.viewport.w) as int,
            id_of(hovered) == hit_layers(before, before.layers@.len(), before.cursor),
            *ui == (Ui { nodes: ui.nodes, ..before }),
            forall|k: int|
                0 <= k < n ==> #[trigger] live@[k] == in_layers(before, before.layers@.len(), k),
            forall|k: int|
                0 <= k < j ==> if in_layers(before, before.layers@.len(), k) {
                    restyled(before, k, #[trigger] ui.nodes@[k])
                } else {
                    ui.nodes@[k] == before.nodes@[k]
                },
            forall|k: int| j <= k < n ==> #[trigger] ui.nodes@[k] == before.nodes@[k],
        decreases n - j,
    {
        if live[j] {
            let is_hovered: bool = match hovered {
                Some(h) => h.0 as usize == j,
                None => false,
            };
            let is_focused: bool = match ui.focus {
                Some(f) => f.0 as usize == j,
                None => false,
            };
            let style: Style<N> = compute_effective(
                &ui.nodes[j].base_style,
                &ui.nodes[j].variants,
                viewport_w,
                is_hovered,
                is_focused,
                false,
            );
            ui.nodes[j].style = style;
            assert(restyled(before, j as int, ui.nodes@[j as int]));
        }
        j = j + 1;
    }
    proof {
        assert(same_tree(before.nodes@, ui.nodes@)) by {
            assert forall|k: int| 0 <= k < n implies (#[trigger] before.nodes@[k]).children@
                == ui.nodes@[k].children@ by {
                if in_layers(before, before.layers@.len(), k) {
                    assert(restyled(before, k, ui.nodes@[k]));
                }
            }
        }
        lemma_same_tree_is_forest(before.nodes@, ui.nodes@);
    }
}

} // verus!
