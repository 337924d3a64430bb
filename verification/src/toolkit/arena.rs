//! The retained node arena. Nodes live in a flat `Vec` and reference each other
//! by index.
//!
//! A tree walk is well-founded if the nodes can be ranked so that every child
//! ranks below its parent ([`ranked`]), that is, if no node is its own
//! descendant. Every walk asks for that, and for ids that are in range.

use vstd::prelude::*;
use vstd::string::*;
use crate::assets::decode::{DecodedImage, Frame};
use crate::assoc::AssocMap;
use crate::toolkit::geometry::{holds_point, no_rect, no_size, origin, Point, Rect, Size};
use crate::toolkit::num::Num;
use crate::toolkit::style::{is_default_style, no_variants, same_style, Style, StyleVariants};

verus! {

#[derive(Debug, Clone, Copy, PartialEq, Eq, Hash, Structural)]
pub struct NodeId(pub u32);

/// A date picker's staged choice, and its list of years.
#[derive(Debug, Clone, Copy, PartialEq, Eq, Structural)]
pub struct DatePicker {
    pub staged_year: i32,
    pub staged_month: u32,
    pub staged_day: u32,
    pub year_list_open: bool,
    /// The first year of the page that the list shows.
    pub year_list_page_start: i32,
    /// The years that can be chosen.
    pub min_year: i32,
    pub max_year: i32,
}

/// Which half of a date-and-time popup shows.
#[derive(Debug, Clone, Copy, PartialEq, Eq, Structural)]
pub enum DateTimeTab {
    Calendar,
    Clock,
}

/// Which unit a clock dial sets.
#[derive(Debug, Clone, Copy, PartialEq, Eq, Structural)]
pub enum ClockMode {
    Hour,
    Minute,
    Second,
}

/// A time picker's staged choice.
#[derive(Debug, Clone, Copy, PartialEq, Eq, Structural)]
pub struct TimePicker {
    pub staged_hour: u32,
    pub staged_minute: u32,
    pub staged_second: u32,
    pub mode: ClockMode,
}

/// What a node actually is, after custom-widget expansion.
#[derive(Debug)]
pub enum NodeKind<N> {
    /// A layout container (row/column of children).
    Container,
    Text {
        content: String,
    },
    TextInput {
        label: String,
        placeholder: String,
        masked: bool,
        /// Caret position, in chars into `label`.
        cursor: usize,
        /// `Some(a)`: a selection spans the chars between `a` and `cursor`.
        selection_anchor: Option<usize>,
        /// In-progress input-method text, shown at the caret.
        ime_preview: String,
    },
    Button {
        label: String,
    },
    Checkbox {
        label: String,
        checked: bool,
    },
    /// A closed box, with an option list that floats below it while open.
    Dropdown {
        placeholder: String,
        options: Vec<String>,
        selected: Option<usize>,
        open: bool,
    },
    /// A draggable value picker, 0 to 1.
    Slider {
        value: N,
    },
    /// A read-only fill indicator, 0 to 1.
    ProgressBar {
        value: N,
    },
    /// A clickable header whose children float below it while open.
    Menu {
        label: String,
        open: bool,
    },
    /// An item of a menu.
    MenuItem {
        label: String,
    },
    Image {
        source: String,
        /// `None` while loading, or if decoding failed.
        decoded: Option<DecodedImage>,
        current_frame: usize,
        frame_elapsed_ms: N,
        error: Option<String>,
    },
    Icon {
        name: String,
        decoded: Option<Frame>,
        error: Option<String>,
    },
    Date {
        value: String,
        placeholder: String,
        open: bool,
        picker: DatePicker,
    },
    Time {
        value: String,
        placeholder: String,
        open: bool,
        picker: TimePicker,
    },
    DateTime {
        value: String,
        placeholder: String,
        open: bool,
        date_picker: DatePicker,
        time_picker: TimePicker,
        active_tab: DateTimeTab,
    },
    /// A table: a headers container, a rows container, then anything else.
    DataGrid,
    TreeView {
        has_checkbox_selection: bool,
        can_select_multiple: bool,
    },
    TreeViewItem {
        id: String,
        label: String,
        collapsed: bool,
        selected: bool,
        checkbox: bool,
        show_folder_actions: bool,
        icon: Option<Frame>,
    },
}

/// One part of a string with interpolations: literal text, or a dotted path.
#[derive(Debug)]
pub enum TemplatePart {
    Lit(String),
    Var(Vec<String>),
}

pub type Template = Vec<TemplatePart>;

pub struct Node<N> {
    pub kind: NodeKind<N>,
    /// As resolved once; never changed afterwards.
    pub base_style: Style<N>,
    /// The overlays on `base_style`.
    pub variants: StyleVariants<N>,
    /// This frame's effective style, which layout and painting read.
    pub style: Style<N>,
    pub children: Vec<NodeId>,
    /// Filled by the solver each layout pass.
    pub computed: Rect<N>,
    /// Filled by the solver: the extent of the content, or of a menu's popup.
    pub content_size: Size<N>,
    /// How far the content is panned.
    pub scroll_offset: Point<N>,
    /// Path into app state that holds this widget's value.
    pub value_path: Vec<String>,
    /// Event bindings: the path that each event calls.
    pub events: AssocMap<Vec<String>>,
    /// Strings with interpolations, by argument.
    pub templates: Vec<Template>,
    pub dirty: bool,
}

impl<N: Num> Node<N> {
    pub fn new(kind: NodeKind<N>, style: Style<N>) -> (r: Self)
        ensures
            r.kind == kind,
            r.style == style,
            same_style(r.base_style, style),
            no_variants(r.variants),
            r.children@.len() == 0,
            r.computed == no_rect::<N>(),
            r.content_size == no_size::<N>(),
            r.scroll_offset == origin::<N>(),
            r.value_path@.len() == 0,
            r.events.view() == Map::<Seq<char>, Vec<String>>::empty(),
            r.templates@.len() == 0,
            r.dirty,
    {
        let base_style: Style<N> = style.copy_style();
        Node {
            kind,
            base_style,
            variants: StyleVariants::default(),
            style,
            children: Vec::new(),
            computed: Rect::default(),
            content_size: Size::default(),
            scroll_offset: Point::default(),
            value_path: Vec::new(),
            events: AssocMap::new(),
            templates: Vec::new(),
            dirty: true,
        }
    }
}

/// A stacking layer: its own layout root, composited back-to-front.
#[derive(Debug)]
pub struct Layer {
    pub root: NodeId,
    pub name: String,
}

/// The whole retained UI: the node arena plus the ordered layer stack.
pub struct Ui<N> {
    pub nodes: Vec<Node<N>>,
    pub layers: Vec<Layer>,
    pub focus: Option<NodeId>,
    /// When set, the next redraw re-solves and repaints.
    pub dirty: bool,
    pub viewport: Size<N>,
    /// How far the whole page is panned to keep a popup in view.
    pub auto_scroll: Point<N>,
    pub page_scroll_min: Point<N>,
    pub page_scroll_max: Point<N>,
    /// Where the mouse is, and whether it is pressed.
    pub cursor: Point<N>,
    pub mouse_down: bool,
}

// ---- the tree ----

/// `rank` ranks every child below its parent, and every child is in range.
pub open spec fn ranked<N>(nodes: Seq<Node<N>>, rank: spec_fn(int) -> nat) -> bool {
    forall|i: int, k: int|
        0 <= i < nodes.len() && 0 <= k < nodes[i].children@.len() ==> {
            let c = (#[trigger] nodes[i].children@[k]).0;
            c < nodes.len() && rank(c as int) < rank(i)
        }
}

/// No node is its own descendant, and every child is in range.
pub open spec fn is_forest<N>(nodes: Seq<Node<N>>) -> bool {
    exists|rank: spec_fn(int) -> nat| ranked(nodes, rank)
}

/// A ranking of a forest.
pub open spec fn rank_of<N>(nodes: Seq<Node<N>>) -> spec_fn(int) -> nat {
    choose|rank: spec_fn(int) -> nat| ranked(nodes, rank)
}

/// Two lists of nodes have the same tree.
pub open spec fn same_tree<N>(a: Seq<Node<N>>, b: Seq<Node<N>>) -> bool {
    &&& a.len() == b.len()
    &&& forall|i: int| 0 <= i < a.len() ==> (#[trigger] a[i]).children@ == b[i].children@
}

/// Nodes with the tree of a forest are a forest.
pub proof fn lemma_same_tree_is_forest<N>(a: Seq<Node<N>>, b: Seq<Node<N>>)
    requires
        is_forest(a),
        same_tree(a, b),
    ensures
        is_forest(b),
{
    let rank = rank_of(a);
    assert(ranked(a, rank));
    assert forall|i: int, k: int|
        0 <= i < b.len() && 0 <= k < b[i].children@.len() implies ({
        let c = (#[trigger] b[i].children@[k]).0;
        c < b.len() && rank(c as int) < rank(i)
    }) by {
        assert(a[i].children@ == b[i].children@);
        assert(a[i].children@[k] == b[i].children@[k]);
    }
    assert(ranked(b, rank));
}

/// Nodes of a forest that keep their children or lose all of them are a forest.
pub proof fn lemma_pruned_is_forest<N>(a: Seq<Node<N>>, b: Seq<Node<N>>)
    requires
        is_forest(a),
        a.len() == b.len(),
        forall|i: int|
            0 <= i < a.len() ==> (#[trigger] b[i]).children@ == a[i].children@
                || b[i].children@.len() == 0,
    ensures
        is_forest(b),
{
    let rank = rank_of(a);
    assert(ranked(a, rank));
    assert forall|i: int, k: int|
        0 <= i < b.len() && 0 <= k < b[i].children@.len() implies ({
        let c = (#[trigger] b[i].children@[k]).0;
        c < b.len() && rank(c as int) < rank(i)
    }) by {
        assert(b[i].children@ == a[i].children@);
        assert(a[i].children@[k] == b[i].children@[k]);
    }
    assert(ranked(b, rank));
}

/// The `k`th child of node `i`.
pub open spec fn child<N>(nodes: Seq<Node<N>>, i: int, k: int) -> int {
    nodes[i].children@[k].0 as int
}

impl<N: Num> Ui<N> {
    /// The nodes form a forest, and roots and focus are in range.
    pub open spec fn wf(&self) -> bool {
        &&& is_forest(self.nodes@)
        &&& forall|i: int|
            0 <= i < self.layers@.len() ==> (#[trigger] self.layers@[i]).root.0 < self.nodes@.len()
        &&& self.focus matches Some(f) ==> f.0 < self.nodes@.len()
    }

    pub fn new() -> (r: Self)
        ensures
            r.nodes@.len() == 0,
            r.layers@.len() == 0,
            r.focus is None,
            r.dirty,
            r.viewport == no_size::<N>(),
            r.auto_scroll == origin::<N>(),
            r.page_scroll_min == origin::<N>(),
            r.page_scroll_max == origin::<N>(),
            r.cursor == origin::<N>(),
            !r.mouse_down,
            r.wf(),
    {
        let r = Ui {
            nodes: Vec::new(),
            layers: Vec::new(),
            focus: None,
            dirty: true,
            viewport: Size::default(),
            auto_scroll: Point::default(),
            page_scroll_min: Point::default(),
            page_scroll_max: Point::default(),
            cursor: Point::default(),
            mouse_down: false,
        };
        assert(ranked(r.nodes@, |i: int| 0nat));
        r
    }

    /// Appends a node; ids are handed out in order, and never again.
    pub fn push(&mut self, node: Node<N>) -> (id: NodeId)
        requires
            old(self).nodes@.len() <= u32::MAX,
        ensures
            id.0 == old(self).nodes@.len(),
            *final(self) == (Ui { nodes: final(self).nodes, ..*old(self) }),
            final(self).nodes@ == old(self).nodes@.push(node),
    {
        let id = NodeId(self.nodes.len() as u32);
        self.nodes.push(node);
        id
    }

    pub fn get(&self, id: NodeId) -> (r: &Node<N>)
        requires
            id.0 < self.nodes@.len(),
        ensures
            *r == self.nodes@[id.0 as int],
    {
        &self.nodes[id.0 as usize]
    }

    pub fn get_mut(&mut self, id: NodeId) -> (r: &mut Node<N>)
        requires
            id.0 < old(self).nodes@.len(),
        ensures
            *r == old(self).nodes@[id.0 as int],
            final(self).nodes@ == old(self).nodes@.update(id.0 as int, *final(r)),
            *final(self) == (Ui { nodes: final(self).nodes, ..*old(self) }),
    {
        &mut self.nodes[id.0 as usize]
    }

    pub fn add_layer(&mut self, root: NodeId, name: &str)
        ensures
            final(self).layers@.len() == old(self).layers@.len() + 1,
            final(self).layers@.take(old(self).layers@.len() as int) == old(self).layers@,
            final(self).layers@.last().root == root,
            final(self).layers@.last().name@ == name@,
            *final(self) == (Ui { layers: final(self).layers, ..*old(self) }),
    {
        let ghost before = self.layers@;
        let name: String = name.to_owned();
        self.layers.push(Layer { root, name });
        assert(self.layers@.take(before.len() as int) =~= before);
    }
}

// ---- hit testing ----

/// The topmost node under `p` in the subtree of `id`: the deepest, and of
/// overlapping siblings the last.
pub open spec fn hit_node<N: Num>(
    nodes: Seq<Node<N>>,
    rank: spec_fn(int) -> nat,
    id: int,
    p: Point<N>,
) -> Option<int>
    decreases rank(id), nodes[id].children@.len() + 1,
{
    if ranked(nodes, rank) && 0 <= id < nodes.len() && holds_point(nodes[id].computed, p) {
        match hit_children(nodes, rank, id, nodes[id].children@.len(), p) {
            Some(h) => Some(h),
            None => Some(id),
        }
    } else {
        None
    }
}

/// The same among the first `n` children of `parent`, the last of them first.
pub open spec fn hit_children<N: Num>(
    nodes: Seq<Node<N>>,
    rank: spec_fn(int) -> nat,
    parent: int,
    n: nat,
    p: Point<N>,
) -> Option<int>
    decreases rank(parent), n,
{
    if ranked(nodes, rank) && 0 <= parent < nodes.len() && 0 < n <= nodes[parent].children@.len() {
        match hit_node(nodes, rank, nodes[parent].children@[n - 1].0 as int, p) {
            Some(h) => Some(h),
            None => hit_children(nodes, rank, parent, (n - 1) as nat, p),
        }
    } else {
        None
    }
}

/// The nodes from `id` down to the one that `p` hits in its subtree.
pub open spec fn hit_path<N: Num>(
    nodes: Seq<Node<N>>,
    rank: spec_fn(int) -> nat,
    id: int,
    p: Point<N>,
) -> Seq<int>
    decreases rank(id), nodes[id].children@.len() + 1,
{
    if ranked(nodes, rank) && 0 <= id < nodes.len() && holds_point(nodes[id].computed, p) {
        seq![id] + hit_path_children(nodes, rank, id, nodes[id].children@.len(), p)
    } else {
        Seq::empty()
    }
}

pub open spec fn hit_path_children<N: Num>(
    nodes: Seq<Node<N>>,
    rank: spec_fn(int) -> nat,
    parent: int,
    n: nat,
    p: Point<N>,
) -> Seq<int>
    decreases rank(parent), n,
{
    if ranked(nodes, rank) && 0 <= parent < nodes.len() && 0 < n <= nodes[parent].children@.len() {
        let path = hit_path(nodes, rank, nodes[parent].children@[n - 1].0 as int, p);
        if path.len() > 0 {
            path
        } else {
            hit_path_children(nodes, rank, parent, (n - 1) as nat, p)
        }
    } else {
        Seq::empty()
    }
}

/// What the topmost of the first `n` layers that is hit gives.
pub open spec fn hit_layers<N: Num>(ui: Ui<N>, n: nat, p: Point<N>) -> Option<int>
    decreases n,
{
    if n == 0 {
        None
    } else {
        match hit_node(ui.nodes@, rank_of(ui.nodes@), ui.layers@[n - 1].root.0 as int, p) {
            Some(h) => Some(h),
            None => hit_layers(ui, (n - 1) as nat, p),
        }
    }
}

pub open spec fn hit_path_layers<N: Num>(ui: Ui<N>, n: nat, p: Point<N>) -> Seq<int>
    decreases n,
{
    if n == 0 {
        Seq::empty()
    } else {
        let path = hit_path(ui.nodes@, rank_of(ui.nodes@), ui.layers@[n - 1].root.0 as int, p);
        if path.len() > 0 {
            path
        } else {
            hit_path_layers(ui, (n - 1) as nat, p)
        }
    }
}

pub open spec fn id_of(x: Option<NodeId>) -> Option<int> {
    match x {
        Some(id) => Some(id.0 as int),
        None => None,
    }
}

pub open spec fn ids_of(x: Seq<NodeId>) -> Seq<int> {
    x.map_values(|id: NodeId| id.0 as int)
}

impl<N: Num> Ui<N> {
    /// Hit-tests all layers front-to-back; returns the topmost node under `p`.
    pub fn hit_test(&self, p: Point<N>) -> (r: Option<NodeId>)
        requires
            self.wf(),
        ensures
            id_of(r) == hit_layers(*self, self.layers@.len(), p),
    {
        let mut n: usize = self.layers.len();
        while n > 0
            invariant
                0 <= n <= self.layers@.len(),
                self.wf(),
                hit_layers(*self, n as nat, p) == hit_layers(*self, self.layers@.len(), p),
            decreases n,
        {
            let hit: Option<NodeId> = self.hit_test_node(self.layers[n - 1].root, p);
            if hit.is_some() {
                return hit;
            }
            n = n - 1;
        }
        None
    }

    /// Like `hit_test`, but returns the whole ancestor chain, root first.
    pub fn hit_test_chain(&self, p: Point<N>) -> (r: Vec<NodeId>)
        requires
            self.wf(),
        ensures
            ids_of(r@) == hit_path_layers(*self, self.layers@.len(), p),
    {
        let mut n: usize = self.layers.len();
        while n > 0
            invariant
                0 <= n <= self.layers@.len(),
                self.wf(),
                hit_path_layers(*self, n as nat, p) == hit_path_layers(
                    *self,
                    self.layers@.len(),
                    p,
                ),
            decreases n,
        {
            let mut chain: Vec<NodeId> = Vec::new();
            if self.hit_test_chain_node(self.layers[n - 1].root, p, &mut chain) {
                proof {
                    assert(ids_of(chain@) =~= hit_path(
                        self.nodes@,
                        rank_of(self.nodes@),
                        self.layers@[n - 1].root.0 as int,
                        p,
                    ));
                }
                return chain;
            }
            n = n - 1;
        }
        let none: Vec<NodeId> = Vec::new();
        assert(ids_of(none@) =~= Seq::<int>::empty());
        none
    }

    fn hit_test_chain_node(&self, id: NodeId, p: Point<N>, chain: &mut Vec<NodeId>) -> (r: bool)
        requires
            self.wf(),
            id.0 < self.nodes@.len(),
        ensures
            r == (hit_path(self.nodes@, rank_of(self.nodes@), id.0 as int, p).len() > 0),
            ids_of(final(chain)@) == ids_of(old(chain)@) + hit_path(
                self.nodes@,
                rank_of(self.nodes@),
                id.0 as int,
                p,
            ),
        decreases rank_of(self.nodes@)(id.0 as int),
    {
        let ghost nodes = self.nodes@;
        let ghost rank = rank_of(nodes);
        let ghost start = ids_of(chain@);
        let node: &Node<N> = self.get(id);
        if !node.computed.contains(p) {
            assert(ids_of(chain@) =~= start + hit_path(nodes, rank, id.0 as int, p));
            return false;
        }
        chain.push(id);
        assert(ids_of(chain@) =~= start.push(id.0 as int));
        let mut n: usize = node.children.len();
        while n > 0
            invariant
                0 <= n <= node.children@.len(),
                self.wf(),
                nodes == self.nodes@,
                rank == rank_of(nodes),
                id.0 < nodes.len(),
                *node == nodes[id.0 as int],
                start == ids_of(old(chain)@),
                ids_of(chain@) == start.push(id.0 as int),
                holds_point(node.computed, p),
                hit_path_children(nodes, rank, id.0 as int, n as nat, p) == hit_path_children(
                    nodes,
                    rank,
                    id.0 as int,
                    node.children@.len(),
                    p,
                ),
            decreases n,
        {
            let c: NodeId = node.children[n - 1];
            assert(ranked(nodes, rank));
            assert(nodes[id.0 as int].children@[n - 1] == c);
            if self.hit_test_chain_node(c, p, chain) {
                assert(ids_of(chain@) =~= start + hit_path(nodes, rank, id.0 as int, p));
                return true;
            }
            assert(ids_of(chain@) =~= start.push(id.0 as int));
            n = n - 1;
        }
        assert(ids_of(chain@) =~= start + hit_path(nodes, rank, id.0 as int, p));
        true
    }

    /// Hit-tests just the children of `id`: for content that lives outside its
    /// own parent's rect, such as a menu's floating popup.
    pub fn hit_test_within(&self, id: NodeId, p: Point<N>) -> (r: Option<NodeId>)
        requires
            self.wf(),
            id.0 < self.nodes@.len(),
        ensures
            id_of(r) == hit_children(
                self.nodes@,
                rank_of(self.nodes@),
                id.0 as int,
                self.nodes@[id.0 as int].children@.len(),
                p,
            ),
        decreases rank_of(self.nodes@)(id.0 as int), 0nat,
    {
        let ghost nodes = self.nodes@;
        let ghost rank = rank_of(nodes);
        let node: &Node<N> = self.get(id);
        let mut n: usize = node.children.len();
        while n > 0
            invariant
                0 <= n <= node.children@.len(),
                self.wf(),
                nodes == self.nodes@,
                rank == rank_of(nodes),
                id.0 < nodes.len(),
                *node == nodes[id.0 as int],
                hit_children(nodes, rank, id.0 as int, n as nat, p) == hit_children(
                    nodes,
                    rank,
                    id.0 as int,
                    node.children@.len(),
                    p,
                ),
            decreases n,
        {
            let c: NodeId = node.children[n - 1];
            assert(ranked(nodes, rank));
            assert(nodes[id.0 as int].children@[n - 1] == c);
            let hit: Option<NodeId> = self.hit_test_node(c, p);
            if hit.is_some() {
                return hit;
            }
            n = n - 1;
        }
        None
    }

    fn hit_test_node(&self, id: NodeId, p: Point<N>) -> (r: Option<NodeId>)
        requires
            self.wf(),
            id.0 < self.nodes@.len(),
        ensures
            id_of(r) == hit_node(self.nodes@, rank_of(self.nodes@), id.0 as int, p),
        decreases rank_of(self.nodes@)(id.0 as int), 1nat,
    {
        assert(ranked(self.nodes@, rank_of(self.nodes@)));
        if !self.get(id).computed.contains(p) {
            return None;
        }
        let inner: Option<NodeId> = self.hit_test_within(id, p);
        if inner.is_some() {
            inner
        } else {
            Some(id)
        }
    }
}

/// What is hit is in the tree and under the point, and the chain of `hit_test`'s
/// node ends with it.
pub proof fn law_hit_is_under_point<N: Num>(
    nodes: Seq<Node<N>>,
    rank: spec_fn(int) -> nat,
    id: int,
    p: Point<N>,
)
    requires
        ranked(nodes, rank),
        0 <= id < nodes.len(),
    ensures
        match hit_node(nodes, rank, id, p) {
            Some(h) => 0 <= h < nodes.len() && holds_point(nodes[h].computed, p) && hit_path(
                nodes,
                rank,
                id,
                p,
            ).len() > 0 && hit_path(nodes, rank, id, p).last() == h && hit_path(
                nodes,
                rank,
                id,
                p,
            )[0] == id,
            None => hit_path(nodes, rank, id, p).len() == 0 && !holds_point(nodes[id].computed, p),
        },
    decreases rank(id), nodes[id].children@.len() + 1,
{
    if holds_point(nodes[id].computed, p) {
        law_hit_child_is_under_point(nodes, rank, id, nodes[id].children@.len(), p);
    }
}

/// The same of the children of a node.
pub proof fn law_hit_child_is_under_point<N: Num>(
    nodes: Seq<Node<N>>,
    rank: spec_fn(int) -> nat,
    parent: int,
    n: nat,
    p: Point<N>,
)
    requires
        ranked(nodes, rank),
        0 <= parent < nodes.len(),
        n <= nodes[parent].children@.len(),
    ensures
        match hit_children(nodes, rank, parent, n, p) {
            Some(h) => 0 <= h < nodes.len() && holds_point(nodes[h].computed, p)
                && hit_path_children(nodes, rank, parent, n, p).len() > 0 && hit_path_children(
                nodes,
                rank,
                parent,
                n,
                p,
            ).last() == h,
            None => hit_path_children(nodes, rank, parent, n, p).len() == 0,
        },
    decreases rank(parent), n,
{
    if n > 0 {
        let c = nodes[parent].children@[n - 1];
        law_hit_is_under_point(nodes, rank, c.0 as int, p);
        law_hit_child_is_under_point(nodes, rank, parent, (n - 1) as nat, p);
    }
}

/// The topmost node under a point, over all layers, is in the tree and under the
/// point.
pub proof fn law_topmost_is_under_point<N: Num>(ui: Ui<N>, n: nat, p: Point<N>)
    requires
        ui.wf(),
        n <= ui.layers@.len(),
    ensures
        match hit_layers(ui, n, p) {
            Some(h) => 0 <= h < ui.nodes@.len() && holds_point(ui.nodes@[h].computed, p)
                && hit_path_layers(ui, n, p).len() > 0 && hit_path_layers(ui, n, p).last() == h,
            None => hit_path_layers(ui, n, p).len() == 0,
        },
    decreases n,
{
    if n > 0 {
        assert(ranked(ui.nodes@, rank_of(ui.nodes@)));
        assert(ui.layers@[n - 1].root.0 < ui.nodes@.len());
        law_hit_is_under_point(
            ui.nodes@,
            rank_of(ui.nodes@),
            ui.layers@[n - 1].root.0 as int,
            p,
        );
        law_topmost_is_under_point(ui, (n - 1) as nat, p);
    }
}

/// Every node of the chain to the topmost node is under the point.
pub proof fn law_chain_is_under_point<N: Num>(ui: Ui<N>, n: nat, p: Point<N>)
    requires
        ui.wf(),
        n <= ui.layers@.len(),
    ensures
        forall|k: int|
            0 <= k < hit_path_layers(ui, n, p).len() ==> {
                let i = #[trigger] hit_path_layers(ui, n, p)[k];
                0 <= i < ui.nodes@.len() && holds_point(ui.nodes@[i].computed, p)
            },
    decreases n,
{
    if n > 0 {
        let root = ui.layers@[n - 1].root.0 as int;
        assert(ranked(ui.nodes@, rank_of(ui.nodes@)));
        lemma_path_is_under_point(ui.nodes@, rank_of(ui.nodes@), root, p);
        law_chain_is_under_point(ui, (n - 1) as nat, p);
    }
}

proof fn lemma_path_is_under_point<N: Num>(
    nodes: Seq<Node<N>>,
    rank: spec_fn(int) -> nat,
    id: int,
    p: Point<N>,
)
    ensures
        forall|k: int|
            0 <= k < hit_path(nodes, rank, id, p).len() ==> {
                let i = #[trigger] hit_path(nodes, rank, id, p)[k];
                0 <= i < nodes.len() && holds_point(nodes[i].computed, p)
            },
    decreases rank(id), nodes[id].children@.len() + 1,
{
    if ranked(nodes, rank) && 0 <= id < nodes.len() && holds_point(nodes[id].computed, p) {
        lemma_child_path_is_under_point(nodes, rank, id, nodes[id].children@.len(), p);
    }
}

proof fn lemma_child_path_is_under_point<N: Num>(
    nodes: Seq<Node<N>>,
    rank: spec_fn(int) -> nat,
    parent: int,
    n: nat,
    p: Point<N>,
)
    ensures
        forall|k: int|
            0 <= k < hit_path_children(nodes, rank, parent, n, p).len() ==> {
                let i = #[trigger] hit_path_children(nodes, rank, parent, n, p)[k];
                0 <= i < nodes.len() && holds_point(nodes[i].computed, p)
            },
    decreases rank(parent), n,
{
    if ranked(nodes, rank) && 0 <= parent < nodes.len() && 0 < n <= nodes[parent].children@.len() {
        lemma_path_is_under_point(nodes, rank, nodes[parent].children@[n - 1].0 as int, p);
        lemma_child_path_is_under_point(nodes, rank, parent, (n - 1) as nat, p);
    }
}

// ---- reclaiming unreachable nodes ----

/// Whether `to` is `from` or a descendant of it.
pub open spec fn reaches<N>(
    nodes: Seq<Node<N>>,
    rank: spec_fn(int) -> nat,
    from: int,
    to: int,
) -> bool
    decreases rank(from), nodes[from].children@.len() + 1,
{
    ranked(nodes, rank) && 0 <= from < nodes.len() && (from == to || reaches_below(
        nodes,
        rank,
        from,
        nodes[from].children@.len(),
        to,
    ))
}

/// Whether `to` is in the subtree of one of the first `n` children of `parent`.
pub open spec fn reaches_below<N>(
    nodes: Seq<Node<N>>,
    rank: spec_fn(int) -> nat,
    parent: int,
    n: nat,
    to: int,
) -> bool
    decreases rank(parent), n,
{
    ranked(nodes, rank) && 0 <= parent < nodes.len() && 0 < n <= nodes[parent].children@.len() && (
    reaches(nodes, rank, nodes[parent].children@[n - 1].0 as int, to) || reaches_below(
        nodes,
        rank,
        parent,
        (n - 1) as nat,
        to,
    ))
}

/// Whether node `i` is in use: under a layer's root, or under the focused node.
pub open spec fn is_live<N: Num>(ui: Ui<N>, i: int) -> bool {
    ||| exists|l: int|
        0 <= l < ui.layers@.len() && reaches(
            ui.nodes@,
            rank_of(ui.nodes@),
            (#[trigger] ui.layers@[l]).root.0 as int,
            i,
        )
    ||| (ui.focus matches Some(f) && reaches(ui.nodes@, rank_of(ui.nodes@), f.0 as int, i))
}

/// A node that nothing is left of: an empty container, as a new one is.
pub open spec fn is_tombstone<N: Num>(node: Node<N>) -> bool {
    &&& node.kind is Container
    &&& is_default_style(node.style)
    &&& same_style(node.base_style, node.style)
    &&& no_variants(node.variants)
    &&& node.children@.len() == 0
    &&& node.computed == no_rect::<N>()
    &&& node.content_size == no_size::<N>()
    &&& node.scroll_offset == origin::<N>()
    &&& node.value_path@.len() == 0
    &&& node.events.view() == Map::<Seq<char>, Vec<String>>::empty()
    &&& node.templates@.len() == 0
    &&& node.dirty
}

impl<N: Num> Ui<N> {
    pub(crate) fn mark(&self, id: NodeId, live: &mut Vec<bool>)
        requires
            self.wf(),
            id.0 < self.nodes@.len(),
            old(live)@.len() == self.nodes@.len(),
        ensures
            final(live)@.len() == old(live)@.len(),
            forall|i: int|
                0 <= i < final(live)@.len() ==> #[trigger] final(live)@[i] == (old(live)@[i]
                    || reaches(self.nodes@, rank_of(self.nodes@), id.0 as int, i)),
        decreases rank_of(self.nodes@)(id.0 as int),
    {
        let ghost nodes = self.nodes@;
        let ghost rank = rank_of(nodes);
        let ghost start = live@;
        let at: usize = id.0 as usize;
        live[at] = true;
        let node: &Node<N> = self.get(id);
        let mut n: usize = 0;
        while n < node.children.len()
            invariant
                0 <= n <= node.children@.len(),
                self.wf(),
                nodes == self.nodes@,
                rank == rank_of(nodes),
                ranked(nodes, rank),
                id.0 < nodes.len(),
                *node == nodes[id.0 as int],
                live@.len() == nodes.len(),
                start.len() == nodes.len(),
                forall|i: int|
                    0 <= i < live@.len() ==> #[trigger] live@[i] == (start[i] || i == id.0
                        || reaches_below(nodes, rank, id.0 as int, n as nat, i)),
            decreases node.children@.len() - n,
        {
            let c: NodeId = node.children[n];
            assert(nodes[id.0 as int].children@[n as int] == c);
            self.mark(c, live);
            n = n + 1;
        }
    }

    /// Reclaims every node that is not in use: it becomes an empty tombstone.
    /// Nodes in use are untouched, and no id is handed out again.
    pub fn gc(&mut self)
        requires
            old(self).wf(),
        ensures
            final(self).nodes@.len() == old(self).nodes@.len(),
            forall|i: int|
                0 <= i < final(self).nodes@.len() ==> if is_live(*old(self), i) {
                    #[trigger] final(self).nodes@[i] == old(self).nodes@[i]
                } else {
                    is_tombstone(final(self).nodes@[i])
                },
            *final(self) == (Ui { nodes: final(self).nodes, ..*old(self) }),
            final(self).wf(),
    {
        let ghost before = *self;
        let n: usize = self.nodes.len();
        let mut live: Vec<bool> = Vec::new();
        let mut i: usize = 0;
        while i < n
            invariant
                0 <= i <= n,
                live@.len() == i,
                forall|k: int| 0 <= k < i ==> !#[trigger] live@[k],
            decreases n - i,
        {
            live.push(false);
            i = i + 1;
        }
        let mut l: usize = 0;
        while l < self.layers.len()
            invariant
                0 <= l <= self.layers@.len(),
                *self == before,
                before.wf(),
                live@.len() == before.nodes@.len(),
                forall|k: int|
                    0 <= k < live@.len() ==> #[trigger] live@[k] == exists|j: int|
                        0 <= j < l && reaches(
                            before.nodes@,
                            rank_of(before.nodes@),
                            (#[trigger] before.layers@[j]).root.0 as int,
                            k,
                        ),
            decreases self.layers@.len() - l,
        {
            let root: NodeId = self.layers[l].root;
            let ghost prev = live@;
            self.mark(root, &mut live);
            proof {
                assert forall|k: int| 0 <= k < live@.len() implies #[trigger] live@[k]
                    == exists|j: int|
                    0 <= j < l + 1 && reaches(
                        before.nodes@,
                        rank_of(before.nodes@),
                        (#[trigger] before.layers@[j]).root.0 as int,
                        k,
                    ) by {
                    if prev[k] {
                        let j = choose|j: int|
                            0 <= j < l && reaches(
                                before.nodes@,
                                rank_of(before.nodes@),
                                (#[trigger] before.layers@[j]).root.0 as int,
                                k,
                            );
                        assert(0 <= j < l + 1);
                    }
                    if live@[k] && !prev[k] {
                        assert(before.layers@[l as int].root == root);
                    }
                }
            }
            l = l + 1;
        }
        if let Some(f) = self.focus {
            self.mark(f, &mut live);
        }
        assert(forall|k: int| 0 <= k < live@.len() ==> #[trigger] live@[k] == is_live(before, k));
        let mut m: usize = 0;
        while m < n
            invariant
                0 <= m <= n,
                n == before.nodes@.len(),
                self.nodes@.len() == n,
                live@.len() == n,
                *self == (Ui { nodes: self.nodes, ..before }),
                forall|k: int| 0 <= k < live@.len() ==> #[trigger] live@[k] == is_live(before, k),
                forall|k: int|
                    0 <= k < m ==> if is_live(before, k) {
                        #[trigger] self.nodes@[k] == before.nodes@[k]
                    } else {
                        is_tombstone(self.nodes@[k])
                    },
                forall|k: int| m <= k < n ==> #[trigger] self.nodes@[k] == before.nodes@[k],
            decreases n - m,
        {
            if !live[m] {
                let empty: Node<N> = Node::new(NodeKind::Container, Style::default());
                self.nodes[m] = empty;
            }
            m = m + 1;
        }
        proof {
            lemma_pruned_is_forest(before.nodes@, self.nodes@);
        }
    }
}

// ---- recognizing a tree ----

/// Something keeps node `i` from being placed above all its children: a child that
/// is out of range, or that is itself not placed.
pub open spec fn is_blocked<N>(nodes: Seq<Node<N>>, done: Seq<bool>, i: int) -> bool {
    exists|k: int|
        0 <= k < nodes[i].children@.len() && ((#[trigger] nodes[i].children@[k]).0 >= nodes.len()
            || !done[nodes[i].children@[k].0 as int])
}

/// In a forest nothing stays blocked.
proof fn lemma_nothing_blocked<N>(
    nodes: Seq<Node<N>>,
    rank: spec_fn(int) -> nat,
    done: Seq<bool>,
    i: int,
)
    requires
        ranked(nodes, rank),
        done.len() == nodes.len(),
        0 <= i < nodes.len(),
        forall|j: int| 0 <= j < nodes.len() && !#[trigger] done[j] ==> is_blocked(nodes, done, j),
    ensures
        done[i],
    decreases rank(i),
{
    if !done[i] {
        assert(is_blocked(nodes, done, i));
        let k = choose|k: int|
            0 <= k < nodes[i].children@.len() && ((#[trigger] nodes[i].children@[k]).0
                >= nodes.len() || !done[nodes[i].children@[k].0 as int]);
        let c = nodes[i].children@[k].0 as int;
        assert(rank(c) < rank(i));
        lemma_nothing_blocked(nodes, rank, done, c);
    }
}

/// The nodes that are placed can be ranked: each above all its children, which are
/// placed as well.
pub open spec fn placed_so_far<N>(
    nodes: Seq<Node<N>>,
    done: Seq<bool>,
    order: Seq<nat>,
    step: nat,
) -> bool {
    &&& done.len() == nodes.len()
    &&& order.len() == nodes.len()
    &&& forall|i: int| 0 <= i < nodes.len() && #[trigger] done[i] ==> order[i] < step
    &&& forall|i: int, k: int|
        0 <= i < nodes.len() && done[i] && 0 <= k < nodes[i].children@.len() ==> {
            let c = (#[trigger] nodes[i].children@[k]).0;
            c < nodes.len() && done[c as int] && order[c as int] < order[i]
        }
}

pub open spec fn left_over(done: Seq<bool>) -> Set<int> {
    Set::new(|i: int| 0 <= i < done.len() && !done[i])
}

proof fn lemma_left_over(done: Seq<bool>, i: int)
    requires
        0 <= i < done.len(),
        !done[i],
    ensures
        left_over(done).finite(),
        left_over(done.update(i, true)).finite(),
        left_over(done.update(i, true)).len() < left_over(done).len(),
{
    let range = vstd::set_lib::set_int_range(0, done.len() as int);
    vstd::set_lib::lemma_int_range(0, done.len() as int);
    assert(left_over(done).subset_of(range));
    vstd::set_lib::lemma_len_subset(left_over(done), range);
    assert(left_over(done.update(i, true)) =~= left_over(done).remove(i));
}

impl<N: Num> Ui<N> {
    /// Whether node `i` can be placed: all its children are.
    fn is_free(&self, i: usize, done: &Vec<bool>) -> (r: bool)
        requires
            i < self.nodes@.len(),
            done@.len() == self.nodes@.len(),
        ensures
            r == !is_blocked(self.nodes@, done@, i as int),
    {
        let children: &Vec<NodeId> = &self.nodes[i].children;
        let mut k: usize = 0;
        while k < children.len()
            invariant
                0 <= k <= children@.len(),
                i < self.nodes@.len(),
                children@ == self.nodes@[i as int].children@,
                done@.len() == self.nodes@.len(),
                forall|j: int|
                    0 <= j < k ==> (#[trigger] self.nodes@[i as int].children@[j]).0
                        < self.nodes@.len()
                        && done@[self.nodes@[i as int].children@[j].0 as int],
            decreases children@.len() - k,
        {
            let c: usize = children[k].0 as usize;
            assert(self.nodes@[i as int].children@[k as int] == children@[k as int]);
            if c >= done.len() || !done[c] {
                return false;
            }
            k = k + 1;
        }
        true
    }

    /// Whether the nodes form a forest: place whatever has only placed children,
    /// until nothing more can be placed.
    fn is_tree(&self) -> (r: bool)
        ensures
            r == is_forest(self.nodes@),
    {
        let n: usize = self.nodes.len();
        let ghost nodes = self.nodes@;
        let mut done: Vec<bool> = Vec::new();
        let ghost mut order: Seq<nat> = Seq::new(n as nat, |i: int| 0nat);
        let ghost mut step: nat = 0;
        let mut j: usize = 0;
        while j < n
            invariant
                0 <= j <= n,
                done@.len() == j,
                forall|k: int| 0 <= k < j ==> !#[trigger] done@[k],
            decreases n - j,
        {
            done.push(false);
            j = j + 1;
        }
        let mut progress: bool = true;
        proof {
            let range = vstd::set_lib::set_int_range(0, n as int);
            vstd::set_lib::lemma_int_range(0, n as int);
            assert(left_over(done@).subset_of(range));
            vstd::set_lib::lemma_len_subset(left_over(done@), range);
        }
        while progress
            invariant
                n == nodes.len(),
                nodes == self.nodes@,
                placed_so_far(nodes, done@, order, step),
                left_over(done@).finite(),
                !progress ==> forall|i: int|
                    0 <= i < n && !#[trigger] done@[i] ==> is_blocked(nodes, done@, i),
            decreases left_over(done@).len() + if progress {
                1nat
            } else {
                0nat
            },
        {
            progress = false;
            let ghost before = left_over(done@).len();
            let mut i: usize = 0;
            while i < n
                invariant
                    0 <= i <= n,
                    n == nodes.len(),
                    nodes == self.nodes@,
                    placed_so_far(nodes, done@, order, step),
                    left_over(done@).finite(),
                    left_over(done@).len() <= before,
                    progress ==> left_over(done@).len() < before,
                    !progress ==> forall|k: int|
                        0 <= k < i && !#[trigger] done@[k] ==> is_blocked(nodes, done@, k),
                decreases n - i,
            {
                if !done[i] && self.is_free(i, &done) {
                    let ghost old_done = done@;
                    proof {
                        lemma_left_over(done@, i as int);
                    }
                    done[i] = true;
                    progress = true;
                    proof {
                        let old_order = order;
                        order = order.update(i as int, step);
                        step = step + 1;
                        assert(done@ =~= old_done.update(i as int, true));
                        assert forall|a: int, k: int|
                            0 <= a < nodes.len() && done@[a] && 0 <= k < nodes[a].children@.len()
                                implies ({
                            let c = (#[trigger] nodes[a].children@[k]).0;
                            c < nodes.len() && done@[c as int] && order[c as int] < order[a]
                        }) by {
                            let c = nodes[a].children@[k].0;
                            if a == i {
                                assert(!is_blocked(nodes, old_done, i as int));
                                assert(c < nodes.len() && old_done[c as int]);
                                assert(c as int != i as int);
                                assert(old_order[c as int] < step - 1);
                            } else {
                                assert(old_done[a]);
                                assert(old_done[c as int]);
                            }
                        }
                    }
                }
                i = i + 1;
            }
        }
        let mut all: bool = true;
        let mut i: usize = 0;
        while i < n
            invariant
                0 <= i <= n,
                done@.len() == n,
                all == forall|k: int| 0 <= k < i ==> #[trigger] done@[k],
            decreases n - i,
        {
            if !done[i] {
                all = false;
            }
            i = i + 1;
        }
        proof {
            if all {
                let rank = |i: int| order[i];
                assert forall|a: int, k: int|
                    0 <= a < nodes.len() && 0 <= k < nodes[a].children@.len() implies ({
                    let c = (#[trigger] nodes[a].children@[k]).0;
                    c < nodes.len() && rank(c as int) < rank(a)
                }) by {
                    assert(done@[a]);
                }
                assert(ranked(nodes, rank));
            } else if is_forest(nodes) {
                let rank = rank_of(nodes);
                assert(ranked(nodes, rank));
                assert forall|k: int| 0 <= k < n implies #[trigger] done@[k] by {
                    lemma_nothing_blocked(nodes, rank, done@, k);
                }
            }
        }
        all
    }

    /// Whether the nodes form a forest, and roots and focus are in range.
    pub fn is_well_formed(&self) -> (r: bool)
        ensures
            r == self.wf(),
    {
        let n: usize = self.nodes.len();
        let mut i: usize = 0;
        while i < self.layers.len()
            invariant
                0 <= i <= self.layers@.len(),
                n == self.nodes@.len(),
                forall|k: int| 0 <= k < i ==> (#[trigger] self.layers@[k]).root.0 < n,
            decreases self.layers@.len() - i,
        {
            if self.layers[i].root.0 as usize >= n {
                return false;
            }
            i = i + 1;
        }
        if let Some(f) = self.focus {
            if f.0 as usize >= n {
                return false;
            }
        }
        self.is_tree()
    }
}

} // verus!
