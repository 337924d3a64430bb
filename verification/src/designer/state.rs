//! What the designer's own window shows.

use vstd::prelude::*;
use vstd::string::*;
use crate::designer::paths::path_text;
use crate::designer::virtual_fs::{
    root_name, scanned, DiskItem, EntryTree, VfsEntry, VirtualFs, DEFAULT_MAX_DEPTH,
};

verus! {

/// An entry of the project tree as it is shown.
#[derive(Debug)]
pub struct VfsNode {
    pub name: String,
    /// The path, as text.
    pub path: String,
    pub is_dir: bool,
    /// A placeholder for what lies below the depth limit.
    pub truncated: bool,
    pub children: Vec<VfsNode>,
}

/// The model of a shown entry.
pub struct NodeView {
    pub name: Seq<char>,
    pub path: Seq<char>,
    pub is_dir: bool,
    pub truncated: bool,
    pub children: Seq<NodeView>,
}

pub open spec fn node_view(n: VfsNode) -> NodeView
    decreases n,
{
    NodeView {
        name: n.name@,
        path: n.path@,
        is_dir: n.is_dir,
        truncated: n.truncated,
        children: Seq::new(
            n.children@.len(),
            |i: int|
                if 0 <= i < n.children@.len() {
                    node_view(n.children@[i])
                } else {
                    NodeView {
                        name: Seq::empty(),
                        path: Seq::empty(),
                        is_dir: false,
                        truncated: false,
                        children: Seq::empty(),
                    }
                },
        ),
    }
}

impl View for VfsNode {
    type V = NodeView;

    open spec fn view(&self) -> NodeView {
        node_view(*self)
    }
}

pub open spec fn node_views(v: Seq<VfsNode>) -> Seq<NodeView> {
    v.map_values(|n: VfsNode| n@)
}

/// How an entry of the project tree is shown.
pub open spec fn shown_entry(e: EntryTree) -> NodeView
    decreases e,
{
    match e {
        EntryTree::File { name, path } => NodeView {
            name,
            path: path_text(path),
            is_dir: false,
            truncated: false,
            children: Seq::empty(),
        },
        EntryTree::Dir { name, path, children } => NodeView {
            name,
            path: path_text(path),
            is_dir: true,
            truncated: false,
            children: children.map(
                |i: int, c: EntryTree|
                    if 0 <= i < children.len() {
                        shown_entry(children[i])
                    } else {
                        NodeView {
                            name: Seq::empty(),
                            path: Seq::empty(),
                            is_dir: false,
                            truncated: false,
                            children: Seq::empty(),
                        }
                    },
            ),
        },
        EntryTree::Truncated { path } => NodeView {
            name: "… more"@,
            path: path_text(path),
            is_dir: false,
            truncated: true,
            children: Seq::empty(),
        },
    }
}

impl VfsNode {
    /// How an entry of the project tree is shown.
    pub fn from_entry(entry: &VfsEntry) -> (r: VfsNode)
        ensures
            r@ == shown_entry(entry@),
        decreases entry,
    {
        match entry {
            VfsEntry::File { name, path } => {
                let r: VfsNode = VfsNode {
                    name: name.clone(),
                    path: path.text(),
                    is_dir: false,
                    truncated: false,
                    children: Vec::new(),
                };
                assert(r@.children =~= Seq::<NodeView>::empty());
                r
            },
            VfsEntry::Dir { name, path, children } => {
                let mut shown: Vec<VfsNode> = Vec::new();
                let mut i: usize = 0;
                while i < children.len()
                    invariant
                        0 <= i <= children@.len(),
                        decreases_to!(entry => children),
                        shown@.len() == i,
                        forall|k: int|
                            0 <= k < i ==> (#[trigger] shown@[k])@ == shown_entry(children@[k]@),
                    decreases children@.len() - i,
                {
                    let child: VfsNode = VfsNode::from_entry(&children[i]);
                    shown.push(child);
                    i = i + 1;
                }
                let r: VfsNode = VfsNode {
                    name: name.clone(),
                    path: path.text(),
                    is_dir: true,
                    truncated: false,
                    children: shown,
                };
                proof {
                    let want = shown_entry(entry@).children;
                    assert(entry@ is Dir);
                    assert forall|k: int| 0 <= k < want.len() implies r@.children[k] == want[k] by {
                        assert(entry@->Dir_children[k] == children@[k]@);
                        assert(r@.children[k] == shown@[k]@);
                    }
                    assert(r@.children =~= want);
                }
                r
            },
            VfsEntry::Truncated { path } => {
                let r: VfsNode = VfsNode {
                    name: "… more".to_owned(),
                    path: path.text(),
                    is_dir: false,
                    truncated: true,
                    children: Vec::new(),
                };
                assert(r@.children =~= Seq::<NodeView>::empty());
                r
            },
        }
    }
}

/// The project tree as it is shown: one entry, the project's root, with everything
/// else in it.
pub fn scan_tree(vfs: &VirtualFs, disk: &Vec<DiskItem>) -> (r: Vec<VfsNode>)
    ensures
        node_views(r@) == seq![
            shown_entry(
                scanned(
                    vfs.root@,
                    root_name(vfs.root@),
                    disk@,
                    vfs.queue(),
                    DEFAULT_MAX_DEPTH as nat,
                ),
            ),
        ],
{
    let entry: VfsEntry = vfs.scan(disk, DEFAULT_MAX_DEPTH);
    let mut out: Vec<VfsNode> = Vec::new();
    out.push(VfsNode::from_entry(&entry));
    assert(node_views(out@) =~= seq![shown_entry(entry@)]);
    out
}

/// A tab of the tab strip.
#[derive(Debug)]
pub struct TabInfo {
    /// The file's name, with a mark in front while it has unsaved edits.
    pub label: String,
    pub active: bool,
}

/// A choice of the layout picker.
#[derive(Debug)]
pub struct LayoutOption {
    /// The layouts that lead to it.
    pub label: String,
    pub id: String,
}

/// A row of the inspector: a style token, or a binding, whose label stands in
/// braces.
#[derive(Debug)]
pub struct InspectorFieldRow {
    pub label: String,
    pub value: String,
}

/// What the designer's own window shows.
#[derive(Debug)]
pub struct DesignerState {
    pub tree: Vec<VfsNode>,
    pub tabs: Vec<TabInfo>,
    pub layout_options: Vec<LayoutOption>,
    pub creating_hint: String,
    pub popup_title: String,
    /// Where the name prompt stands; far off the window while there is none.
    pub popup_left: String,
    pub popup_top: String,
    /// Where the context menu stands; far off the window while it is closed.
    pub context_menu_left: String,
    pub context_menu_top: String,
    /// How tall the rows for adding are; none at all for a file.
    pub context_menu_add_h: String,
    /// How tall the rows for renaming and deleting are; none at all for the
    /// project root.
    pub context_menu_edit_h: String,
    pub context_menu_rename_label: String,
    pub context_menu_delete_label: String,
    pub inspector_kind: String,
    pub inspector_fields: Vec<InspectorFieldRow>,
}

impl Default for DesignerState {
    fn default() -> (r: Self)
        ensures
            r.tree@.len() == 0,
            r.tabs@.len() == 0,
            r.layout_options@.len() == 0,
            r.creating_hint@.len() == 0,
            r.popup_title@.len() == 0,
            r.popup_left@.len() == 0,
            r.popup_top@.len() == 0,
            r.context_menu_left@.len() == 0,
            r.context_menu_top@.len() == 0,
            r.context_menu_add_h@.len() == 0,
            r.context_menu_edit_h@.len() == 0,
            r.context_menu_rename_label@.len() == 0,
            r.context_menu_delete_label@.len() == 0,
            r.inspector_kind@.len() == 0,
            r.inspector_fields@.len() == 0,
    {
        DesignerState {
            tree: Vec::new(),
            tabs: Vec::new(),
            layout_options: Vec::new(),
            creating_hint: String::new(),
            popup_title: String::new(),
            popup_left: String::new(),
            popup_top: String::new(),
            context_menu_left: String::new(),
            context_menu_top: String::new(),
            context_menu_add_h: String::new(),
            context_menu_edit_h: String::new(),
            context_menu_rename_label: String::new(),
            context_menu_delete_label: String::new(),
            inspector_kind: String::new(),
            inspector_fields: Vec::new(),
        }
    }
}

} // verus!
