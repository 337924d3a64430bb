//! The designer: what each event does to its state.

use vstd::prelude::*;
use vstd::string::*;
use vstd::utf8::*;
use crate::designer::chrome::Chrome;
use crate::designer::document::AstNode;
use crate::designer::inspector::{field_views, span_fits, FieldView, InspectorField};
use crate::designer::model::{
    dir_label, hint_text, inspected, layout_choices, shown, synced, tab_infos, tab_label,
    title_text, AppModel, ContextMenuTarget, DocView, NewItemKind, StateView, TargetView, IDLE_HINT,
};
use crate::designer::nodes::{field_of, ui_model};
use crate::designer::paths::VPath;
use crate::designer::preview::{
    document_hierarchy, layout_names, names_of, pairs, texts, Loaded, PreviewDoc,
};
use crate::designer::state::{node_views, DesignerState, InspectorFieldRow, LayoutOption, TabInfo};
use crate::designer::tabs::{tab_views, OpenTab, Tabs};
use crate::designer::virtual_fs::{base_name, name_or_empty, VirtualFs};
use crate::toolkit::arena::NodeId;
use crate::toolkit::geometry::Point;
use crate::toolkit::num::Num;

verus! {

/// The designer.
pub struct DesignerApp<N> {
    pub chrome: Chrome<N>,
    pub doc: PreviewDoc<N>,
    pub state: DesignerState,
    pub tabs: Tabs,
    pub vfs: VirtualFs,
    /// Where something new goes.
    pub selected_dir: VPath,
    /// What the prompt is naming, renaming or editing, if anything: at most one of
    /// the three.
    pub creating: Option<NewItemKind>,
    pub renaming: Option<VPath>,
    pub editing_field: Option<InspectorField>,
    /// The selected widget's fields.
    pub inspector_fields: Vec<InspectorField>,
    /// The selection and the text that they were found for.
    pub last_inspector_key: Option<(NodeId, String)>,
    pub context_menu: Option<(ContextMenuTarget, Point<N>)>,
    /// The file whose row was looked for last, and the row that is highlighted.
    pub last_highlighted_path: Option<VPath>,
    pub highlighted_tree_item: Option<NodeId>,
    pub cursor: Point<N>,
    pub ctrl: bool,
    pub shift: bool,
    /// The preview has a window of its own.
    pub detached: bool,
    /// The selected node of the preview.
    pub selected_node: Option<NodeId>,
    /// The project tree is to be scanned again.
    pub scan_wanted: bool,
    /// The tree's rows in order: the path, and whether it is a directory.
    pub flat_tree_paths: Vec<Option<(VPath, bool)>>,
    /// The height that no option list exceeds.
    pub popup_max_h: N,
}

// ---- the model ----

pub open spec fn tab_info_views(v: Seq<TabInfo>) -> Seq<(Seq<char>, bool)> {
    v.map_values(|t: TabInfo| (t.label@, t.active))
}

pub open spec fn option_views(v: Seq<LayoutOption>) -> Seq<(Seq<char>, Seq<char>)> {
    v.map_values(|o: LayoutOption| (o.label@, o.id@))
}

pub open spec fn row_texts(v: Seq<InspectorFieldRow>) -> Seq<(Seq<char>, Seq<char>)> {
    v.map_values(|r: InspectorFieldRow| (r.label@, r.value@))
}

pub open spec fn state_view(s: DesignerState) -> StateView {
    StateView {
        tree: node_views(s.tree@),
        tabs: tab_info_views(s.tabs@),
        layout_options: option_views(s.layout_options@),
        creating_hint: s.creating_hint@,
        popup_title: s.popup_title@,
        popup_left: s.popup_left@,
        popup_top: s.popup_top@,
        context_menu_left: s.context_menu_left@,
        context_menu_top: s.context_menu_top@,
        context_menu_add_h: s.context_menu_add_h@,
        context_menu_edit_h: s.context_menu_edit_h@,
        context_menu_rename_label: s.context_menu_rename_label@,
        context_menu_delete_label: s.context_menu_delete_label@,
        inspector_kind: s.inspector_kind@,
        inspector_fields: row_texts(s.inspector_fields@),
    }
}

pub open spec fn doc_view<N>(d: PreviewDoc<N>) -> DocView<N> {
    DocView {
        path: d.entry_path@,
        layout: d.entry_layout@,
        names: texts(d.layout_names@),
        hierarchy: pairs(d.layout_hierarchy@),
        spans: d.node_spans@,
        ui: d.ui,
    }
}

pub open spec fn path_view(p: Option<VPath>) -> Option<Seq<Seq<char>>> {
    match p {
        Some(p) => Some(p@),
        None => None,
    }
}

pub open spec fn field_view(f: Option<InspectorField>) -> Option<FieldView> {
    match f {
        Some(f) => Some(f@),
        None => None,
    }
}

pub open spec fn key_view(k: Option<(NodeId, String)>) -> Option<(NodeId, Seq<char>)> {
    match k {
        Some((id, s)) => Some((id, s@)),
        None => None,
    }
}

pub open spec fn menu_view<N>(m: Option<(ContextMenuTarget, Point<N>)>) -> Option<
    (TargetView, Point<N>),
> {
    match m {
        Some((t, p)) => Some((t@, p)),
        None => None,
    }
}

pub open spec fn row_view(r: Option<(VPath, bool)>) -> Option<(Seq<Seq<char>>, bool)> {
    match r {
        Some((p, d)) => Some((p@, d)),
        None => None,
    }
}

pub open spec fn row_views(v: Seq<Option<(VPath, bool)>>) -> Seq<Option<(Seq<Seq<char>>, bool)>> {
    v.map_values(|r: Option<(VPath, bool)>| row_view(r))
}

/// What a load built, if it did.
pub open spec fn built_view<N>(l: Loaded<N>) -> Option<DocView<N>> {
    match l {
        Loaded::Document { ast, built: Some((ui, spans)) } => Some(
            DocView {
                path: Seq::empty(),
                layout: Seq::empty(),
                names: names_of(ast@, ast@.len()),
                hierarchy: document_hierarchy(ast@),
                spans: spans@,
                ui,
            },
        ),
        _ => None,
    }
}

/// The first layout of a parsed text.
pub open spec fn first_layout(document: Option<Vec<AstNode>>) -> Option<Seq<char>> {
    match document {
        Some(ast) => {
            let names = names_of(ast@, ast@.len());
            if names.len() > 0 {
                Some(names[0])
            } else {
                None
            }
        },
        None => None,
    }
}

pub open spec fn opt_document(d: Option<&Vec<AstNode>>) -> Option<Vec<AstNode>> {
    match d {
        Some(v) => Some(*v),
        None => None,
    }
}

// ---- texts ----

fn tab_label_text(t: &OpenTab) -> (r: String)
    ensures
        r@ == tab_label(t@),
{
    let name: String = match t.path.file_name() {
        Some(n) => n.to_owned(),
        None => t.path.text(),
    };
    if t.dirty {
        let mut out: String = "● ".to_owned();
        out.append(name.as_str());
        out
    } else {
        name
    }
}

fn pixel_text<N: Num>(x: N) -> (r: String)
    ensures
        r@ == N::text_of(x) + "px"@,
{
    let mut out: String = x.to_text();
    out.append("px");
    out
}

fn dir_text(selected: &VPath, root: &VPath) -> (r: String)
    ensures
        r@ == dir_label(selected@, root@),
{
    match selected.strip_prefix(root) {
        Some(rest) => {
            assert(rest@.len() == selected@.len() - root@.len());
            if rest.parts.len() > 0 {
                let mut out: String = rest.text();
                out.append("/");
                return out;
            }
        },
        None => {},
    }
    "project root".to_owned()
}

/// The path's last component, or nothing.
pub(crate) fn name_text(p: &VPath) -> (r: String)
    ensures
        r@ == name_or_empty(base_name(p@)),
{
    match p.file_name() {
        Some(n) => n.to_owned(),
        None => {
            let out: String = String::new();
            assert(out@ =~= Seq::<char>::empty());
            out
        },
    }
}

impl<N: Num> DesignerApp<N> {
    /// The state as plain values.
    pub open spec fn model(&self) -> AppModel<N> {
        AppModel {
            ui: ui_model(self.chrome.ui),
            prompt: self.chrome.new_item_node,
            editor: self.chrome.editor_node,
            doc: doc_view(self.doc),
            state: state_view(self.state),
            tabs: self.tabs.tabs(),
            active: self.tabs.current(),
            root: self.vfs.root@,
            pending: self.vfs.queue(),
            selected_dir: self.selected_dir@,
            creating: self.creating,
            renaming: path_view(self.renaming),
            editing: field_view(self.editing_field),
            fields: field_views(self.inspector_fields@),
            inspected: key_view(self.last_inspector_key),
            menu: menu_view(self.context_menu),
            selected: self.selected_node,
            cursor: self.cursor,
            ctrl: self.ctrl,
            shift: self.shift,
            detached: self.detached,
            scan_wanted: self.scan_wanted,
            rows: row_views(self.flat_tree_paths@),
            highlighted_path: path_view(self.last_highlighted_path),
            highlighted_row: self.highlighted_tree_item,
            popup_max_h: self.popup_max_h,
        }
    }

    /// The parts are well-formed.
    pub open spec fn wf(&self) -> bool {
        &&& self.chrome.ready()
        &&& self.tabs.wf()
        &&& self.doc.ui.wf()
    }

    /// The field that the prompt edits still stands in the editor's text.
    pub open spec fn edit_fits(&self) -> bool {
        self.editing_field matches Some(f) ==> span_fits(
            field_of(ui_model(self.chrome.ui), self.chrome.editor_node).text,
            f.span,
        )
    }

    fn prompt_hint(&self) -> (r: String)
        ensures
            r@ == hint_text(self.model()),
    {
        if let Some(field) = &self.editing_field {
            let mut out: String = "Editing the `".to_owned();
            out.append(field.label.as_str());
            out.append("` ");
            out.append(
                if field.is_binding {
                    "binding"
                } else {
                    "style"
                },
            );
            out.append(" — Enter to apply, Esc to cancel");
            return out;
        }
        if let Some(old_path) = &self.renaming {
            let mut out: String = "Renaming ".to_owned();
            out.append(name_text(old_path).as_str());
            return out;
        }
        match self.creating {
            Some(kind) => {
                let mut out: String = "New ".to_owned();
                out.append(kind.noun());
                out.append(" in ");
                out.append(dir_text(&self.selected_dir, &self.vfs.root).as_str());
                out.append(" — Enter to create, Esc to cancel");
                out
            },
            None => IDLE_HINT.to_owned(),
        }
    }

    fn prompt_title(&self) -> (r: String)
        ensures
            r@ == title_text(self.model()),
    {
        if self.editing_field.is_some() {
            "Edit Value".to_owned()
        } else if self.renaming.is_some() {
            "Rename".to_owned()
        } else {
            match self.creating {
                Some(NewItemKind::File) => "New File".to_owned(),
                Some(NewItemKind::Folder) => "New Folder".to_owned(),
                None => "".to_owned(),
            }
        }
    }

    fn tab_infos_now(&self) -> (r: Vec<TabInfo>)
        ensures
            tab_info_views(r@) == tab_infos(self.tabs.tabs(), self.tabs.current()),
    {
        let active: Option<usize> = self.tabs.active_index();
        let open: &[OpenTab] = self.tabs.iter();
        let ghost views = self.tabs.tabs();
        let ghost want = tab_infos(views, active);
        let mut out: Vec<TabInfo> = Vec::new();
        let mut i: usize = 0;
        assert(tab_info_views(out@) =~= want.take(0));
        while i < open.len()
            invariant
                0 <= i <= open@.len(),
                tab_views(open@) == views,
                want == tab_infos(views, active),
                want.len() == open@.len(),
                tab_info_views(out@) == want.take(i as int),
            decreases open@.len() - i,
        {
            let ghost before = tab_info_views(out@);
            assert(views[i as int] == open@[i as int]@);
            let label: String = tab_label_text(&open[i]);
            let is_active: bool = match active {
                Some(a) => a == i,
                None => false,
            };
            out.push(TabInfo { label, active: is_active });
            assert(tab_info_views(out@) =~= before.push(want[i as int]));
            i = i + 1;
            assert(want.take(i as int) =~= want.take(i - 1).push(want[i - 1]));
        }
        assert(want.take(i as int) =~= want);
        out
    }

    fn layout_options_now(&self) -> (r: Vec<LayoutOption>)
        ensures
            option_views(r@) == layout_choices(doc_view(self.doc)),
    {
        let mut out: Vec<LayoutOption> = Vec::new();
        assert(option_views(out@) =~= Seq::empty());
        if self.doc.layout_names.len() <= 1 {
            return out;
        }
        let all: &Vec<(String, String)> = &self.doc.layout_hierarchy;
        let ghost want = pairs(all@);
        let mut i: usize = 0;
        assert(option_views(out@) =~= want.take(0));
        while i < all.len()
            invariant
                0 <= i <= all@.len(),
                want == pairs(all@),
                option_views(out@) == want.take(i as int),
            decreases all@.len() - i,
        {
            let ghost before = option_views(out@);
            let label: String = all[i].0.clone();
            let id: String = all[i].1.clone();
            out.push(LayoutOption { label, id });
            assert(option_views(out@) =~= before.push(want[i as int]));
            i = i + 1;
            assert(want.take(i as int) =~= want.take(i - 1).push(want[i - 1]));
        }
        assert(want.take(i as int) =~= want);
        out
    }

    /// Shows the state in the window. (The tree and the inspector have steps of
    /// their own.)
    pub fn sync_reactive_state(&mut self)
        requires
            old(self).wf(),
        ensures
            final(self).wf(),
            final(self).model() == synced(old(self).model()),
            *final(self) == (DesignerApp { state: final(self).state, ..*old(self) }),
    {
        let tabs: Vec<TabInfo> = self.tab_infos_now();
        let layout_options: Vec<LayoutOption> = self.layout_options_now();
        let hint: String = self.prompt_hint();
        let title: String = self.prompt_title();
        let open: bool = self.creating.is_some() || self.renaming.is_some()
            || self.editing_field.is_some();
        let place: &str = if open {
            "0px"
        } else {
            "-9999px"
        };
        let (add_h, edit_h, rename_label, delete_label): (&str, &str, &str, &str) =
            match &self.context_menu {
            Some((ContextMenuTarget::Folder(_), _)) => (
                "32px",
                "32px",
                "Rename Folder",
                "Delete Folder",
            ),
            Some((ContextMenuTarget::File(_), _)) => ("0px", "32px", "Rename File", "Delete File"),
            Some((ContextMenuTarget::Root(_), _)) => ("32px", "0px", "", ""),
            None => ("0px", "0px", "", ""),
        };
        let (left, top): (String, String) = match &self.context_menu {
            Some((_, anchor)) => (pixel_text(anchor.x), pixel_text(anchor.y)),
            None => ("-9999px".to_owned(), "-9999px".to_owned()),
        };
        self.state.tabs = tabs;
        self.state.layout_options = layout_options;
        self.state.creating_hint = hint;
        self.state.popup_title = title;
        self.state.popup_left = place.to_owned();
        self.state.popup_top = place.to_owned();
        self.state.context_menu_add_h = add_h.to_owned();
        self.state.context_menu_edit_h = edit_h.to_owned();
        self.state.context_menu_rename_label = rename_label.to_owned();
        self.state.context_menu_delete_label = delete_label.to_owned();
        self.state.context_menu_left = left;
        self.state.context_menu_top = top;
        proof {
            reveal(shown);
        }
    }
}

} // verus!
