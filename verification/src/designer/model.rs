//! The designer as a state machine: its state as plain values, and what each step
//! makes of it.
//!
//! A step that needs something from outside (a file, a parsed document) ends in a
//! [`Request`]; what came of it is handed back to the next step.

use vstd::prelude::*;
use vstd::string::*;
use vstd::utf8::*;
use crate::designer::document::{AstNode, Span};
use crate::designer::editor::{edited, FieldState, Key};
use crate::designer::inspector::{binding_text, found_from, spliced, FieldView, SelectionView};
use crate::designer::nodes::{
    all_shut, field_of, filled, flipped, has_row, picked, row_at, toggled_dropdown, with_field,
    with_focus, UiModel,
};
use crate::designer::paths::{is_under, path_join, path_text, VPath};
use crate::designer::preview::span_from;
use crate::designer::state::NodeView;
use crate::designer::tabs::{
    active_after, fresh_tab, left_tabs, moved, next_active, retargeted, tab_index, text_of, TabView,
};
use crate::designer::virtual_fs::{
    base_name, flush_steps, name_or_empty, steps_of, DiskStep, PendingEntry,
};
use crate::text::trimmed;
use crate::toolkit::arena::{NodeId, Ui};
use crate::toolkit::geometry::Point;
use crate::toolkit::num::Num;

verus! {

/// What the name prompt shows while nothing is being named.
pub const IDLE_HINT: &'static str =
    "Right-click a folder (or the explorer) to create a file or folder";

/// What a new item is.
#[derive(Debug, Clone, Copy, PartialEq, Eq, Structural)]
pub enum NewItemKind {
    File,
    Folder,
}

pub open spec fn noun_of(kind: NewItemKind) -> Seq<char> {
    match kind {
        NewItemKind::File => "file"@,
        NewItemKind::Folder => "folder"@,
    }
}

impl NewItemKind {
    pub fn noun(self) -> (r: &'static str)
        ensures
            r@ == noun_of(self),
    {
        match self {
            NewItemKind::File => "file",
            NewItemKind::Folder => "folder",
        }
    }
}

/// What the context menu was opened on.
#[derive(Debug)]
pub enum ContextMenuTarget {
    Folder(VPath),
    File(VPath),
    /// Anything else: the project root.
    Root(VPath),
}

/// The model of a target.
pub enum TargetView {
    Folder(Seq<Seq<char>>),
    File(Seq<Seq<char>>),
    Root(Seq<Seq<char>>),
}

impl View for ContextMenuTarget {
    type V = TargetView;

    open spec fn view(&self) -> TargetView {
        match self {
            ContextMenuTarget::Folder(p) => TargetView::Folder(p@),
            ContextMenuTarget::File(p) => TargetView::File(p@),
            ContextMenuTarget::Root(p) => TargetView::Root(p@),
        }
    }
}

pub open spec fn target_path(t: TargetView) -> Seq<Seq<char>> {
    match t {
        TargetView::Folder(p) => p,
        TargetView::File(p) => p,
        TargetView::Root(p) => p,
    }
}

/// Where something new goes: into the target, or beside it if it is a file.
pub open spec fn create_dir(t: TargetView) -> Seq<Seq<char>> {
    match t {
        TargetView::Folder(p) => p,
        TargetView::Root(p) => p,
        TargetView::File(p) => if p.len() == 0 || p == seq!["/"@] {
            p
        } else {
            p.drop_last()
        },
    }
}

impl ContextMenuTarget {
    /// The path that the target stands for.
    pub fn path(&self) -> (r: &VPath)
        ensures
            r@ == target_path(self@),
    {
        match self {
            ContextMenuTarget::Folder(p) => p,
            ContextMenuTarget::File(p) => p,
            ContextMenuTarget::Root(p) => p,
        }
    }

    /// The directory in which something new is created.
    pub fn dir_for_create(&self) -> (r: VPath)
        ensures
            r@ == create_dir(self@),
    {
        match self {
            ContextMenuTarget::Folder(p) => p.clone(),
            ContextMenuTarget::Root(p) => p.clone(),
            ContextMenuTarget::File(p) => match p.parent() {
                Some(d) => d,
                None => p.clone(),
            },
        }
    }
}

/// What a document is loaded for.
#[derive(Debug, Clone, Copy, PartialEq, Eq, Structural)]
pub enum LoadFor {
    /// The active tab.
    Tab,
    /// The active tab, with the first layout of its file.
    Retry,
    /// Another layout of the same file.
    Layout,
    /// An edit of the text.
    Edit,
    /// A change on disk.
    Disk,
}

/// A document to be loaded and built.
#[derive(Debug)]
pub struct LoadRequest {
    pub purpose: LoadFor,
    pub path: VPath,
    pub layout: String,
    /// What stands in the file; `None` if it is to be read from disk.
    pub text: Option<String>,
}

/// What a step asks of the outside.
#[derive(Debug)]
pub enum Request {
    Nothing,
    Exit,
    Redraw,
    RedrawPreview,
    /// Open the preview's own window, or close it.
    ToggleDetach,
    Load(LoadRequest),
    /// Read a file that is not open yet.
    Read(VPath),
    /// Write what was queued, to create an item.
    Write { steps: Vec<DiskStep>, created: VPath, is_file: bool },
    Rename { from: VPath, to: VPath },
    Delete(VPath),
    Save { path: VPath, text: String },
}

pub struct LoadView {
    pub purpose: LoadFor,
    pub path: Seq<Seq<char>>,
    pub layout: Seq<char>,
    pub text: Option<Seq<char>>,
}

impl View for LoadRequest {
    type V = LoadView;

    open spec fn view(&self) -> LoadView {
        LoadView {
            purpose: self.purpose,
            path: self.path@,
            layout: self.layout@,
            text: text_of(self.text),
        }
    }
}

/// The model of a request.
pub enum RequestView {
    Nothing,
    Exit,
    Redraw,
    RedrawPreview,
    ToggleDetach,
    Load(LoadView),
    Read(Seq<Seq<char>>),
    Write {
        steps: Seq<(Seq<Seq<char>>, Option<Seq<char>>)>,
        created: Seq<Seq<char>>,
        is_file: bool,
    },
    Rename { from: Seq<Seq<char>>, to: Seq<Seq<char>> },
    Delete(Seq<Seq<char>>),
    Save { path: Seq<Seq<char>>, text: Seq<char> },
}

impl View for Request {
    type V = RequestView;

    open spec fn view(&self) -> RequestView {
        match self {
            Request::Nothing => RequestView::Nothing,
            Request::Exit => RequestView::Exit,
            Request::Redraw => RequestView::Redraw,
            Request::RedrawPreview => RequestView::RedrawPreview,
            Request::ToggleDetach => RequestView::ToggleDetach,
            Request::Load(l) => RequestView::Load(l@),
            Request::Read(p) => RequestView::Read(p@),
            Request::Write { steps, created, is_file } => RequestView::Write {
                steps: steps_of(steps@),
                created: created@,
                is_file: *is_file,
            },
            Request::Rename { from, to } => RequestView::Rename { from: from@, to: to@ },
            Request::Delete(p) => RequestView::Delete(p@),
            Request::Save { path, text } => RequestView::Save { path: path@, text: text@ },
        }
    }
}

/// What the designer's window shows.
pub struct StateView {
    pub tree: Seq<NodeView>,
    /// Each tab's label, and whether it is the active one.
    pub tabs: Seq<(Seq<char>, bool)>,
    /// Each choice's label, and the layout it stands for.
    pub layout_options: Seq<(Seq<char>, Seq<char>)>,
    pub creating_hint: Seq<char>,
    pub popup_title: Seq<char>,
    pub popup_left: Seq<char>,
    pub popup_top: Seq<char>,
    pub context_menu_left: Seq<char>,
    pub context_menu_top: Seq<char>,
    pub context_menu_add_h: Seq<char>,
    pub context_menu_edit_h: Seq<char>,
    pub context_menu_rename_label: Seq<char>,
    pub context_menu_delete_label: Seq<char>,
    pub inspector_kind: Seq<char>,
    pub inspector_fields: Seq<(Seq<char>, Seq<char>)>,
}

/// The previewed document.
pub struct DocView<N> {
    pub path: Seq<Seq<char>>,
    pub layout: Seq<char>,
    pub names: Seq<Seq<char>>,
    pub hierarchy: Seq<(Seq<char>, Seq<char>)>,
    pub spans: Seq<(NodeId, Span)>,
    pub ui: Ui<N>,
}

/// The state of the designer.
pub struct AppModel<N> {
    pub ui: UiModel<N>,
    /// The prompt's text field.
    pub prompt: NodeId,
    /// The editor's text field.
    pub editor: NodeId,
    pub doc: DocView<N>,
    pub state: StateView,
    pub tabs: Seq<TabView>,
    pub active: Option<usize>,
    pub root: Seq<Seq<char>>,
    pub pending: Seq<PendingEntry>,
    /// Where something new goes.
    pub selected_dir: Seq<Seq<char>>,
    /// What the prompt is naming, renaming or editing, if anything.
    pub creating: Option<NewItemKind>,
    pub renaming: Option<Seq<Seq<char>>>,
    pub editing: Option<FieldView>,
    /// The selected widget's fields.
    pub fields: Seq<FieldView>,
    /// The selection and the text that `fields` was found for.
    pub inspected: Option<(NodeId, Seq<char>)>,
    pub menu: Option<(TargetView, Point<N>)>,
    /// The selected node of the preview.
    pub selected: Option<NodeId>,
    pub cursor: Point<N>,
    pub ctrl: bool,
    pub shift: bool,
    /// The preview has a window of its own.
    pub detached: bool,
    /// The project tree is to be scanned again.
    pub scan_wanted: bool,
    /// The tree's rows in order: the path, and whether it is a directory.
    pub rows: Seq<Option<(Seq<Seq<char>>, bool)>>,
    /// The file whose row was looked for last, and the row that is highlighted.
    pub highlighted_path: Option<Seq<Seq<char>>>,
    pub highlighted_row: Option<NodeId>,
    /// The height that no option list exceeds.
    pub popup_max_h: N,
}

// ---- what is shown ----

/// A tab's label: the file's name, marked while it has unsaved edits.
pub open spec fn tab_label(t: TabView) -> Seq<char> {
    let name = match base_name(t.path) {
        Some(n) => n,
        None => path_text(t.path),
    };
    if t.dirty {
        "● "@ + name
    } else {
        name
    }
}

pub open spec fn tab_infos(tabs: Seq<TabView>, active: Option<usize>) -> Seq<(Seq<char>, bool)> {
    Seq::new(tabs.len(), |i: int| (tab_label(tabs[i]), active == Some(i as usize)))
}

/// How the directory for new items is called.
pub open spec fn dir_label(selected: Seq<Seq<char>>, root: Seq<Seq<char>>) -> Seq<char> {
    if is_under(selected, root) && selected.len() > root.len() {
        path_text(selected.skip(root.len() as int)) + "/"@
    } else {
        "project root"@
    }
}

pub open spec fn field_word(f: FieldView) -> Seq<char> {
    if f.is_binding {
        "binding"@
    } else {
        "style"@
    }
}

pub open spec fn hint_text<N>(m: AppModel<N>) -> Seq<char> {
    match m.editing {
        Some(f) => "Editing the `"@ + f.label + "` "@ + field_word(f)
            + " — Enter to apply, Esc to cancel"@,
        None => match m.renaming {
            Some(p) => "Renaming "@ + name_or_empty(base_name(p)),
            None => match m.creating {
                Some(kind) => "New "@ + noun_of(kind) + " in "@ + dir_label(
                    m.selected_dir,
                    m.root,
                ) + " — Enter to create, Esc to cancel"@,
                None => IDLE_HINT@,
            },
        },
    }
}

pub open spec fn title_text<N>(m: AppModel<N>) -> Seq<char> {
    if m.editing is Some {
        "Edit Value"@
    } else if m.renaming is Some {
        "Rename"@
    } else {
        match m.creating {
            Some(NewItemKind::File) => "New File"@,
            Some(NewItemKind::Folder) => "New Folder"@,
            None => ""@,
        }
    }
}

pub open spec fn prompt_open<N>(m: AppModel<N>) -> bool {
    m.creating is Some || m.renaming is Some || m.editing is Some
}

/// Where the prompt stands, along either axis: over the window, or far off it.
pub open spec fn popup_place<N>(m: AppModel<N>) -> Seq<char> {
    if prompt_open(m) {
        "0px"@
    } else {
        "-9999px"@
    }
}

/// How tall the menu's rows for adding are, how tall those for changing, and what
/// the latter say.
pub open spec fn menu_rows<N>(menu: Option<(TargetView, Point<N>)>) -> (
    Seq<char>,
    Seq<char>,
    Seq<char>,
    Seq<char>,
) {
    match menu {
        Some((TargetView::Folder(_), _)) => ("32px"@, "32px"@, "Rename Folder"@, "Delete Folder"@),
        Some((TargetView::File(_), _)) => ("0px"@, "32px"@, "Rename File"@, "Delete File"@),
        Some((TargetView::Root(_), _)) => ("32px"@, "0px"@, ""@, ""@),
        None => ("0px"@, "0px"@, ""@, ""@),
    }
}

pub open spec fn menu_place<N: Num>(menu: Option<(TargetView, Point<N>)>) -> (Seq<char>, Seq<char>) {
    match menu {
        Some((_, p)) => (N::text_of(p.x) + "px"@, N::text_of(p.y) + "px"@),
        None => ("-9999px"@, "-9999px"@),
    }
}

/// The layouts to choose from: none, unless the file has several.
pub open spec fn layout_choices<N>(doc: DocView<N>) -> Seq<(Seq<char>, Seq<char>)> {
    if doc.names.len() > 1 {
        doc.hierarchy
    } else {
        Seq::empty()
    }
}

/// What the window shows of the state; the tree and the inspector stay.
#[verifier::opaque]
pub open spec fn shown<N: Num>(m: AppModel<N>) -> StateView {
    StateView {
        tree: m.state.tree,
        tabs: tab_infos(m.tabs, m.active),
        layout_options: layout_choices(m.doc),
        creating_hint: hint_text(m),
        popup_title: title_text(m),
        popup_left: popup_place(m),
        popup_top: popup_place(m),
        context_menu_left: menu_place(m.menu).0,
        context_menu_top: menu_place(m.menu).1,
        context_menu_add_h: menu_rows(m.menu).0,
        context_menu_edit_h: menu_rows(m.menu).1,
        context_menu_rename_label: menu_rows(m.menu).2,
        context_menu_delete_label: menu_rows(m.menu).3,
        inspector_kind: m.state.inspector_kind,
        inspector_fields: m.state.inspector_fields,
    }
}

pub open spec fn synced<N: Num>(m: AppModel<N>) -> AppModel<N> {
    AppModel { state: shown(m), ..m }
}

// ---- the inspector ----

pub open spec fn field_row(f: FieldView) -> (Seq<char>, Seq<char>) {
    (
        if f.is_binding {
            "{"@ + f.label + "}"@
        } else {
            f.label
        },
        f.value,
    )
}

/// What the inspector is to show: the selected node, and the text it stands in.
pub open spec fn inspector_key<N>(m: AppModel<N>) -> Option<(NodeId, Seq<char>)> {
    match m.selected {
        Some(id) => Some((id, field_of(m.ui, m.editor).text)),
        None => None,
    }
}

/// The inspector with a widget's fields, or with nothing.
pub open spec fn with_selection<N>(m: AppModel<N>, sel: Option<SelectionView>) -> AppModel<N> {
    match sel {
        Some(s) => AppModel {
            state: StateView {
                inspector_kind: s.kind,
                inspector_fields: s.fields.map_values(|f: FieldView| field_row(f)),
                ..m.state
            },
            fields: s.fields,
            ..m
        },
        None => AppModel {
            state: StateView {
                inspector_kind: Seq::empty(),
                inspector_fields: Seq::empty(),
                ..m.state
            },
            fields: Seq::empty(),
            ..m
        },
    }
}

/// The widget that is selected, in the parsed text `document`.
pub open spec fn selected_widget<N>(
    m: AppModel<N>,
    document: Option<Vec<AstNode>>,
) -> Option<SelectionView> {
    match m.selected {
        Some(id) => match span_from(m.doc.spans, id, 0) {
            Some(span) => match document {
                Some(nodes) => found_from(nodes, 0, span),
                None => None,
            },
            None => None,
        },
        None => None,
    }
}

/// The inspector once it was refreshed: only if the selection or the text changed.
pub open spec fn inspected<N>(m: AppModel<N>, document: Option<Vec<AstNode>>) -> AppModel<N> {
    if inspector_key(m) == m.inspected {
        m
    } else {
        let a = AppModel { inspected: inspector_key(m), ..m };
        with_selection(a, selected_widget(m, document))
    }
}

// ---- tabs and files ----

pub open spec fn with_tab<N>(m: AppModel<N>, t: TabView) -> AppModel<N> {
    match m.active {
        Some(i) => AppModel { tabs: m.tabs.update(i as int, t), ..m },
        None => m,
    }
}

/// The active tab holds what is in the editor.
pub open spec fn kept_edits<N>(m: AppModel<N>) -> AppModel<N> {
    match m.active {
        Some(i) => {
            let f = field_of(m.ui, m.editor);
            let t = m.tabs[i as int];
            with_tab(
                m,
                TabView {
                    dirty: t.dirty || t.buffer != f.text,
                    buffer: f.text,
                    cursor: f.cursor as usize,
                    anchor: f.anchor,
                    ..t
                },
            )
        },
        None => m,
    }
}

/// The selection's other end, if it lies in a text of `len` characters.
pub open spec fn kept_anchor(anchor: Option<usize>, len: nat) -> Option<usize> {
    match anchor {
        Some(a) => if a <= len {
            Some(a)
        } else {
            None
        },
        None => None,
    }
}

/// A tab's buffer as the editor shows it.
pub open spec fn tab_field(t: TabView) -> FieldState {
    FieldState {
        text: t.buffer,
        cursor: if t.cursor <= t.buffer.len() {
            t.cursor as int
        } else {
            t.buffer.len() as int
        },
        anchor: kept_anchor(t.anchor, t.buffer.len()),
    }
}

/// The layout that a tab previews; the usual one until its file was loaded.
pub open spec fn tab_layout(t: TabView) -> Seq<char> {
    match t.layout {
        Some(l) => l,
        None => "App"@,
    }
}

/// The active tab in the editor; its document is to be loaded.
#[verifier::opaque]
pub open spec fn tab_shown<N>(m: AppModel<N>) -> (AppModel<N>, RequestView) {
    match m.active {
        Some(i) => {
            let t = m.tabs[i as int];
            (
                AppModel { ui: with_field(m.ui, m.editor, tab_field(t)), selected: None, ..m },
                RequestView::Load(
                    LoadView {
                        purpose: LoadFor::Tab,
                        path: t.path,
                        layout: tab_layout(t),
                        text: Some(t.buffer),
                    },
                ),
            )
        },
        None => (m, RequestView::Nothing),
    }
}

/// `path` opened in a tab: at once if it is open already, else once it was read.
pub open spec fn file_opened<N>(m: AppModel<N>, path: Seq<Seq<char>>) -> (AppModel<N>, RequestView) {
    let a = kept_edits(m);
    match tab_index(a.tabs, path, 0) {
        Some(i) => tab_shown(AppModel { active: Some(i), ..a }),
        None => (a, RequestView::Read(path)),
    }
}

/// `path` in a tab of its own, once it was read.
pub open spec fn file_read_in<N>(m: AppModel<N>, path: Seq<Seq<char>>, text: Seq<char>) -> (
    AppModel<N>,
    RequestView,
) {
    match tab_index(m.tabs, path, 0) {
        Some(i) => tab_shown(AppModel { active: Some(i), ..m }),
        None => tab_shown(
            AppModel {
                tabs: m.tabs.push(fresh_tab(path, text)),
                active: Some(m.tabs.len() as usize),
                ..m
            },
        ),
    }
}

pub open spec fn tab_switched<N>(m: AppModel<N>, index: usize) -> (AppModel<N>, RequestView) {
    let a = kept_edits(m);
    if index < a.tabs.len() {
        tab_shown(AppModel { active: Some(index), ..a })
    } else {
        (a, RequestView::Nothing)
    }
}

pub open spec fn tab_closed<N: Num>(m: AppModel<N>) -> (AppModel<N>, RequestView) {
    match m.active {
        Some(i) => {
            let left = m.tabs.remove(i as int);
            let a = AppModel {
                tabs: left,
                active: next_active(i as int, left.len() as int),
                ..m
            };
            if left.len() > 0 {
                tab_shown(a)
            } else {
                (synced(a), RequestView::Nothing)
            }
        },
        None => (m, RequestView::Nothing),
    }
}

/// Another layout of the file is to be previewed.
pub open spec fn layout_picked<N>(m: AppModel<N>, name: Seq<char>) -> RequestView {
    RequestView::Load(
        LoadView {
            purpose: LoadFor::Layout,
            path: m.doc.path,
            layout: name,
            text: Some(field_of(m.ui, m.editor).text),
        },
    )
}

/// The document is to be built from what is in the editor.
pub open spec fn source_edited<N>(m: AppModel<N>) -> (AppModel<N>, RequestView) {
    let text = field_of(m.ui, m.editor).text;
    let a = AppModel { selected: None, ..m };
    let b = match a.active {
        Some(i) => with_tab(
            a,
            TabView { dirty: a.tabs[i as int].buffer != text, buffer: text, ..a.tabs[i as int] },
        ),
        None => a,
    };
    (
        b,
        RequestView::Load(
            LoadView {
                purpose: LoadFor::Edit,
                path: m.doc.path,
                layout: m.doc.layout,
                text: Some(text),
            },
        ),
    )
}

/// The document is to be loaded from disk again.
pub open spec fn disk_changed<N>(m: AppModel<N>) -> (AppModel<N>, RequestView) {
    (
        AppModel { selected: None, ..m },
        RequestView::Load(
            LoadView {
                purpose: LoadFor::Disk,
                path: m.doc.path,
                layout: m.doc.layout,
                text: None,
            },
        ),
    )
}

/// What a document became once it was loaded for `l`: what was asked for is what it
/// shows from now on, and what was built replaces what was shown, if anything was.
pub open spec fn doc_after<N>(d: DocView<N>, l: LoadView, built: Option<DocView<N>>) -> DocView<N> {
    let asked = match l.purpose {
        LoadFor::Tab => DocView { path: l.path, layout: l.layout, ..d },
        LoadFor::Retry => DocView { path: l.path, layout: l.layout, ..d },
        LoadFor::Layout => DocView { layout: l.layout, ..d },
        LoadFor::Edit => d,
        LoadFor::Disk => d,
    };
    match built {
        Some(b) => DocView {
            names: b.names,
            hierarchy: b.hierarchy,
            spans: b.spans,
            ui: b.ui,
            ..asked
        },
        None => asked,
    }
}

/// The active tab remembers layout `name`.
pub open spec fn layout_kept<N>(m: AppModel<N>, name: Seq<char>) -> AppModel<N> {
    match m.active {
        Some(i) => with_tab(m, TabView { layout: Some(name), ..m.tabs[i as int] }),
        None => m,
    }
}

/// What a load for `l` leads to. `built` is what was built, if that succeeded, and
/// `first` the first layout of the loaded text.
pub open spec fn load_done<N: Num>(
    m: AppModel<N>,
    l: LoadView,
    built: Option<DocView<N>>,
    first: Option<Seq<char>>,
) -> (AppModel<N>, RequestView) {
    let a = AppModel { doc: doc_after(m.doc, l, built), ..m };
    match l.purpose {
        LoadFor::Tab => if built is None && first is Some {
            (
                a,
                RequestView::Load(
                    LoadView { purpose: LoadFor::Retry, layout: first->0, ..l },
                ),
            )
        } else {
            (synced(layout_kept(a, a.doc.layout)), RequestView::Nothing)
        },
        LoadFor::Retry => (synced(layout_kept(a, a.doc.layout)), RequestView::Nothing),
        LoadFor::Layout => if built is Some {
            (
                synced(AppModel { selected: None, ..layout_kept(a, l.layout) }),
                RequestView::Nothing,
            )
        } else {
            (a, RequestView::Nothing)
        },
        LoadFor::Edit => (synced(a), RequestView::Nothing),
        LoadFor::Disk => (a, RequestView::Nothing),
    }
}

pub open spec fn save_request<N>(m: AppModel<N>) -> RequestView {
    RequestView::Save { path: m.doc.path, text: field_of(m.ui, m.editor).text }
}

pub open spec fn save_done<N: Num>(m: AppModel<N>, ok: bool) -> AppModel<N> {
    if ok {
        match m.active {
            Some(i) => synced(with_tab(m, TabView { dirty: false, ..m.tabs[i as int] })),
            None => synced(m),
        }
    } else {
        m
    }
}

// ---- the prompt and the context menu ----

pub open spec fn menu_opened<N: Num>(m: AppModel<N>, t: TargetView) -> AppModel<N> {
    synced(
        AppModel {
            menu: Some((t, m.cursor)),
            selected: None,
            ui: with_focus(m.ui, None),
            ..m
        },
    )
}

pub open spec fn menu_closed<N: Num>(m: AppModel<N>) -> AppModel<N> {
    synced(AppModel { menu: None, ..m })
}

/// The prompt with `text` in it, and with the focus.
pub open spec fn prompt_filled<N>(m: AppModel<N>, text: Seq<char>) -> AppModel<N> {
    AppModel { ui: with_focus(with_field(m.ui, m.prompt, filled(text)), Some(m.prompt)), ..m }
}

pub open spec fn naming_started<N: Num>(m: AppModel<N>, kind: NewItemKind) -> AppModel<N> {
    synced(
        prompt_filled(
            AppModel {
                creating: Some(kind),
                renaming: None,
                editing: None,
                selected: None,
                ..m
            },
            Seq::empty(),
        ),
    )
}

/// Something new is to be named, in the directory that the menu was opened on.
pub open spec fn adding_started<N: Num>(m: AppModel<N>, kind: NewItemKind) -> AppModel<N> {
    let dir = match m.menu {
        Some((t, _)) => create_dir(t),
        None => m.selected_dir,
    };
    naming_started(AppModel { menu: None, selected_dir: dir, ..m }, kind)
}

pub open spec fn renaming_started<N: Num>(m: AppModel<N>) -> AppModel<N> {
    match m.menu {
        Some((t, _)) => synced(
            prompt_filled(
                AppModel {
                    menu: None,
                    creating: None,
                    editing: None,
                    renaming: Some(target_path(t)),
                    selected: None,
                    ..m
                },
                name_or_empty(base_name(target_path(t))),
            ),
        ),
        None => m,
    }
}

pub open spec fn deleting_started<N: Num>(m: AppModel<N>) -> (AppModel<N>, RequestView) {
    match m.menu {
        Some((t, _)) => (
            synced(AppModel { menu: None, ..m }),
            RequestView::Delete(target_path(t)),
        ),
        None => (m, RequestView::Nothing),
    }
}

/// The active tab lies in `path`.
pub open spec fn active_under<N>(m: AppModel<N>, path: Seq<Seq<char>>) -> bool {
    m.active matches Some(i) && is_under(m.tabs[i as int].path, path)
}

/// The tabs in a path that is gone are closed.
pub open spec fn tabs_dropped<N>(m: AppModel<N>, path: Seq<Seq<char>>) -> AppModel<N> {
    AppModel {
        tabs: left_tabs(m.tabs, path, m.tabs.len()),
        active: active_after(m.tabs, m.active, path),
        ..m
    }
}

/// The project tree is to be scanned again.
pub open spec fn rescanned<N>(m: AppModel<N>) -> AppModel<N> {
    AppModel { scan_wanted: true, highlighted_path: None, ..m }
}

pub open spec fn delete_done<N: Num>(m: AppModel<N>, path: Seq<Seq<char>>, ok: bool) -> (
    AppModel<N>,
    RequestView,
) {
    if !ok {
        (m, RequestView::Nothing)
    } else {
        let a = tabs_dropped(m, path);
        let (b, r) = if active_under(m, path) {
            tab_shown(a)
        } else {
            (a, RequestView::Nothing)
        };
        let dir = if is_under(b.selected_dir, path) {
            b.root
        } else {
            b.selected_dir
        };
        (synced(rescanned(AppModel { selected_dir: dir, ..b })), r)
    }
}

pub open spec fn prompt_closed<N: Num>(m: AppModel<N>) -> AppModel<N> {
    synced(
        AppModel {
            creating: None,
            renaming: None,
            editing: None,
            ui: with_focus(with_field(m.ui, m.prompt, filled(Seq::empty())), None),
            ..m
        },
    )
}

/// What the prompt holds, without the space around it.
pub open spec fn prompt_text<N>(m: AppModel<N>) -> Seq<char> {
    trimmed(field_of(m.ui, m.prompt).text)
}

/// The steps that write what is queued, and then the item `created`.
pub open spec fn creation_steps(
    pending: Seq<PendingEntry>,
    created: Seq<Seq<char>>,
    is_file: bool,
) -> Seq<(Seq<Seq<char>>, Option<Seq<char>>)> {
    let own: Seq<(Seq<Seq<char>>, Option<Seq<char>>)> = if !is_file {
        seq![(created, None)]
    } else if created.len() == 0 || created == seq!["/"@] {
        seq![(created, Some(Seq::empty()))]
    } else {
        seq![(created.drop_last(), None), (created, Some(Seq::empty()))]
    };
    flush_steps(pending, pending.len()) + own
}

/// The prompt was confirmed while an item was named.
pub open spec fn naming_done<N: Num>(m: AppModel<N>, kind: NewItemKind) -> (
    AppModel<N>,
    RequestView,
) {
    let name = prompt_text(m);
    let a = prompt_closed(m);
    if name.len() == 0 {
        (a, RequestView::Nothing)
    } else {
        let created = path_join(a.selected_dir, name);
        (
            AppModel { pending: Seq::empty(), ..a },
            RequestView::Write {
                steps: creation_steps(a.pending, created, kind is File),
                created,
                is_file: kind is File,
            },
        )
    }
}

pub open spec fn write_done<N: Num>(
    m: AppModel<N>,
    created: Seq<Seq<char>>,
    is_file: bool,
    ok: bool,
) -> (AppModel<N>, RequestView) {
    if !ok {
        (m, RequestView::Nothing)
    } else if is_file {
        file_opened(rescanned(m), created)
    } else {
        (synced(rescanned(m)), RequestView::Nothing)
    }
}

/// Where a renamed entry goes.
pub open spec fn renamed_path(from: Seq<Seq<char>>, name: Seq<char>) -> Seq<Seq<char>> {
    if base_name(from) is None {
        path_join(from, name)
    } else {
        path_join(from.drop_last(), name)
    }
}

/// The prompt was confirmed while an entry was renamed.
pub open spec fn renaming_done<N: Num>(m: AppModel<N>, from: Seq<Seq<char>>) -> (
    AppModel<N>,
    RequestView,
) {
    let name = prompt_text(m);
    let a = prompt_closed(m);
    if name.len() == 0 {
        (a, RequestView::Nothing)
    } else {
        (a, RequestView::Rename { from, to: renamed_path(from, name) })
    }
}

pub open spec fn rename_done<N: Num>(
    m: AppModel<N>,
    from: Seq<Seq<char>>,
    to: Seq<Seq<char>>,
    ok: bool,
) -> (AppModel<N>, RequestView) {
    if !ok {
        (m, RequestView::Nothing)
    } else {
        let a = rescanned(
            AppModel {
                tabs: retargeted(m.tabs, from, to),
                selected_dir: moved(m.selected_dir, from, to),
                ..m
            },
        );
        if active_under(m, from) {
            tab_shown(a)
        } else {
            (synced(a), RequestView::Nothing)
        }
    }
}

/// A field as it stands in the source: what the prompt is filled with to edit it.
pub open spec fn field_source(f: FieldView) -> Seq<char> {
    if f.is_binding {
        f.value
    } else if f.value.len() == 0 {
        f.label
    } else {
        f.label + "-["@ + f.value + "]"@
    }
}

pub open spec fn editing_started<N: Num>(m: AppModel<N>, index: usize) -> AppModel<N> {
    if index < m.fields.len() {
        let f = m.fields[index as int];
        synced(
            AppModel {
                creating: None,
                renaming: None,
                editing: Some(f),
                ..prompt_filled(m, field_source(f))
            },
        )
    } else {
        m
    }
}

/// `after` is `source` with field `f` replaced by `text`.
pub open spec fn is_patched(source: Seq<char>, f: FieldView, text: Seq<char>, after: Seq<char>) -> bool {
    encode_utf8(after) == spliced(
        encode_utf8(source),
        f.span,
        encode_utf8(
            if f.is_binding {
                binding_text(f.label, text)
            } else {
                text
            },
        ),
    )
}

/// `source` with field `f` replaced by `text`.
pub open spec fn patched(source: Seq<char>, f: FieldView, text: Seq<char>) -> Seq<char> {
    choose|after: Seq<char>| is_patched(source, f, text, after)
}

/// The prompt was confirmed while a field was edited.
pub open spec fn editing_done<N: Num>(m: AppModel<N>, f: FieldView) -> (AppModel<N>, RequestView) {
    let text = prompt_text(m);
    let a = AppModel {
        editing: None,
        ui: with_focus(with_field(m.ui, m.prompt, filled(Seq::empty())), None),
        ..m
    };
    if text.len() == 0 {
        (synced(a), RequestView::Nothing)
    } else {
        let after = patched(field_of(m.ui, m.editor).text, f, text);
        source_edited(AppModel { ui: with_field(a.ui, m.editor, filled(after)), ..a })
    }
}

/// The prompt was confirmed.
#[verifier::opaque]
pub open spec fn confirmed<N: Num>(m: AppModel<N>) -> (AppModel<N>, RequestView) {
    match m.editing {
        Some(f) => editing_done(m, f),
        None => match m.renaming {
            Some(p) => renaming_done(m, p),
            None => match m.creating {
                Some(kind) => naming_done(m, kind),
                None => (m, RequestView::Nothing),
            },
        },
    }
}

// ---- clicks and keys ----

/// How many of the first `n` characters of `cs` stand before byte `b`.
pub open spec fn chars_before(cs: Seq<char>, n: nat, b: int) -> nat
    decreases n,
{
    if n == 0 {
        0
    } else if encode_utf8(cs.take(n - 1)).len() < b {
        n
    } else {
        chars_before(cs, (n - 1) as nat, b)
    }
}

/// What node `id` of the preview was made from, selected in the editor.
pub open spec fn source_selected<N>(m: AppModel<N>, id: NodeId) -> AppModel<N> {
    let text = field_of(m.ui, m.editor).text;
    match span_from(m.doc.spans, id, 0) {
        Some(span) => if span.start <= encode_utf8(text).len() && span.end <= encode_utf8(
            text,
        ).len() {
            AppModel {
                ui: with_field(
                    with_focus(m.ui, Some(m.editor)),
                    m.editor,
                    FieldState {
                        text,
                        cursor: chars_before(text, text.len(), span.end as int) as int,
                        anchor: Some(chars_before(text, text.len(), span.start as int) as usize),
                    },
                ),
                ..m
            }
        } else {
            m
        },
        None => m,
    }
}

/// What a button does.
#[derive(Debug, Clone, Copy, PartialEq, Eq, Structural)]
pub enum ButtonAction {
    Cancel,
    Confirm,
    AddFolder,
    AddFile,
    Rename,
    Delete,
    Tab(usize),
    Field(usize),
    Nothing,
}

/// What a left click is for.
#[derive(Debug)]
pub enum Click {
    /// A row of an open option list.
    Pick(NodeId),
    /// A dropdown's box.
    Dropdown(NodeId),
    Editor,
    Prompt,
    /// A tree row's triangle.
    Triangle(NodeId),
    Folder(VPath),
    File(VPath),
    /// A tree row that stands for nothing.
    Row,
    Button(ButtonAction),
    /// A node of the preview.
    Preview(NodeId),
    Elsewhere,
}

/// The model of a click.
pub enum ClickView {
    Pick(NodeId),
    Dropdown(NodeId),
    Editor,
    Prompt,
    Triangle(NodeId),
    Folder(Seq<Seq<char>>),
    File(Seq<Seq<char>>),
    Row,
    Button(ButtonAction),
    Preview(NodeId),
    Elsewhere,
}

impl View for Click {
    type V = ClickView;

    open spec fn view(&self) -> ClickView {
        match self {
            Click::Pick(id) => ClickView::Pick(*id),
            Click::Dropdown(id) => ClickView::Dropdown(*id),
            Click::Editor => ClickView::Editor,
            Click::Prompt => ClickView::Prompt,
            Click::Triangle(id) => ClickView::Triangle(*id),
            Click::Folder(p) => ClickView::Folder(p@),
            Click::File(p) => ClickView::File(p@),
            Click::Row => ClickView::Row,
            Click::Button(a) => ClickView::Button(*a),
            Click::Preview(id) => ClickView::Preview(*id),
            Click::Elsewhere => ClickView::Elsewhere,
        }
    }
}

/// What a button leads to.
#[verifier::opaque]
pub open spec fn button_pressed<N: Num>(m: AppModel<N>, a: ButtonAction) -> (
    AppModel<N>,
    RequestView,
) {
    match a {
        ButtonAction::Cancel => (prompt_closed(m), RequestView::Nothing),
        ButtonAction::Confirm => confirmed(m),
        ButtonAction::AddFolder => (adding_started(m, NewItemKind::Folder), RequestView::Nothing),
        ButtonAction::AddFile => (adding_started(m, NewItemKind::File), RequestView::Nothing),
        ButtonAction::Rename => (renaming_started(m), RequestView::Nothing),
        ButtonAction::Delete => deleting_started(m),
        ButtonAction::Tab(i) => tab_switched(m, i),
        ButtonAction::Field(i) => (editing_started(m, i), RequestView::Nothing),
        ButtonAction::Nothing => (m, RequestView::Nothing),
    }
}

/// A text field with the caret at its end, and nothing selected.
pub open spec fn caret_to_end(f: FieldState) -> FieldState {
    FieldState { text: f.text, cursor: f.text.len() as int, anchor: None }
}

/// A row of the layout picker was clicked.
pub open spec fn option_picked<N: Num>(m: AppModel<N>, id: NodeId) -> (AppModel<N>, RequestView) {
    let n = m.ui.nodes[id.0 as int].rest;
    let row = row_at(n, m.cursor);
    let a = AppModel { ui: picked(m.ui, id, row), ..m };
    if has_row(n.kind, row) && row < m.state.layout_options.len() {
        (a, layout_picked(a, m.state.layout_options[row as int].1))
    } else {
        (a, RequestView::Nothing)
    }
}

/// What a left click leads to. Unless it is on the menu itself, it closes the menu.
pub open spec fn left_clicked<N: Num>(m: AppModel<N>, click: ClickView, on_menu: bool) -> (
    AppModel<N>,
    RequestView,
) {
    let shut = AppModel { ui: all_shut(m.ui), ..m };
    let a = if on_menu {
        shut
    } else {
        menu_closed(shut)
    };
    match click {
        ClickView::Pick(id) => option_picked(m, id),
        ClickView::Dropdown(id) => (
            AppModel { ui: toggled_dropdown(m.ui, id), ..m },
            RequestView::Nothing,
        ),
        _ => click_applied(a, click),
    }
}

/// What a left click leads to that is not on a dropdown, once popups are closed.
#[verifier::opaque]
pub open spec fn click_applied<N: Num>(a: AppModel<N>, click: ClickView) -> (
    AppModel<N>,
    RequestView,
) {
    match click {
        ClickView::Pick(id) => (a, RequestView::Nothing),
        ClickView::Dropdown(id) => (a, RequestView::Nothing),
        ClickView::Editor => (
            AppModel {
                selected: None,
                ui: with_field(
                    with_focus(a.ui, Some(a.editor)),
                    a.editor,
                    caret_to_end(field_of(a.ui, a.editor)),
                ),
                ..a
            },
            RequestView::Nothing,
        ),
        ClickView::Prompt => (
            AppModel {
                selected: None,
                ui: with_field(
                    with_focus(a.ui, Some(a.prompt)),
                    a.prompt,
                    caret_to_end(field_of(a.ui, a.prompt)),
                ),
                ..a
            },
            RequestView::Nothing,
        ),
        ClickView::Triangle(id) => (AppModel { ui: flipped(a.ui, id), ..a }, RequestView::Nothing),
        ClickView::Folder(p) => (synced(AppModel { selected_dir: p, ..a }), RequestView::Nothing),
        ClickView::File(p) => file_opened(a, p),
        ClickView::Row => (a, RequestView::Nothing),
        ClickView::Button(b) => button_pressed(a, b),
        ClickView::Preview(id) => (
            source_selected(AppModel { selected: Some(id), ..a }, id),
            RequestView::Nothing,
        ),
        ClickView::Elsewhere => (
            AppModel { selected: None, ui: with_focus(a.ui, None), ..a },
            RequestView::Nothing,
        ),
    }
}

/// `key` is the letter `c`, in either case.
pub open spec fn is_letter_key(key: Key, lower: char, upper: char) -> bool {
    key == Key::Char(lower) || key == Key::Char(upper)
}

/// The interface with a key typed into text field `id`, and whether its text
/// changed.
pub open spec fn typed<N>(
    m: AppModel<N>,
    id: NodeId,
    key: Key,
    text: Option<Seq<char>>,
) -> (AppModel<N>, bool) {
    let e = edited(
        field_of(m.ui, id),
        m.ui.nodes[id.0 as int].rest.style.multiline,
        key,
        text,
        m.shift,
    );
    (AppModel { ui: with_field(m.ui, id, e.0), ..m }, e.1)
}

/// What a key leads to: the shortcuts first, then the open menu, then the prompt,
/// then the editor, if it has the focus.
pub open spec fn key_pressed<N: Num>(m: AppModel<N>, key: Key, text: Option<Seq<char>>) -> (
    AppModel<N>,
    RequestView,
) {
    if m.ctrl && is_letter_key(key, 's', 'S') {
        (m, save_request(m))
    } else if m.ctrl && is_letter_key(key, 'd', 'D') {
        (AppModel { detached: !m.detached, ..m }, RequestView::ToggleDetach)
    } else if m.ctrl && is_letter_key(key, 'w', 'W') {
        tab_closed(m)
    } else if m.menu is Some && key == Key::Escape {
        (menu_closed(m), RequestView::Nothing)
    } else if m.ui.focus == Some(m.prompt) {
        if key == Key::Enter {
            confirmed(m)
        } else if key == Key::Escape {
            (prompt_closed(m), RequestView::Nothing)
        } else {
            (typed(m, m.prompt, key, text).0, RequestView::Nothing)
        }
    } else if m.ui.focus == Some(m.editor) {
        let t = typed(m, m.editor, key, text);
        if t.1 {
            source_edited(t.0)
        } else {
            (t.0, RequestView::Nothing)
        }
    } else {
        (m, RequestView::Nothing)
    }
}

// ---- laws ----

/// The prompt is for at most one thing.
pub open spec fn one_purpose<N>(m: AppModel<N>) -> bool {
    &&& m.creating is Some ==> m.renaming is None && m.editing is None
    &&& m.renaming is Some ==> m.editing is None
}

/// The window shows the state.
pub open spec fn is_synced<N: Num>(m: AppModel<N>) -> bool {
    m.state == shown(m)
}

/// Whatever a key does, the prompt stays for at most one thing.
#[verifier::rlimit(40)]
pub proof fn law_keys_keep_one_purpose<N: Num>(m: AppModel<N>, key: Key, text: Option<Seq<char>>)
    requires
        one_purpose(m),
    ensures
        one_purpose(key_pressed(m, key, text).0),
{
    reveal(confirmed);
    reveal(tab_shown);
}

/// Whatever a click does, the prompt stays for at most one thing.
#[verifier::rlimit(40)]
pub proof fn law_clicks_keep_one_purpose<N: Num>(m: AppModel<N>, click: ClickView, on_menu: bool)
    requires
        one_purpose(m),
    ensures
        one_purpose(left_clicked(m, click, on_menu).0),
{
    let shut = AppModel { ui: all_shut(m.ui), ..m };
    let a = if on_menu {
        shut
    } else {
        menu_closed(shut)
    };
    assert(one_purpose(a));
    reveal(click_applied);
    match click {
        ClickView::Button(b) => {
            lemma_button_keeps_one_purpose(a, b);
        },
        ClickView::File(p) => {
            lemma_opening_keeps_one_purpose(a, p);
        },
        _ => {},
    }
}

proof fn lemma_opening_keeps_one_purpose<N>(m: AppModel<N>, p: Seq<Seq<char>>)
    requires
        one_purpose(m),
    ensures
        one_purpose(file_opened(m, p).0),
{
    reveal(tab_shown);
}

#[verifier::rlimit(40)]
proof fn lemma_button_keeps_one_purpose<N: Num>(m: AppModel<N>, b: ButtonAction)
    requires
        one_purpose(m),
    ensures
        one_purpose(button_pressed(m, b).0),
{
    reveal(button_pressed);
    reveal(confirmed);
    reveal(tab_shown);
}

/// A closed prompt is off the window, and an open one on it.
pub proof fn law_prompt_shows_while_open<N: Num>(m: AppModel<N>)
    ensures
        synced(m).state.popup_left == if prompt_open(m) {
            "0px"@
        } else {
            "-9999px"@
        },
        synced(prompt_closed(m)) == prompt_closed(m),
        !prompt_open(prompt_closed(m)),
{
    reveal(shown);
}

/// Showing the state twice shows the same.
pub proof fn law_sync_is_stable<N: Num>(m: AppModel<N>)
    ensures
        synced(synced(m)) == synced(m),
        is_synced(synced(m)),
{
    reveal(shown);
}

/// Switching away from a tab and back gives its text back: what is in the editor is
/// kept in the tab, and is what the tab shows again.
pub proof fn law_switching_keeps_edits<N: Num>(m: AppModel<N>, other: usize)
    requires
        m.active matches Some(i) && i < m.tabs.len() && i != other,
        other < m.tabs.len(),
        m.editor.0 < m.ui.nodes.len(),
        0 <= field_of(m.ui, m.editor).cursor <= field_of(m.ui, m.editor).text.len(),
        field_of(m.ui, m.editor).cursor <= usize::MAX,
        field_of(m.ui, m.editor).anchor matches Some(a) ==> a <= field_of(m.ui, m.editor).text.len(),
    ensures
        ({
            let i = m.active->0;
            let away = tab_switched(m, other).0;
            let back = tab_switched(away, i).0;
            field_of(back.ui, back.editor) == field_of(m.ui, m.editor)
        }),
{
    reveal(tab_shown);
    let i = m.active->0;
    let kept = kept_edits(m);
    let away = tab_switched(m, other).0;
    assert(away.tabs == kept.tabs);
    assert(away.active == Some(other));
    let again = kept_edits(away);
    assert(again.tabs[i as int] == kept.tabs[i as int]);
    let back = tab_switched(away, i).0;
    let f = field_of(m.ui, m.editor);
    assert(field_of(back.ui, back.editor) == tab_field(kept.tabs[i as int]));
    assert(kept.tabs[i as int].buffer == f.text);
}

/// A failed load leaves what is previewed in place.
pub proof fn law_failed_load_keeps_preview<N: Num>(
    m: AppModel<N>,
    l: LoadView,
    first: Option<Seq<char>>,
)
    ensures
        ({
            let d = load_done(m, l, None, first).0.doc;
            &&& d.ui == m.doc.ui
            &&& d.names == m.doc.names
            &&& d.hierarchy == m.doc.hierarchy
            &&& d.spans == m.doc.spans
        }),
{
}

/// Refreshing the inspector again changes nothing.
pub proof fn law_refresh_is_stable<N>(m: AppModel<N>, document: Option<Vec<AstNode>>)
    ensures
        inspected(inspected(m, document), document) == inspected(m, document),
{
}

} // verus!
