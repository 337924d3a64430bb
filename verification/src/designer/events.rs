//! The designer's events: what a click or a key is for, and what it leads to.

use vstd::prelude::*;
use vstd::string::*;
use vstd::utf8::*;
use crate::designer::app::{doc_view, path_view, row_view, row_views, state_view, DesignerApp};
use crate::designer::chrome::{lemma_ready_kept, Chrome};
use crate::designer::document::Span;
use crate::designer::editor::Key;
use crate::designer::inspector::field_views;
use crate::designer::model::{
    button_pressed, caret_to_end, chars_before, click_applied, key_pressed, left_clicked,
    menu_closed, menu_opened, option_picked, source_selected, synced, AppModel, ButtonAction, Click,
    ClickView, typed, ContextMenuTarget, NewItemKind, Request, RequestView, TargetView,
};
use crate::designer::nodes::{
    all_shut, close_open_dropdowns, field_of, find_open_dropdown_popup_at, last_position,
    last_position_of, lemma_live_in_range, live_nodes, live_nodes_matching, place_caret, popup_from,
    position, position_from, same_fields, scroll_at, scrolled, scroller_at, select_dropdown_option,
    shut_node, text_of_field, toggle_dropdown, toggle_row, type_into, ui_model, with_field,
    with_focus, with_node, NodeModel, UiModel, Want,
};
use crate::designer::paths::{path_of, VPath};
use crate::designer::preview::PreviewDoc;
use crate::designer::state::{node_views, DesignerState, NodeView, VfsNode};
use crate::designer::tabs::{fresh_tab, text_of, TabView, Tabs};
use crate::designer::virtual_fs::{VfsEntry, VirtualFs};
use crate::text::{chars_of, lemma_encode_concat, lemma_encode_one, utf8_width};
use crate::toolkit::arena::{hit_layers, law_topmost_is_under_point, Node, NodeId, NodeKind, Ui};
use crate::toolkit::geometry::{origin, Color, Point};
use crate::toolkit::measure::TREE_TRIANGLE_W;
use crate::toolkit::num::{whole, Num};
use crate::toolkit::style::Style;
use crate::toolkit::text_input::char_len;

verus! {

// ---- the rows of the project tree ----

/// What a row of the tree stands for: a path, and whether it is a directory; none
/// for the mark where the tree is cut off.
pub open spec fn row_of(n: NodeView) -> Option<(Seq<Seq<char>>, bool)> {
    if n.truncated {
        None
    } else {
        Some((path_of(n.path), n.is_dir))
    }
}

/// The rows of the entries from `i` on: each entry before what is in it.
pub open spec fn rows_from(nodes: Seq<NodeView>, i: int) -> Seq<Option<(Seq<Seq<char>>, bool)>>
    decreases nodes, nodes.len() - i,
{
    if 0 <= i < nodes.len() {
        seq![row_of(nodes[i])] + rows_from(nodes[i].children, 0) + rows_from(nodes, i + 1)
    } else {
        Seq::empty()
    }
}

/// Appends the rows of `nodes`.
pub fn flatten_tree_paths(nodes: &Vec<VfsNode>, out: &mut Vec<Option<(VPath, bool)>>)
    ensures
        row_views(final(out)@) == row_views(old(out)@) + rows_from(node_views(nodes@), 0),
    decreases nodes,
{
    let ghost views = node_views(nodes@);
    let ghost start = row_views(out@);
    let ghost all = rows_from(views, 0);
    let mut i: usize = 0;
    while i < nodes.len()
        invariant
            0 <= i <= nodes@.len(),
            views == node_views(nodes@),
            row_views(out@) + rows_from(views, i as int) == start + all,
        decreases nodes@.len() - i,
    {
        let ghost before = row_views(out@);
        let n: &VfsNode = &nodes[i];
        assert(views[i as int] == n@);
        let row: Option<(VPath, bool)> = if n.truncated {
            None
        } else {
            Some((VPath::parse(n.path.as_str()), n.is_dir))
        };
        out.push(row);
        assert(row_views(out@) =~= before.push(row_of(views[i as int])));
        assert(n@.children =~= node_views(n.children@));
        flatten_tree_paths(&n.children, out);
        i = i + 1;
        assert(row_views(out@) + rows_from(views, i as int) =~= before + rows_from(views, i - 1));
    }
    assert(row_views(out@) + rows_from(views, i as int) =~= row_views(out@));
}

/// Where the row for file or folder `path` stands, from `i` on.
pub open spec fn row_index(
    rows: Seq<Option<(Seq<Seq<char>>, bool)>>,
    path: Seq<Seq<char>>,
    i: int,
) -> Option<int>
    decreases rows.len() - i,
{
    if 0 <= i < rows.len() {
        if rows[i] matches Some(r) && r.0 == path {
            Some(i)
        } else {
            row_index(rows, path, i + 1)
        }
    } else {
        None
    }
}

fn find_row(rows: &Vec<Option<(VPath, bool)>>, path: &VPath) -> (r: Option<usize>)
    ensures
        match r {
            Some(i) => row_index(row_views(rows@), path@, 0) == Some(i as int),
            None => row_index(row_views(rows@), path@, 0) is None,
        },
{
    let ghost views = row_views(rows@);
    let mut i: usize = 0;
    while i < rows.len()
        invariant
            0 <= i <= rows@.len(),
            views == row_views(rows@),
            row_index(views, path@, i as int) == row_index(views, path@, 0),
        decreases rows@.len() - i,
    {
        assert(views[i as int] == row_view(rows@[i as int]));
        let found: bool = match &rows[i] {
            Some((p, _)) => p.same(path),
            None => false,
        };
        if found {
            return Some(i);
        }
        i = i + 1;
    }
    None
}

// ---- highlighting the active file's row ----

pub open spec fn active_bg() -> Color {
    Color { r: 0x09, g: 0x47, b: 0x71, a: 255 }
}

pub open spec fn active_text() -> Color {
    Color { r: 255, g: 255, b: 255, a: 255 }
}

pub open spec fn inactive_text() -> Color {
    Color { r: 0xcc, g: 0xcc, b: 0xcc, a: 255 }
}

/// A node in other colors.
pub open spec fn coloured<N>(n: NodeModel<N>, bg: Option<Color>, text_color: Color) -> NodeModel<N> {
    NodeModel {
        field: n.field,
        rest: Node {
            base_style: Style { bg, text_color, ..n.rest.base_style },
            style: Style { bg, text_color, ..n.rest.style },
            ..n.rest
        },
    }
}

pub open spec fn with_colours<N>(
    m: UiModel<N>,
    id: NodeId,
    bg: Option<Color>,
    text_color: Color,
) -> UiModel<N> {
    with_node(m, id, coloured(m.nodes[id.0 as int], bg, text_color))
}

pub open spec fn active_path<N>(m: AppModel<N>) -> Option<Seq<Seq<char>>> {
    match m.active {
        Some(i) => Some(m.tabs[i as int].path),
        None => None,
    }
}

/// The state with no row highlighted.
pub open spec fn unhighlighted<N>(m: AppModel<N>) -> AppModel<N> {
    AppModel {
        highlighted_row: None,
        ui: match m.highlighted_row {
            Some(id) => if id.0 < m.ui.nodes.len() {
                with_colours(m.ui, id, None, inactive_text())
            } else {
                m.ui
            },
            None => m.ui,
        },
        ..m
    }
}

/// The state with the active file's row highlighted; `live` are the rows that are
/// shown.
pub open spec fn highlighted<N>(m: AppModel<N>, live: Seq<NodeId>) -> AppModel<N> {
    if active_path(m) == m.highlighted_path {
        m
    } else {
        let a = unhighlighted(AppModel { highlighted_path: active_path(m), ..m });
        match active_path(m) {
            Some(p) => match row_index(rows_from(m.state.tree, 0), p, 0) {
                Some(i) => if i < live.len() {
                    AppModel {
                        highlighted_row: Some(live[i]),
                        ui: with_colours(a.ui, live[i], Some(active_bg()), active_text()),
                        ..a
                    }
                } else {
                    a
                },
                None => a,
            },
            None => a,
        }
    }
}

/// Nothing but the window's interface and the record of the highlighted row differs.
pub open spec fn only_rows_differ<N>(before: DesignerApp<N>, after: DesignerApp<N>) -> bool {
    &&& after == (DesignerApp {
        chrome: after.chrome,
        last_highlighted_path: after.last_highlighted_path,
        highlighted_tree_item: after.highlighted_tree_item,
        ..before
    })
    &&& after.chrome == (Chrome { ui: after.chrome.ui, ..before.chrome })
}

fn colour_row<N: Num>(chrome: &mut Chrome<N>, id: NodeId, bg: Option<Color>, text_color: Color)
    requires
        old(chrome).ready(),
        id.0 < old(chrome).ui.nodes@.len(),
    ensures
        final(chrome).ready(),
        final(chrome).new_item_node == old(chrome).new_item_node,
        final(chrome).editor_node == old(chrome).editor_node,
        same_fields(old(chrome).ui, final(chrome).ui),
        ui_model(final(chrome).ui) == with_colours(ui_model(old(chrome).ui), id, bg, text_color),
{
    let ghost before = *chrome;
    let at: usize = id.0 as usize;
    let node: &mut Node<N> = &mut chrome.ui.nodes[at];
    node.base_style.bg = bg;
    node.base_style.text_color = text_color;
    node.style.bg = bg;
    node.style.text_color = text_color;
    proof {
        crate::designer::nodes::lemma_node_changed(before.ui, chrome.ui, id);
        lemma_ready_kept(before, *chrome);
    }
}

// ---- what an event is for ----

/// What comes in.
#[derive(Debug)]
pub enum Event<N> {
    /// The preview's own window is to be closed, or drawn.
    PreviewCloseRequested,
    PreviewRedrawRequested,
    CloseRequested,
    RedrawRequested,
    ModifiersChanged { ctrl: bool, shift: bool },
    CursorMoved(Point<N>),
    LeftPress,
    RightPress,
    /// Another mouse button.
    OtherPress,
    /// The wheel was turned, in lines or in pixels.
    WheelLines { x: N, y: N },
    WheelPixels { x: N, y: N },
    KeyPress { key: Key, text: Option<String> },
    /// Anything else.
    Other,
}

/// What row of the tree node `id` is.
pub open spec fn row_path<N: Num>(app: DesignerApp<N>, id: NodeId) -> Option<(Seq<Seq<char>>, bool)> {
    let live = live_nodes(app.chrome.ui, app.chrome.ui.layers@.len(), Want::TreeRows);
    match last_position_of(live, id, live.len()) {
        Some(i) => if i < app.flat_tree_paths@.len() {
            row_view(app.flat_tree_paths@[i as int])
        } else {
            None
        },
        None => None,
    }
}

/// What a click on tree row `id` is for.
pub open spec fn row_click<N: Num>(app: DesignerApp<N>, id: NodeId) -> ClickView {
    let n = app.chrome.ui.nodes@[id.0 as int];
    if n.children@.len() > 0 && N::lt_of(
        N::sub_of(app.cursor.x, n.computed.x),
        whole(TREE_TRIANGLE_W as int),
    ) {
        ClickView::Triangle(id)
    } else {
        match row_path(app, id) {
            Some((p, is_dir)) => if is_dir {
                ClickView::Folder(p)
            } else {
                ClickView::File(p)
            },
            None => ClickView::Row,
        }
    }
}

/// What button `id` does: by its place in the region it is in.
pub open spec fn button_of<N: Num>(chrome: Chrome<N>, id: NodeId) -> ButtonAction {
    match position_from(chrome.region_buttons(chrome.popup_region()), id, 0) {
        Some(i) => if i == 0 {
            ButtonAction::Cancel
        } else if i == 1 {
            ButtonAction::Confirm
        } else {
            ButtonAction::Nothing
        },
        None => match position_from(chrome.region_buttons(chrome.menu_region()), id, 0) {
            Some(i) => if i == 0 {
                ButtonAction::AddFolder
            } else if i == 1 {
                ButtonAction::AddFile
            } else if i == 2 {
                ButtonAction::Rename
            } else if i == 3 {
                ButtonAction::Delete
            } else {
                ButtonAction::Nothing
            },
            None => match position_from(chrome.region_buttons(chrome.tab_region()), id, 0) {
                Some(i) => ButtonAction::Tab(i),
                None => match position_from(
                    chrome.region_buttons(chrome.field_region()),
                    id,
                    0,
                ) {
                    Some(i) => ButtonAction::Field(i),
                    None => ButtonAction::Nothing,
                },
            },
        },
    }
}

/// What is under the mouse.
pub open spec fn hit_now<N: Num>(ui: Ui<N>, p: Point<N>) -> Option<NodeId> {
    match hit_layers(ui, ui.layers@.len(), p) {
        Some(i) => Some(NodeId(i as u32)),
        None => None,
    }
}

/// What a left click is for: an open option list first, then a dropdown, the text
/// fields, the tree, the buttons, and last the preview.
pub open spec fn click_of<N: Num>(app: DesignerApp<N>) -> ClickView {
    let ui = app.chrome.ui;
    match popup_from(ui.nodes@, app.cursor, app.popup_max_h, 0) {
        Some(id) => ClickView::Pick(id),
        None => match hit_now(ui, app.cursor) {
            Some(id) => {
                let kind = ui.nodes@[id.0 as int].kind;
                if kind is Dropdown {
                    ClickView::Dropdown(id)
                } else if id == app.chrome.editor_node {
                    ClickView::Editor
                } else if id == app.chrome.new_item_node {
                    ClickView::Prompt
                } else if kind is TreeViewItem {
                    row_click(app, id)
                } else if kind is Button {
                    ClickView::Button(button_of(app.chrome, id))
                } else {
                    preview_click(app)
                }
            },
            None => preview_click(app),
        },
    }
}

pub open spec fn preview_click<N: Num>(app: DesignerApp<N>) -> ClickView {
    match hit_now(app.doc.ui, app.cursor) {
        Some(id) => ClickView::Preview(id),
        None => ClickView::Elsewhere,
    }
}

/// The mouse is on one of the context menu's own buttons.
pub open spec fn on_menu<N: Num>(app: DesignerApp<N>) -> bool {
    match hit_now(app.chrome.ui, app.cursor) {
        Some(id) => position_from(
            app.chrome.region_buttons(app.chrome.menu_region()),
            id,
            0,
        ) is Some,
        None => false,
    }
}

/// What the context menu opens on: the tree row under the mouse, or else the
/// project root.
pub open spec fn menu_target<N: Num>(app: DesignerApp<N>) -> TargetView {
    let root = TargetView::Root(app.vfs.root@);
    match hit_now(app.chrome.ui, app.cursor) {
        Some(id) => if app.chrome.ui.nodes@[id.0 as int].kind is TreeViewItem {
            match row_path(app, id) {
                Some((p, is_dir)) => if is_dir {
                    TargetView::Folder(p)
                } else {
                    TargetView::File(p)
                },
                None => root,
            }
        } else {
            root
        },
        None => root,
    }
}

pub open spec fn wheel_turned<N: Num>(app: DesignerApp<N>, dx: N, dy: N) -> AppModel<N> {
    let m = app.model();
    AppModel { ui: scrolled(m.ui, scroller_at(app.chrome.ui, app.cursor), dx, dy), ..m }
}

/// What an event leads to.
pub open spec fn event_done<N: Num>(app: DesignerApp<N>, event: Event<N>) -> (
    AppModel<N>,
    RequestView,
) {
    let m = app.model();
    match event {
        Event::PreviewCloseRequested => (
            AppModel { detached: !m.detached, ..m },
            RequestView::ToggleDetach,
        ),
        Event::PreviewRedrawRequested => (m, RequestView::RedrawPreview),
        Event::CloseRequested => (m, RequestView::Exit),
        Event::RedrawRequested => (m, RequestView::Redraw),
        Event::ModifiersChanged { ctrl, shift } => (
            AppModel { ctrl, shift, ..m },
            RequestView::Nothing,
        ),
        Event::CursorMoved(p) => (
            AppModel { cursor: p, ui: UiModel { cursor: p, ..m.ui }, ..m },
            RequestView::Nothing,
        ),
        Event::LeftPress => left_clicked(m, click_of(app), on_menu(app)),
        Event::RightPress => (
            menu_opened(AppModel { ui: all_shut(m.ui), ..m }, menu_target(app)),
            RequestView::Nothing,
        ),
        Event::OtherPress => (
            if on_menu(app) {
                m
            } else {
                menu_closed(m)
            },
            RequestView::Nothing,
        ),
        Event::WheelLines { x, y } => (
            wheel_turned(app, N::mul_of(x, whole(40)), N::mul_of(y, whole(40))),
            RequestView::Nothing,
        ),
        Event::WheelPixels { x, y } => (wheel_turned(app, x, y), RequestView::Nothing),
        Event::KeyPress { key, text } => key_pressed(m, key, text_of(text)),
        Event::Other => (m, RequestView::Nothing),
    }
}

/// There is room to type `text` into text field `id`.
pub open spec fn room_to_type<N: Num>(app: DesignerApp<N>, id: NodeId, text: Option<String>) -> bool {
    let f = field_of(ui_model(app.chrome.ui), id);
    &&& f.cursor < usize::MAX
    &&& text matches Some(t) ==> f.cursor + t@.len() <= usize::MAX
}

/// The event confirms the prompt.
pub open spec fn confirms<N: Num>(app: DesignerApp<N>, event: Event<N>) -> bool {
    match event {
        Event::LeftPress => click_of(app) == ClickView::Button(ButtonAction::Confirm),
        Event::KeyPress { key, .. } => key == Key::Enter && app.chrome.ui.focus == Some(
            app.chrome.new_item_node,
        ),
        _ => false,
    }
}

/// There is room for what an event types.
pub open spec fn event_fits<N: Num>(app: DesignerApp<N>, event: Event<N>) -> bool {
    event matches Event::KeyPress { key, text } ==> room_to_type(
        app,
        app.chrome.editor_node,
        text,
    ) && room_to_type(app, app.chrome.new_item_node, text)
}

// ---- characters and bytes ----

proof fn lemma_prefix_grows(cs: Seq<char>, i: int, j: int)
    requires
        0 <= i <= j <= cs.len(),
    ensures
        encode_utf8(cs.take(i)).len() <= encode_utf8(cs.take(j)).len(),
{
    assert(cs.take(j) =~= cs.take(i) + cs.subrange(i, j));
    lemma_encode_concat(cs.take(i), cs.subrange(i, j));
}

proof fn lemma_chars_before(cs: Seq<char>, n: nat, i: nat, b: int)
    requires
        i <= n <= cs.len(),
        i < n ==> encode_utf8(cs.take(i as int)).len() >= b,
        i > 0 ==> encode_utf8(cs.take(i - 1)).len() < b,
    ensures
        chars_before(cs, n, b) == i,
    decreases n,
{
    if n > i {
        lemma_prefix_grows(cs, i as int, n - 1);
        lemma_chars_before(cs, (n - 1) as nat, i, b);
    }
}

/// Where a character starts, as many characters stand before it.
pub proof fn law_chars_before_boundary(cs: Seq<char>, k: nat)
    requires
        k <= cs.len(),
    ensures
        chars_before(cs, cs.len(), encode_utf8(cs.take(k as int)).len() as int) == k,
{
    let b = encode_utf8(cs.take(k as int)).len() as int;
    if k > 0 {
        let c = cs[k - 1];
        assert(cs.take(k as int) =~= cs.take(k - 1) + seq![c]);
        lemma_encode_concat(cs.take(k - 1), seq![c]);
        lemma_encode_one(c);
    }
    lemma_chars_before(cs, cs.len(), k, b);
}

/// How many characters of `s` stand before byte `b`.
fn count_chars_before(s: &str, b: usize) -> (r: usize)
    ensures
        r == chars_before(s@, s@.len(), b as int),
{
    let cs: Vec<char> = chars_of(s);
    let total: usize = s.as_bytes().len();
    let mut at: usize = 0;
    let mut i: usize = 0;
    assert(s@.take(0) =~= Seq::<char>::empty());
    while i < cs.len() && at < b
        invariant
            0 <= i <= cs@.len(),
            cs@ == s@,
            total == encode_utf8(s@).len(),
            at == encode_utf8(s@.take(i as int)).len(),
            i > 0 ==> encode_utf8(s@.take(i - 1)).len() < b,
        decreases cs@.len() - i,
    {
        proof {
            let a = s@.take(i as int);
            let c = s@[i as int];
            assert(s@.take(i + 1) =~= a + seq![c]);
            lemma_encode_concat(a, seq![c]);
            lemma_encode_one(c);
            lemma_encode_concat(s@.take(i + 1), s@.skip(i + 1));
            assert(s@.take(i + 1) + s@.skip(i + 1) =~= s@);
        }
        at = at + utf8_width(cs[i]);
        i = i + 1;
    }
    proof {
        lemma_chars_before(s@, s@.len(), i as nat, b as int);
    }
    i
}

/// The state that the designer starts in: one tab, for the previewed file.
pub open spec fn started<N: Num>(
    chrome: Chrome<N>,
    doc: PreviewDoc<N>,
    state: DesignerState,
    vfs: VirtualFs,
    popup_max_h: N,
) -> AppModel<N> {
    let d = doc_view(doc);
    let ui = ui_model(chrome.ui);
    synced(
        AppModel {
            ui,
            prompt: chrome.new_item_node,
            editor: chrome.editor_node,
            doc: d,
            state: state_view(state),
            tabs: seq![
                TabView {
                    layout: Some(d.layout),
                    ..fresh_tab(d.path, field_of(ui, chrome.editor_node).text)
                },
            ],
            active: Some(0usize),
            root: vfs.root@,
            pending: vfs.queue(),
            selected_dir: vfs.root@,
            creating: None,
            renaming: None,
            editing: None,
            fields: Seq::empty(),
            inspected: None,
            menu: None,
            selected: None,
            cursor: origin(),
            ctrl: false,
            shift: false,
            detached: false,
            scan_wanted: false,
            rows: rows_from(node_views(state.tree@), 0),
            highlighted_path: None,
            highlighted_row: None,
            popup_max_h,
        },
    )
}

/// The project tree was scanned again, with the given result.
pub open spec fn scan_done<N>(m: AppModel<N>, tree: Option<NodeView>) -> AppModel<N> {
    match tree {
        Some(t) => AppModel {
            state: crate::designer::model::StateView { tree: seq![t], ..m.state },
            rows: rows_from(seq![t], 0),
            highlighted_path: None,
            ..m
        },
        None => m,
    }
}

impl<N: Num> DesignerApp<N> {
    /// The designer, with the previewed file in its one tab.
    pub fn new(
        chrome: Chrome<N>,
        doc: PreviewDoc<N>,
        state: DesignerState,
        vfs: VirtualFs,
        popup_max_h: N,
    ) -> (r: DesignerApp<N>)
        requires
            chrome.ready(),
            doc.ui.wf(),
        ensures
            r.wf(),
            r.model() == started(chrome, doc, state, vfs, popup_max_h),
    {
        let mut tabs: Tabs = Tabs::default();
        let buffer: String = chrome.editor_text().to_owned();
        let _ = tabs.open_new(&doc.entry_path, buffer);
        let layout: String = doc.entry_layout().to_owned();
        if let Some(tab) = tabs.active_mut() {
            tab.selected_layout = Some(layout);
        }
        let selected_dir: VPath = vfs.root.clone();
        let mut rows: Vec<Option<(VPath, bool)>> = Vec::new();
        assert(row_views(rows@) =~= Seq::empty());
        flatten_tree_paths(&state.tree, &mut rows);
        let mut app: DesignerApp<N> = DesignerApp {
            chrome,
            doc,
            state,
            tabs,
            vfs,
            selected_dir,
            creating: None,
            renaming: None,
            editing_field: None,
            inspector_fields: Vec::new(),
            last_inspector_key: None,
            context_menu: None,
            last_highlighted_path: None,
            highlighted_tree_item: None,
            cursor: Point::default(),
            ctrl: false,
            shift: false,
            detached: false,
            selected_node: None,
            scan_wanted: false,
            flat_tree_paths: rows,
            popup_max_h,
        };
        proof {
            let t = TabView {
                layout: Some(doc_view(doc).layout),
                ..fresh_tab(doc.entry_path@, field_of(ui_model(chrome.ui), chrome.editor_node).text)
            };
            assert(app.tabs.tabs() =~= seq![t]);
            assert(row_views(app.flat_tree_paths@) =~= rows_from(node_views(state.tree@), 0));
            assert(field_views(app.inspector_fields@) =~= Seq::empty());
        }
        app.sync_reactive_state();
        app
    }

    /// The scan that was asked for is done; it gave the project's tree, or failed.
    pub fn scan_finished(&mut self, entry: Option<&VfsEntry>)
        requires
            old(self).wf(),
        ensures
            final(self).wf(),
            final(self).model() == scan_done(
                old(self).model(),
                match entry {
                    Some(e) => Some(crate::designer::state::shown_entry(e@)),
                    None => None,
                },
            ),
    {
        if let Some(e) = entry {
            let mut tree: Vec<VfsNode> = Vec::new();
            tree.push(VfsNode::from_entry(e));
            let mut rows: Vec<Option<(VPath, bool)>> = Vec::new();
            assert(row_views(rows@) =~= Seq::empty());
            flatten_tree_paths(&tree, &mut rows);
            proof {
                let t = crate::designer::state::shown_entry(e@);
                assert(node_views(tree@) =~= seq![t]);
                assert(row_views(rows@) =~= rows_from(seq![t], 0));
            }
            self.state.tree = tree;
            self.flat_tree_paths = rows;
            self.last_highlighted_path = None;
        }
    }

    /// Highlights the active file's row of the tree, if the active file changed.
    #[verifier::rlimit(40)]
    pub fn apply_active_row_highlight(&mut self)
        requires
            old(self).wf(),
        ensures
            final(self).wf(),
            final(self).model() == highlighted(
                old(self).model(),
                live_nodes(
                    old(self).chrome.ui,
                    old(self).chrome.ui.layers@.len(),
                    Want::TreeRows,
                ),
            ),
            same_fields(old(self).chrome.ui, final(self).chrome.ui),
            only_rows_differ(*old(self), *final(self)),
    {
        let ghost m = self.model();
        let active: Option<VPath> = match self.tabs.active() {
            Some(t) => Some(t.path.clone()),
            None => None,
        };
        assert(path_view(active) == active_path(m));
        let same: bool = match (&active, &self.last_highlighted_path) {
            (Some(a), Some(b)) => a.same(b),
            (None, None) => true,
            _ => false,
        };
        if same {
            return ;
        }
        let live: Vec<NodeId> = live_nodes_matching(&self.chrome.ui, Want::TreeRows);
        proof {
            lemma_live_in_range(self.chrome.ui, self.chrome.ui.layers@.len(), Want::TreeRows);
        }
        let ghost nodes = self.chrome.ui.nodes@.len();
        assert(m.ui.nodes.len() == nodes);
        let mut rows: Vec<Option<(VPath, bool)>> = Vec::new();
        assert(row_views(rows@) =~= Seq::empty());
        flatten_tree_paths(&self.state.tree, &mut rows);
        assert(row_views(rows@) =~= rows_from(m.state.tree, 0));
        let found: Option<usize> = match &active {
            Some(p) => find_row(&rows, p),
            None => None,
        };
        if let Some(old_row) = self.highlighted_tree_item {
            if (old_row.0 as usize) < self.chrome.ui.nodes.len() {
                colour_row(
                    &mut self.chrome,
                    old_row,
                    None,
                    Color { r: 0xcc, g: 0xcc, b: 0xcc, a: 255 },
                );
            }
        }
        assert(ui_model(self.chrome.ui).nodes.len() == nodes);
        self.highlighted_tree_item = None;
        self.last_highlighted_path = active;
        if let Some(i) = found {
            if i < live.len() {
                let id: NodeId = live[i];
                colour_row(
                    &mut self.chrome,
                    id,
                    Some(Color { r: 0x09, g: 0x47, b: 0x71, a: 255 }),
                    Color { r: 255, g: 255, b: 255, a: 255 },
                );
                self.highlighted_tree_item = Some(id);
            }
        }
    }

    /// What tree row `id` stands for.
    fn tree_click_path(&self, id: NodeId) -> (r: Option<(VPath, bool)>)
        requires
            self.wf(),
        ensures
            row_view(r) == row_path(*self, id),
    {
        let live: Vec<NodeId> = live_nodes_matching(&self.chrome.ui, Want::TreeRows);
        match last_position(&live, id) {
            Some(i) => if i < self.flat_tree_paths.len() {
                match &self.flat_tree_paths[i] {
                    Some((p, is_dir)) => Some((p.clone(), *is_dir)),
                    None => None,
                }
            } else {
                None
            },
            None => None,
        }
    }

    fn row_click_target(&self, id: NodeId) -> (r: Click)
        requires
            self.wf(),
            id.0 < self.chrome.ui.nodes@.len(),
        ensures
            r@ == row_click(*self, id),
    {
        let node: &Node<N> = self.chrome.ui.get(id);
        let local_x: N = self.cursor.x.minus(node.computed.x);
        if node.children.len() > 0 && local_x.less(N::ratio(TREE_TRIANGLE_W, 1)) {
            return Click::Triangle(id);
        }
        match self.tree_click_path(id) {
            Some((p, is_dir)) => if is_dir {
                Click::Folder(p)
            } else {
                Click::File(p)
            },
            None => Click::Row,
        }
    }

    fn button_target(&self, id: NodeId) -> (r: ButtonAction)
        requires
            self.wf(),
        ensures
            r == button_of(self.chrome, id),
    {
        if let Some(i) = position(&self.chrome.popup_buttons(), id) {
            return match i {
                0 => ButtonAction::Cancel,
                1 => ButtonAction::Confirm,
                _ => ButtonAction::Nothing,
            };
        }
        if let Some(i) = position(&self.chrome.context_menu_buttons(), id) {
            return match i {
                0 => ButtonAction::AddFolder,
                1 => ButtonAction::AddFile,
                2 => ButtonAction::Rename,
                3 => ButtonAction::Delete,
                _ => ButtonAction::Nothing,
            };
        }
        if let Some(i) = position(&self.chrome.tab_strip_buttons(), id) {
            return ButtonAction::Tab(i);
        }
        match position(&self.chrome.inspector_field_buttons(), id) {
            Some(i) => ButtonAction::Field(i),
            None => ButtonAction::Nothing,
        }
    }

    /// What is under the mouse in the designer's own interface.
    fn hit_chrome(&self) -> (r: Option<NodeId>)
        requires
            self.wf(),
        ensures
            r == hit_now(self.chrome.ui, self.cursor),
            r matches Some(id) ==> id.0 < self.chrome.ui.nodes@.len(),
    {
        let r: Option<NodeId> = self.chrome.ui.hit_test(self.cursor);
        proof {
            law_topmost_is_under_point(
                self.chrome.ui,
                self.chrome.ui.layers@.len(),
                self.cursor,
            );
        }
        r
    }

    /// Whether `hit` is one of the context menu's own buttons.
    fn is_context_menu_button(&self, hit: Option<NodeId>) -> (r: bool)
        requires
            self.wf(),
            hit == hit_now(self.chrome.ui, self.cursor),
        ensures
            r == on_menu(*self),
    {
        match hit {
            Some(id) => position(&self.chrome.context_menu_buttons(), id).is_some(),
            None => false,
        }
    }

    fn preview_target(&self) -> (r: Click)
        requires
            self.wf(),
        ensures
            r@ == preview_click(*self),
    {
        match self.doc.ui.hit_test(self.cursor) {
            Some(id) => Click::Preview(id),
            None => Click::Elsewhere,
        }
    }

    /// What a left click is for.
    pub fn click_target(&self) -> (r: Click)
        requires
            self.wf(),
        ensures
            r@ == click_of(*self),
            match r {
                Click::Pick(id) => id.0 < self.chrome.ui.nodes@.len(),
                Click::Dropdown(id) => id.0 < self.chrome.ui.nodes@.len(),
                Click::Triangle(id) => id.0 < self.chrome.ui.nodes@.len(),
                _ => true,
            },
    {
        if let Some(id) = find_open_dropdown_popup_at(
            &self.chrome.ui,
            self.cursor,
            self.popup_max_h,
        ) {
            return Click::Pick(id);
        }
        match self.hit_chrome() {
            Some(id) => match &self.chrome.ui.get(id).kind {
                NodeKind::Dropdown { .. } => Click::Dropdown(id),
                kind => if id == self.chrome.editor_node {
                    Click::Editor
                } else if id == self.chrome.new_item_node {
                    Click::Prompt
                } else {
                    match kind {
                        NodeKind::TreeViewItem { .. } => self.row_click_target(id),
                        NodeKind::Button { .. } => Click::Button(self.button_target(id)),
                        _ => self.preview_target(),
                    }
                },
            },
            None => self.preview_target(),
        }
    }

    /// What the context menu opens on.
    fn context_target(&self) -> (r: ContextMenuTarget)
        requires
            self.wf(),
        ensures
            r@ == menu_target(*self),
    {
        let row: Option<(VPath, bool)> = match self.hit_chrome() {
            Some(id) => match &self.chrome.ui.get(id).kind {
                NodeKind::TreeViewItem { .. } => self.tree_click_path(id),
                _ => None,
            },
            None => None,
        };
        match row {
            Some((p, is_dir)) => if is_dir {
                ContextMenuTarget::Folder(p)
            } else {
                ContextMenuTarget::File(p)
            },
            None => ContextMenuTarget::Root(self.vfs.root.clone()),
        }
    }

    #[verifier::rlimit(40)]
    fn press_button(&mut self, a: ButtonAction) -> (r: Request)
        requires
            old(self).wf(),
            a == ButtonAction::Confirm ==> old(self).edit_fits(),
        ensures
            final(self).wf(),
            (final(self).model(), r@) == button_pressed(old(self).model(), a),
    {
        proof {
            reveal(button_pressed);
        }
        match a {
            ButtonAction::Cancel => {
                self.cancel_creating();
                Request::Nothing
            },
            ButtonAction::Confirm => self.confirm_new_item(),
            ButtonAction::AddFolder => {
                self.context_menu_add(NewItemKind::Folder);
                Request::Nothing
            },
            ButtonAction::AddFile => {
                self.context_menu_add(NewItemKind::File);
                Request::Nothing
            },
            ButtonAction::Rename => {
                self.start_renaming();
                Request::Nothing
            },
            ButtonAction::Delete => self.context_menu_delete(),
            ButtonAction::Tab(i) => self.switch_tab(i),
            ButtonAction::Field(i) => {
                self.start_editing_field(i);
                Request::Nothing
            },
            ButtonAction::Nothing => Request::Nothing,
        }
    }

    /// Selects in the editor what node `id` of the preview was made from.
    fn select_in_source(&mut self, id: NodeId)
        requires
            old(self).wf(),
        ensures
            final(self).wf(),
            final(self).model() == source_selected(old(self).model(), id),
    {
        let span: Span = match self.doc.node_span(id) {
            Some(s) => s,
            None => {
                return ;
            },
        };
        let text: &str = self.chrome.editor_text();
        let len: usize = text.as_bytes().len();
        if span.start > len || span.end > len {
            return ;
        }
        let start: usize = count_chars_before(text, span.start);
        let end: usize = count_chars_before(text, span.end);
        self.chrome.set_focus(Some(self.chrome.editor_node));
        let ghost before = self.chrome;
        place_caret(&mut self.chrome.ui, self.chrome.editor_node, end, Some(start));
        proof {
            lemma_ready_kept(before, self.chrome);
        }
    }

    /// Gives the focus to text field `id`, with the caret at its end.
    fn focus_field(&mut self, id: NodeId)
        requires
            old(self).wf(),
            id == old(self).chrome.editor_node || id == old(self).chrome.new_item_node,
        ensures
            final(self).wf(),
            ({
                let m = old(self).model();
                final(self).model() == (AppModel {
                    selected: None,
                    ui: with_field(
                        with_focus(m.ui, Some(id)),
                        id,
                        caret_to_end(field_of(m.ui, id)),
                    ),
                    ..m
                })
            }),
    {
        self.selected_node = None;
        self.chrome.set_focus(Some(id));
        let len: usize = char_len(text_of_field(&self.chrome.ui, id));
        let ghost before = self.chrome;
        place_caret(&mut self.chrome.ui, id, len, None);
        proof {
            lemma_ready_kept(before, self.chrome);
        }
    }

    /// Closes every open option list, and the context menu, unless it is to stay.
    fn close_popups(&mut self, menu_stays: bool)
        requires
            old(self).wf(),
        ensures
            final(self).wf(),
            old(self).edit_fits() ==> final(self).edit_fits(),
            final(self).chrome.ui.nodes@.len() == old(self).chrome.ui.nodes@.len(),
            ({
                let m = old(self).model();
                let shut = AppModel { ui: all_shut(m.ui), ..m };
                final(self).model() == if menu_stays {
                    shut
                } else {
                    menu_closed(shut)
                }
            }),
    {
        let ghost before = self.chrome;
        close_open_dropdowns(&mut self.chrome.ui);
        proof {
            lemma_ready_kept(before, self.chrome);
            let m = ui_model(before.ui);
            let id = before.editor_node;
            assert(all_shut(m).nodes[id.0 as int] == shut_node(m.nodes[id.0 as int]));
        }
        if !menu_stays {
            self.close_context_menu();
        }
    }

    fn pick_option(&mut self, id: NodeId) -> (r: Request)
        requires
            old(self).wf(),
            id.0 < old(self).chrome.ui.nodes@.len(),
        ensures
            final(self).wf(),
            (final(self).model(), r@) == option_picked(old(self).model(), id),
    {
        let ghost m = self.model();
        let ghost before = self.chrome;
        let row: Option<usize> = select_dropdown_option(&mut self.chrome.ui, id, self.cursor);
        proof {
            lemma_ready_kept(before, self.chrome);
        }
        match row {
            Some(i) => if i < self.state.layout_options.len() {
                assert(m.state.layout_options[i as int].1
                    == self.state.layout_options@[i as int].id@);
                self.select_layout(self.state.layout_options[i].id.as_str())
            } else {
                Request::Nothing
            },
            None => Request::Nothing,
        }
    }

    /// Does what a left click is for.
    #[verifier::rlimit(40)]
    fn left_press(&mut self) -> (r: Request)
        requires
            old(self).wf(),
            click_of(*old(self)) == ClickView::Button(ButtonAction::Confirm) ==> old(
                self,
            ).edit_fits(),
        ensures
            final(self).wf(),
            (final(self).model(), r@) == left_clicked(
                old(self).model(),
                click_of(*old(self)),
                on_menu(*old(self)),
            ),
    {
        let click: Click = self.click_target();
        let hit: Option<NodeId> = self.hit_chrome();
        let stays: bool = self.is_context_menu_button(hit);
        if let Click::Pick(id) = click {
            return self.pick_option(id);
        }
        if let Click::Dropdown(id) = click {
            let ghost before = self.chrome;
            toggle_dropdown(&mut self.chrome.ui, id);
            proof {
                lemma_ready_kept(before, self.chrome);
            }
            return Request::Nothing;
        }
        self.close_popups(stays);
        self.apply_click(click)
    }

    /// Does what a left click is for that is not on a dropdown.
    #[verifier::rlimit(40)]
    fn apply_click(&mut self, click: Click) -> (r: Request)
        requires
            old(self).wf(),
            click@ == ClickView::Button(ButtonAction::Confirm) ==> old(self).edit_fits(),
            click matches Click::Triangle(id) ==> id.0 < old(self).chrome.ui.nodes@.len(),
        ensures
            final(self).wf(),
            (final(self).model(), r@) == click_applied(old(self).model(), click@),
    {
        proof {
            reveal(click_applied);
        }
        match click {
            Click::Pick(_) => Request::Nothing,
            Click::Dropdown(_) => Request::Nothing,
            Click::Editor => {
                self.focus_field(self.chrome.editor_node);
                Request::Nothing
            },
            Click::Prompt => {
                self.focus_field(self.chrome.new_item_node);
                Request::Nothing
            },
            Click::Triangle(id) => {
                let ghost before = self.chrome;
                toggle_row(&mut self.chrome.ui, id);
                proof {
                    lemma_ready_kept(before, self.chrome);
                }
                Request::Nothing
            },
            Click::Folder(p) => {
                self.selected_dir = p;
                self.sync_reactive_state();
                Request::Nothing
            },
            Click::File(p) => self.open_file(p),
            Click::Row => Request::Nothing,
            Click::Button(a) => self.press_button(a),
            Click::Preview(id) => {
                self.selected_node = Some(id);
                self.select_in_source(id);
                Request::Nothing
            },
            Click::Elsewhere => {
                self.selected_node = None;
                self.chrome.set_focus(None);
                Request::Nothing
            },
        }
    }

    /// Types a key into text field `id`. Returns whether its text changed.
    fn type_key(&mut self, id: NodeId, key: Key, text: Option<&str>) -> (r: bool)
        requires
            old(self).wf(),
            id == old(self).chrome.editor_node || id == old(self).chrome.new_item_node,
            field_of(old(self).model().ui, id).cursor < usize::MAX,
            text matches Some(t) ==> field_of(old(self).model().ui, id).cursor + t@.len()
                <= usize::MAX,
        ensures
            final(self).wf(),
            (final(self).model(), r) == typed(
                old(self).model(),
                id,
                key,
                match text {
                    Some(t) => Some(t@),
                    None => None,
                },
            ),
    {
        let ghost before = self.chrome;
        let r: bool = type_into(&mut self.chrome.ui, id, key, text, self.shift);
        proof {
            lemma_ready_kept(before, self.chrome);
        }
        r
    }

    /// Does what a key is for.
    #[verifier::rlimit(40)]
    fn key_press(&mut self, key: Key, text: Option<&str>) -> (r: Request)
        requires
            old(self).wf(),
            key == Key::Enter && old(self).chrome.ui.focus == Some(old(self).chrome.new_item_node)
                ==> old(self).edit_fits(),
            field_of(old(self).model().ui, old(self).chrome.editor_node).cursor < usize::MAX,
            field_of(old(self).model().ui, old(self).chrome.new_item_node).cursor < usize::MAX,
            text matches Some(t) ==> {
                &&& field_of(old(self).model().ui, old(self).chrome.editor_node).cursor + t@.len()
                    <= usize::MAX
                &&& field_of(old(self).model().ui, old(self).chrome.new_item_node).cursor + t@.len()
                    <= usize::MAX
            },
        ensures
            final(self).wf(),
            (final(self).model(), r@) == key_pressed(
                old(self).model(),
                key,
                match text {
                    Some(t) => Some(t@),
                    None => None,
                },
            ),
    {
        if self.ctrl && (key == Key::Char('s') || key == Key::Char('S')) {
            return self.save_editor_buffer();
        }
        if self.ctrl && (key == Key::Char('d') || key == Key::Char('D')) {
            self.detached = !self.detached;
            return Request::ToggleDetach;
        }
        if self.ctrl && (key == Key::Char('w') || key == Key::Char('W')) {
            return self.close_active_tab();
        }
        if self.context_menu.is_some() && key == Key::Escape {
            self.close_context_menu();
            return Request::Nothing;
        }
        let focus: Option<NodeId> = self.chrome.ui.focus;
        if focus == Some(self.chrome.new_item_node) {
            if key == Key::Enter {
                return self.confirm_new_item();
            }
            if key == Key::Escape {
                self.cancel_creating();
                return Request::Nothing;
            }
            let _ = self.type_key(self.chrome.new_item_node, key, text);
            return Request::Nothing;
        }
        if focus != Some(self.chrome.editor_node) {
            return Request::Nothing;
        }
        if self.type_key(self.chrome.editor_node, key, text) {
            self.reload_from_editor_buffer()
        } else {
            Request::Nothing
        }
    }

    fn turn_wheel(&mut self, dx: N, dy: N)
        requires
            old(self).wf(),
        ensures
            final(self).wf(),
            final(self).model() == wheel_turned(*old(self), dx, dy),
    {
        let ghost before = self.chrome;
        scroll_at(&mut self.chrome.ui, self.cursor, dx, dy);
        proof {
            lemma_ready_kept(before, self.chrome);
        }
    }

    /// Takes in an event. Whatever it leads to, the inspector is to be refreshed
    /// afterwards, and what is asked for is to be done.
    #[verifier::rlimit(40)]
    pub fn window_event(&mut self, event: Event<N>) -> (r: Request)
        requires
            old(self).wf(),
            confirms(*old(self), event) ==> old(self).edit_fits(),
            event_fits(*old(self), event),
        ensures
            final(self).wf(),
            (final(self).model(), r@) == event_done(*old(self), event),
    {
        match event {
            Event::PreviewCloseRequested => {
                self.detached = !self.detached;
                Request::ToggleDetach
            },
            Event::PreviewRedrawRequested => Request::RedrawPreview,
            Event::CloseRequested => Request::Exit,
            Event::RedrawRequested => Request::Redraw,
            Event::ModifiersChanged { ctrl, shift } => {
                self.ctrl = ctrl;
                self.shift = shift;
                Request::Nothing
            },
            Event::CursorMoved(p) => {
                let ghost before = self.chrome;
                self.cursor = p;
                self.chrome.ui.cursor = p;
                proof {
                    lemma_ready_kept(before, self.chrome);
                }
                Request::Nothing
            },
            Event::LeftPress => self.left_press(),
            Event::RightPress => {
                let target: ContextMenuTarget = self.context_target();
                self.close_popups(true);
                self.open_context_menu(target);
                Request::Nothing
            },
            Event::OtherPress => {
                let hit: Option<NodeId> = self.hit_chrome();
                if !self.is_context_menu_button(hit) {
                    self.close_context_menu();
                }
                Request::Nothing
            },
            Event::WheelLines { x, y } => {
                let line: N = N::ratio(40, 1);
                self.turn_wheel(x.times(line), y.times(line));
                Request::Nothing
            },
            Event::WheelPixels { x, y } => {
                self.turn_wheel(x, y);
                Request::Nothing
            },
            Event::KeyPress { key, text } => match &text {
                Some(t) => self.key_press(key, Some(t.as_str())),
                None => self.key_press(key, None),
            },
            Event::Other => Request::Nothing,
        }
    }
}

} // verus!
