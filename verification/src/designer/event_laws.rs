//! What events mean to the designer, and how the tree shows the active file.

use vstd::prelude::*;
use crate::designer::app::DesignerApp;
use crate::designer::chrome::{restyled, Chrome};
use crate::designer::events::{
    button_of, click_of, event_done, highlighted, on_menu, row_click, row_index, row_path,
    rows_from, scan_done, wheel_turned, Event,
};
use crate::designer::model::{AppModel, ButtonAction, ClickView, RequestView, TargetView};
use crate::designer::nodes::{popup_from, position_from};
use crate::designer::paths::path_of;
use crate::designer::state::NodeView;
use crate::toolkit::arena::{hit_layers, Node, NodeId, Ui};
use crate::toolkit::geometry::{Color, Point};
use crate::toolkit::num::{exact, lemma_whole, whole, Num};
use crate::toolkit::style::Style;
use crate::toolkit::style_laws::{
    all_fields_agree, compares_by_identity, is_width_style, law_effective_style, lays_over,
};

verus! {

// ---- events ----

/// Events that ask for something say so; modifiers and the cursor are kept, for the
/// interface too; keys and clicks go on as such.
pub proof fn law_events_are_kept_or_asked_for<N: Num>(
    app: DesignerApp<N>,
    ctrl: bool,
    shift: bool,
    p: Point<N>,
)
    ensures
        event_done(app, Event::CloseRequested) == (app.model(), RequestView::Exit),
        event_done(app, Event::RedrawRequested) == (app.model(), RequestView::Redraw),
        event_done(app, Event::PreviewRedrawRequested) == (
            app.model(),
            RequestView::RedrawPreview,
        ),
        event_done(app, Event::Other) == (app.model(), RequestView::Nothing),
        event_done(app, Event::PreviewCloseRequested).0.detached == !app.model().detached,
        event_done(app, Event::PreviewCloseRequested).1 == RequestView::ToggleDetach,
        ({
            let m = event_done(app, Event::ModifiersChanged { ctrl, shift }).0;
            m.ctrl == ctrl && m.shift == shift && m.tabs == app.model().tabs
        }),
        ({
            let m = event_done(app, Event::CursorMoved(p)).0;
            m.cursor == p && m.ui.cursor == p && m.ui.nodes == app.model().ui.nodes
        }),
{
}

/// A line of the wheel scrolls 40 pixels.
pub proof fn law_wheel_line_is_forty_pixels<N: Num>(
    val: spec_fn(N) -> real,
    app: DesignerApp<N>,
    x: N,
    y: N,
)
    requires
        exact(val),
    ensures
        exists|px: N, py: N|
            #![trigger wheel_turned(app, px, py)]
            {
                &&& event_done(app, Event::WheelLines { x, y }).0 == wheel_turned(app, px, py)
                &&& event_done(app, Event::WheelPixels { x: px, y: py }).0 == wheel_turned(
                    app,
                    px,
                    py,
                )
                &&& val(px) == val(x) * 40 as real
                &&& val(py) == val(y) * 40 as real
            },
{
    lemma_whole::<N>(val, 40);
    let (px, py) = (N::mul_of(x, whole(40)), N::mul_of(y, whole(40)));
    assert(event_done(app, Event::WheelLines { x, y }).0 == wheel_turned(app, px, py));
}

/// The right button opens the context menu at the cursor, on the row of the tree under it, or
/// on the project's root.
pub proof fn law_right_press_opens_the_menu<N: Num>(app: DesignerApp<N>)
    ensures
        ({
            let m = event_done(app, Event::RightPress).0;
            let hit = hit_layers(app.chrome.ui, app.chrome.ui.layers@.len(), app.cursor);
            let on_row = hit matches Some(i) && app.chrome.ui.nodes@[NodeId(i as u32).0 as int].kind
                is TreeViewItem;
            &&& m.menu matches Some((t, p)) && p == app.model().cursor && {
                if on_row {
                    match row_path(app, NodeId(hit->0 as u32)) {
                        Some((path, true)) => t == TargetView::Folder(path),
                        Some((path, false)) => t == TargetView::File(path),
                        None => t == TargetView::Root(app.vfs.root@),
                    }
                } else {
                    t == TargetView::Root(app.vfs.root@)
                }
            }
        }),
{
}

/// Another button closes the context menu unless it is pressed on the menu itself.
pub proof fn law_other_press_closes_the_menu<N: Num>(app: DesignerApp<N>)
    ensures
        !on_menu(app) ==> event_done(app, Event::OtherPress).0.menu is None,
        on_menu(app) ==> event_done(app, Event::OtherPress).0 == app.model(),
{
}

// ---- clicks ----

/// What a left click is for. An open option list is before everything else; then what is
/// under the cursor decides; the preview is last.
pub proof fn law_click_is_for_what_is_on_top<N: Num>(app: DesignerApp<N>)
    ensures
        ({
            let ui = app.chrome.ui;
            let hit = hit_layers(ui, ui.layers@.len(), app.cursor);
            let list = popup_from(ui.nodes@, app.cursor, app.popup_max_h, 0);
            let below = hit_layers(app.doc.ui, app.doc.ui.layers@.len(), app.cursor);
            let click = click_of(app);
            &&& list is Some ==> click == ClickView::Pick(list->0)
            &&& list is None && hit is Some ==> {
                let id = NodeId(hit->0 as u32);
                let kind = ui.nodes@[id.0 as int].kind;
                &&& kind is Dropdown ==> click == ClickView::Dropdown(id)
                &&& !(kind is Dropdown) && id == app.chrome.editor_node ==> click
                    == ClickView::Editor
                &&& kind is Button && id != app.chrome.editor_node && id
                    != app.chrome.new_item_node ==> click == ClickView::Button(
                    button_of(app.chrome, id),
                )
            }
            &&& list is None && hit is None ==> click == match below {
                Some(i) => ClickView::Preview(NodeId(i as u32)),
                None => ClickView::Elsewhere,
            }
        }),
{
}

/// A click on a row of the tree is on its triangle if it is in the first 14 pixels of a row
/// with children; else on the file or the folder that the row stands for.
pub proof fn law_row_is_clicked<N: Num>(val: spec_fn(N) -> real, app: DesignerApp<N>, id: NodeId)
    requires
        exact(val),
    ensures
        ({
            let n = app.chrome.ui.nodes@[id.0 as int];
            let on_triangle = n.children@.len() > 0 && val(app.cursor.x) - val(n.computed.x)
                < 14 as real;
            &&& on_triangle <==> row_click(app, id) is Triangle
            &&& on_triangle ==> row_click(app, id) == ClickView::Triangle(id)
            &&& !on_triangle ==> row_click(app, id) == match row_path(app, id) {
                Some((p, true)) => ClickView::Folder(p),
                Some((p, false)) => ClickView::File(p),
                None => ClickView::Row,
            }
        }),
{
    lemma_whole::<N>(val, 14);
}

/// `id` stands at `i` of `ids`, and at no earlier place.
pub open spec fn first_at(ids: Seq<NodeId>, id: NodeId, i: int) -> bool {
    &&& 0 <= i < ids.len()
    &&& ids[i] == id
    &&& forall|k: int| 0 <= k < i ==> #[trigger] ids[k] != id
}

proof fn lemma_position(ids: Seq<NodeId>, id: NodeId, from: int)
    requires
        0 <= from <= ids.len() <= usize::MAX,
        forall|k: int| 0 <= k < from ==> #[trigger] ids[k] != id,
    ensures
        forall|i: int|
            #![trigger ids[i]]
            first_at(ids, id, i) ==> position_from(ids, id, from) == Some(i as usize),
        !ids.contains(id) ==> position_from(ids, id, from) is None,
    decreases ids.len() - from,
{
    if from < ids.len() {
        if ids[from] != id {
            lemma_position(ids, id, from + 1);
        } else {
            assert(ids.contains(id));
        }
    }
}

/// A button does what its place says: the prompt has Cancel and Confirm; the context menu
/// adds a folder, adds a file, renames and deletes; the strip has a button for each tab, and
/// the inspector one for each field.
pub proof fn law_buttons_act_by_their_place<N: Num>(chrome: Chrome<N>, id: NodeId, i: int)
    requires
        chrome.region_buttons(chrome.popup_region()).len() <= usize::MAX,
        chrome.region_buttons(chrome.menu_region()).len() <= usize::MAX,
        chrome.region_buttons(chrome.tab_region()).len() <= usize::MAX,
        chrome.region_buttons(chrome.field_region()).len() <= usize::MAX,
    ensures
        ({
            let prompt = chrome.region_buttons(chrome.popup_region());
            let menu = chrome.region_buttons(chrome.menu_region());
            let tabs = chrome.region_buttons(chrome.tab_region());
            let fields = chrome.region_buttons(chrome.field_region());
            let action = button_of(chrome, id);
            &&& first_at(prompt, id, 0) ==> action == ButtonAction::Cancel
            &&& first_at(prompt, id, 1) ==> action == ButtonAction::Confirm
            &&& !prompt.contains(id) ==> {
                &&& first_at(menu, id, 0) ==> action == ButtonAction::AddFolder
                &&& first_at(menu, id, 1) ==> action == ButtonAction::AddFile
                &&& first_at(menu, id, 2) ==> action == ButtonAction::Rename
                &&& first_at(menu, id, 3) ==> action == ButtonAction::Delete
                &&& !menu.contains(id) ==> {
                    &&& first_at(tabs, id, i) ==> action == ButtonAction::Tab(i as usize)
                    &&& !tabs.contains(id) ==> {
                        &&& first_at(fields, id, i) ==> action == ButtonAction::Field(i as usize)
                        &&& !fields.contains(id) ==> action == ButtonAction::Nothing
                    }
                }
            }
        }),
{
    let prompt = chrome.region_buttons(chrome.popup_region());
    let menu = chrome.region_buttons(chrome.menu_region());
    let tabs = chrome.region_buttons(chrome.tab_region());
    let fields = chrome.region_buttons(chrome.field_region());
    lemma_position(prompt, id, 0);
    lemma_position(menu, id, 0);
    lemma_position(tabs, id, 0);
    lemma_position(fields, id, 0);
    assert(first_at(prompt, id, 0) ==> prompt[0] == id);
    assert(first_at(prompt, id, 1) ==> prompt[1] == id);
    assert(first_at(menu, id, 0) ==> menu[0] == id);
    assert(first_at(menu, id, 1) ==> menu[1] == id);
    assert(first_at(menu, id, 2) ==> menu[2] == id);
    assert(first_at(menu, id, 3) ==> menu[3] == id);
    assert(first_at(tabs, id, i) ==> tabs[i] == id);
    assert(first_at(fields, id, i) ==> fields[i] == id);
}

// ---- the tree ----

/// How many entries a list of entries holds, with those in them.
pub open spec fn entry_count(nodes: Seq<NodeView>, i: int) -> int
    decreases nodes, nodes.len() - i,
{
    if 0 <= i < nodes.len() {
        1 + entry_count(nodes[i].children, 0) + entry_count(nodes, i + 1)
    } else {
        0
    }
}

/// There is a row for each entry of the tree: an entry before what is in it, and both before
/// the entry that follows it.
pub proof fn law_rows_follow_the_tree(nodes: Seq<NodeView>, i: int)
    requires
        0 <= i < nodes.len(),
    ensures
        ({
            let rows = rows_from(nodes, i);
            let inner = entry_count(nodes[i].children, 0);
            &&& rows.len() == entry_count(nodes, i)
            &&& nodes[i].truncated ==> rows[0] is None
            &&& !nodes[i].truncated ==> rows[0] == Some((path_of(nodes[i].path), nodes[i].is_dir))
            &&& rows.subrange(1, 1 + inner) == rows_from(nodes[i].children, 0)
            &&& rows.skip(1 + inner) == rows_from(nodes, i + 1)
        }),
{
    lemma_row_count(nodes, i);
    lemma_row_count(nodes[i].children, 0);
    let rows = rows_from(nodes, i);
    let inner = entry_count(nodes[i].children, 0);
    assert(rows.subrange(1, 1 + inner) =~= rows_from(nodes[i].children, 0));
    assert(rows.skip(1 + inner) =~= rows_from(nodes, i + 1));
}

proof fn lemma_row_count(nodes: Seq<NodeView>, i: int)
    requires
        0 <= i <= nodes.len(),
    ensures
        rows_from(nodes, i).len() == entry_count(nodes, i),
    decreases nodes, nodes.len() - i,
{
    if i < nodes.len() {
        lemma_row_count(nodes[i].children, 0);
        lemma_row_count(nodes, i + 1);
    }
}

/// The row of a path is the first that stands for it.
pub proof fn law_row_of_a_path_is_the_first(
    rows: Seq<Option<(Seq<Seq<char>>, bool)>>,
    path: Seq<Seq<char>>,
    i: int,
)
    requires
        0 <= i <= rows.len(),
    ensures
        match row_index(rows, path, i) {
            Some(k) => {
                &&& i <= k < rows.len()
                &&& rows[k] matches Some(r) && r.0 == path
                &&& forall|j: int|
                    i <= j < k ==> !(#[trigger] rows[j] matches Some(r) && r.0 == path)
            },
            None => forall|j: int|
                i <= j < rows.len() ==> !(#[trigger] rows[j] matches Some(r) && r.0 == path),
        },
    decreases rows.len() - i,
{
    if i < rows.len() {
        law_row_of_a_path_is_the_first(rows, path, i + 1);
    }
}

/// When another file is active, its row is highlighted, white on blue, and the row that was
/// before looks like the others again; no other node changes.
pub proof fn law_active_row_is_highlighted<N: Num>(m: AppModel<N>, live: Seq<NodeId>, k: int)
    requires
        m.active matches Some(i) && i < m.tabs.len() && m.highlighted_path != Some(
            m.tabs[i as int].path,
        ),
        0 <= k < m.ui.nodes.len(),
        forall|j: int| 0 <= j < live.len() ==> (#[trigger] live[j]).0 < m.ui.nodes.len(),
    ensures
        ({
            let path = m.tabs[m.active->0 as int].path;
            let a = highlighted(m, live);
            let at = row_index(rows_from(m.state.tree, 0), path, 0);
            let row = if at is Some && at->0 < live.len() {
                Some(live[at->0])
            } else {
                None
            };
            let style = a.ui.nodes[k].rest.style;
            &&& a.highlighted_path == Some(path)
            &&& a.highlighted_row == row
            &&& (row matches Some(id) && id.0 == k) ==> style.bg == Some(
                Color { r: 9, g: 71, b: 113, a: 255 },
            ) && style.text_color == (Color { r: 255, g: 255, b: 255, a: 255 })
            &&& !(row matches Some(id) && id.0 == k) && (m.highlighted_row matches Some(id) && id.0
                == k) ==> style.bg is None && style.text_color == (Color {
                r: 204,
                g: 204,
                b: 204,
                a: 255,
            })
            &&& !(row matches Some(id) && id.0 == k) && !(m.highlighted_row matches Some(id)
                && id.0 == k) ==> a.ui.nodes[k] == m.ui.nodes[k]
        }),
{
    law_row_of_a_path_is_the_first(
        rows_from(m.state.tree, 0),
        m.tabs[m.active->0 as int].path,
        0,
    );
}

/// A scan that succeeded shows the scanned tree, and has the highlighted row looked for
/// again; one that failed leaves the tree.
pub proof fn law_scanned_tree_is_shown<N: Num>(m: AppModel<N>, t: NodeView)
    ensures
        scan_done(m, None) == m,
        ({
            let a = scan_done(m, Some(t));
            &&& a.state.tree == seq![t]
            &&& a.rows == rows_from(a.state.tree, 0)
            &&& a.highlighted_path is None
            &&& a.tabs == m.tabs && a.ui == m.ui
        }),
{
}

// ---- styles ----

/// The style of a node follows from its variants, the window's width, and whether it is the
/// one under the cursor or has the focus. Nothing else of it changes.
pub proof fn law_node_is_styled_by_its_state<N: Num>(ui: Ui<N>, i: int, after: Node<N>)
    requires
        compares_by_identity::<N>(),
        restyled(ui, i, after),
    ensures
        ({
            let n = ui.nodes@[i];
            let hovered = hit_layers(ui, ui.layers@.len(), ui.cursor) == Some(i);
            let focused = ui.focus matches Some(f) && f.0 == i;
            &&& after.kind == n.kind && after.children == n.children && after.base_style
                == n.base_style && after.computed == n.computed
            &&& exists|chosen: Style<N>|
                #![trigger is_width_style(n.base_style, n.variants, N::index_of(ui.viewport.w) as int, chosen)]
                {
                    &&& is_width_style(
                        n.base_style,
                        n.variants,
                        N::index_of(ui.viewport.w) as int,
                        chosen,
                    )
                    &&& focused ==> match n.variants.focus {
                        Some(v) => lays_over(chosen, n.base_style, v, after.style),
                        None => all_fields_agree(after.style, chosen),
                    }
                    &&& !focused && hovered ==> match n.variants.hover {
                        Some(v) => lays_over(chosen, n.base_style, v, after.style),
                        None => all_fields_agree(after.style, chosen),
                    }
                    &&& !focused && !hovered ==> all_fields_agree(after.style, chosen)
                }
        }),
{
    let n = ui.nodes@[i];
    let hovered = hit_layers(ui, ui.layers@.len(), ui.cursor) == Some(i);
    let focused = ui.focus matches Some(f) && f.0 == i;
    let width = N::index_of(ui.viewport.w) as int;
    law_effective_style(n.base_style, n.variants, width, hovered, focused, false, after.style);
}

} // verus!
