//! The editor mirrors the active tab: an invariant that every step keeps.

use vstd::prelude::*;
use crate::designer::editor::{edited, law_change_is_reported, FieldState, Key};
use crate::designer::model::{
    button_pressed, click_applied, confirmed, delete_done, file_opened, file_read_in, kept_edits,
    key_pressed, left_clicked, load_done, menu_closed, rename_done, rescanned, save_done,
    source_edited, tab_closed, tab_shown, tab_switched, tabs_dropped, typed, write_done, AppModel,
    ButtonAction, ClickView, DocView, LoadView,
};
use crate::designer::nodes::{
    all_shut, field_of, filled, picked, row_at, shut_node, toggled_dropdown, with_field, with_focus,
    UiModel,
};
use crate::designer::tabs::{
    fresh_tab, law_closing_others_keeps_the_active_tab, retargeted, tab_index, TabView,
};
use crate::toolkit::arena::NodeId;
use crate::toolkit::num::Num;

verus! {

/// The two text fields exist, and so does the active tab, if there are any tabs.
pub open spec fn in_range<N>(m: AppModel<N>) -> bool {
    &&& m.editor.0 < m.ui.nodes.len()
    &&& m.prompt.0 < m.ui.nodes.len()
    &&& m.prompt != m.editor
    &&& m.tabs.len() <= usize::MAX
    &&& m.active matches Some(i) ==> i < m.tabs.len()
    &&& m.active is None <==> m.tabs.len() == 0
}

/// What is in the editor is the active tab's text.
pub open spec fn mirrored<N>(m: AppModel<N>) -> bool {
    &&& in_range(m)
    &&& m.active matches Some(i) ==> field_of(m.ui, m.editor).text == m.tabs[i as int].buffer
}

proof fn lemma_shown_mirrors<N>(m: AppModel<N>)
    requires
        in_range(m),
    ensures
        mirrored(tab_shown(m).0),
{
    reveal(tab_shown);
}

proof fn lemma_kept_mirrors<N>(m: AppModel<N>)
    requires
        in_range(m),
    ensures
        mirrored(kept_edits(m)),
        kept_edits(m).tabs.len() == m.tabs.len(),
        kept_edits(m).active == m.active,
{
}

proof fn lemma_tab_index(tabs: Seq<TabView>, path: Seq<Seq<char>>, i: int)
    requires
        0 <= i,
        tabs.len() <= usize::MAX,
    ensures
        tab_index(tabs, path, i) matches Some(k) ==> k < tabs.len(),
    decreases tabs.len() - i,
{
    if i < tabs.len() {
        lemma_tab_index(tabs, path, i + 1);
    }
}

proof fn lemma_opened_mirrors<N>(m: AppModel<N>, path: Seq<Seq<char>>)
    requires
        in_range(m),
    ensures
        mirrored(file_opened(m, path).0),
{
    let a = kept_edits(m);
    lemma_kept_mirrors(m);
    lemma_tab_index(a.tabs, path, 0);
    match tab_index(a.tabs, path, 0) {
        Some(i) => {
            lemma_shown_mirrors(AppModel { active: Some(i), ..a });
        },
        None => {},
    }
}

/// A file that was read is in the editor.
pub proof fn law_read_file_is_mirrored<N>(m: AppModel<N>, path: Seq<Seq<char>>, text: Seq<char>)
    requires
        mirrored(m),
        m.tabs.len() < usize::MAX,
    ensures
        mirrored(file_read_in(m, path, text).0),
{
    lemma_tab_index(m.tabs, path, 0);
    match tab_index(m.tabs, path, 0) {
        Some(i) => {
            lemma_shown_mirrors(AppModel { active: Some(i), ..m });
        },
        None => {
            lemma_shown_mirrors(
                AppModel {
                    tabs: m.tabs.push(fresh_tab(path, text)),
                    active: Some(m.tabs.len() as usize),
                    ..m
                },
            );
        },
    }
}

proof fn lemma_switched_mirrors<N>(m: AppModel<N>, index: usize)
    requires
        in_range(m),
    ensures
        mirrored(tab_switched(m, index).0),
{
    let a = kept_edits(m);
    lemma_kept_mirrors(m);
    if index < a.tabs.len() {
        lemma_shown_mirrors(AppModel { active: Some(index), ..a });
    }
}

proof fn lemma_closed_mirrors<N: Num>(m: AppModel<N>)
    requires
        mirrored(m),
    ensures
        mirrored(tab_closed(m).0),
{
    match m.active {
        Some(i) => {
            let left = m.tabs.remove(i as int);
            let a = AppModel {
                tabs: left,
                active: crate::designer::tabs::next_active(i as int, left.len() as int),
                ..m
            };
            if left.len() > 0 {
                lemma_shown_mirrors(a);
            }
        },
        None => {},
    }
}

proof fn lemma_edited_mirrors<N>(m: AppModel<N>)
    requires
        in_range(m),
    ensures
        mirrored(source_edited(m).0),
{
}

/// The prompt's text field is another one than the editor's.
proof fn lemma_prompt_apart<N>(m: AppModel<N>, f: FieldState, focus: Option<NodeId>)
    requires
        in_range(m),
    ensures
        field_of(with_field(m.ui, m.prompt, f), m.editor) == field_of(m.ui, m.editor),
        field_of(with_focus(with_field(m.ui, m.prompt, f), focus), m.editor) == field_of(
            m.ui,
            m.editor,
        ),
{
}

proof fn lemma_confirmed_mirrors<N: Num>(m: AppModel<N>)
    requires
        mirrored(m),
    ensures
        mirrored(confirmed(m).0),
{
    reveal(confirmed);
    lemma_prompt_apart(m, filled(Seq::empty()), None);
    match m.editing {
        Some(f) => {
            let a = AppModel {
                editing: None,
                ui: with_focus(with_field(m.ui, m.prompt, filled(Seq::empty())), None),
                ..m
            };
            let after = crate::designer::model::patched(
                field_of(m.ui, m.editor).text,
                f,
                crate::designer::model::prompt_text(m),
            );
            lemma_edited_mirrors(
                AppModel { ui: with_field(a.ui, m.editor, filled(after)), ..a },
            );
        },
        None => {},
    }
}

proof fn lemma_button_mirrors<N: Num>(m: AppModel<N>, b: ButtonAction)
    requires
        mirrored(m),
    ensures
        mirrored(button_pressed(m, b).0),
{
    reveal(button_pressed);
    lemma_prompt_apart(m, filled(Seq::empty()), None);
    lemma_prompt_apart(m, filled(Seq::empty()), Some(m.prompt));
    match b {
        ButtonAction::Confirm => {
            lemma_confirmed_mirrors(m);
        },
        ButtonAction::Tab(i) => {
            lemma_switched_mirrors(m, i);
        },
        ButtonAction::Field(i) => {
            if i < m.fields.len() {
                let f = m.fields[i as int];
                lemma_prompt_apart(
                    m,
                    filled(crate::designer::model::field_source(f)),
                    Some(m.prompt),
                );
            }
        },
        ButtonAction::Rename => {
            match m.menu {
                Some((t, _)) => {
                    let name = crate::designer::virtual_fs::name_or_empty(
                        crate::designer::virtual_fs::base_name(
                            crate::designer::model::target_path(t),
                        ),
                    );
                    lemma_prompt_apart(m, filled(name), Some(m.prompt));
                },
                None => {},
            }
        },
        _ => {},
    }
}

proof fn lemma_shut_mirrors<N>(m: UiModel<N>, id: NodeId)
    requires
        id.0 < m.nodes.len(),
    ensures
        field_of(all_shut(m), id) == field_of(m, id),
        all_shut(m).nodes.len() == m.nodes.len(),
{
    assert(all_shut(m).nodes[id.0 as int] == shut_node(m.nodes[id.0 as int]));
}

proof fn lemma_applied_mirrors<N: Num>(m: AppModel<N>, click: ClickView)
    requires
        mirrored(m),
        click matches ClickView::Triangle(id) ==> id.0 < m.ui.nodes.len(),
    ensures
        mirrored(click_applied(m, click).0),
{
    reveal(click_applied);
    match click {
        ClickView::File(p) => {
            lemma_opened_mirrors(m, p);
        },
        ClickView::Button(b) => {
            lemma_button_mirrors(m, b);
        },
        _ => {},
    }
}

/// Whatever a click does, the editor mirrors the active tab.
pub proof fn law_clicks_keep_the_mirror<N: Num>(m: AppModel<N>, click: ClickView, on_menu: bool)
    requires
        mirrored(m),
        match click {
            ClickView::Pick(id) => id.0 < m.ui.nodes.len(),
            ClickView::Dropdown(id) => id.0 < m.ui.nodes.len(),
            ClickView::Triangle(id) => id.0 < m.ui.nodes.len(),
            _ => true,
        },
    ensures
        mirrored(left_clicked(m, click, on_menu).0),
{
    lemma_shut_mirrors(m.ui, m.editor);
    let shut = AppModel { ui: all_shut(m.ui), ..m };
    let a = if on_menu {
        shut
    } else {
        menu_closed(shut)
    };
    assert(mirrored(a));
    match click {
        ClickView::Pick(id) => {
            let row = row_at(m.ui.nodes[id.0 as int].rest, m.cursor);
            assert(field_of(picked(m.ui, id, row), m.editor) == field_of(m.ui, m.editor));
        },
        ClickView::Dropdown(id) => {
            assert(field_of(toggled_dropdown(m.ui, id), m.editor) == field_of(m.ui, m.editor));
        },
        _ => {
            lemma_applied_mirrors(a, click);
        },
    }
}

/// Whatever a key does, the editor mirrors the active tab.
pub proof fn law_keys_keep_the_mirror<N: Num>(m: AppModel<N>, key: Key, text: Option<Seq<char>>)
    requires
        mirrored(m),
    ensures
        mirrored(key_pressed(m, key, text).0),
{
    lemma_closed_mirrors(m);
    lemma_confirmed_mirrors(m);
    lemma_prompt_apart(m, filled(Seq::empty()), None);
    let e = edited(
        field_of(m.ui, m.editor),
        m.ui.nodes[m.editor.0 as int].rest.style.multiline,
        key,
        text,
        m.shift,
    );
    let t = typed(m, m.editor, key, text);
    lemma_edited_mirrors(t.0);
    if !e.1 {
        law_change_is_reported(
            field_of(m.ui, m.editor),
            m.ui.nodes[m.editor.0 as int].rest.style.multiline,
            key,
            text,
            m.shift,
        );
        assert(mirrored(t.0));
    }
    let p = edited(
        field_of(m.ui, m.prompt),
        m.ui.nodes[m.prompt.0 as int].rest.style.multiline,
        key,
        text,
        m.shift,
    );
    lemma_prompt_apart(m, p.0, None);
}

/// Whatever came of a request, the editor mirrors the active tab.
pub proof fn law_answers_keep_the_mirror<N: Num>(
    m: AppModel<N>,
    l: LoadView,
    built: Option<DocView<N>>,
    first: Option<Seq<char>>,
    ok: bool,
)
    requires
        mirrored(m),
    ensures
        mirrored(load_done(m, l, built, first).0),
        mirrored(save_done(m, ok)),
{
}

/// Creating, deleting and renaming keep the mirror as well.
pub proof fn law_disk_changes_keep_the_mirror<N: Num>(
    m: AppModel<N>,
    from: Seq<Seq<char>>,
    to: Seq<Seq<char>>,
    is_file: bool,
    ok: bool,
)
    requires
        mirrored(m),
    ensures
        mirrored(write_done(m, to, is_file, ok).0),
        mirrored(delete_done(m, from, ok).0),
        mirrored(rename_done(m, from, to, ok).0),
{
    lemma_opened_mirrors(rescanned(m), to);
    let a = tabs_dropped(m, from);
    lemma_dropped_in_range(m, from);
    lemma_shown_mirrors(a);
    match m.active {
        Some(i) => {
            if !crate::designer::paths::is_under(m.tabs[i as int].path, from) {
                law_closing_others_keeps_the_active_tab(m.tabs, i, from);
            }
        },
        None => {},
    }
    let b = rescanned(
        AppModel {
            tabs: retargeted(m.tabs, from, to),
            selected_dir: crate::designer::tabs::moved(m.selected_dir, from, to),
            ..m
        },
    );
    lemma_shown_mirrors(b);
    reveal(tab_shown);
}

proof fn lemma_dropped_in_range<N>(m: AppModel<N>, path: Seq<Seq<char>>)
    requires
        in_range(m),
    ensures
        in_range(tabs_dropped(m, path)),
{
    crate::designer::tabs::lemma_active_after_in_range(m.tabs, m.active, path);
}

} // verus!
