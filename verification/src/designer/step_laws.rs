//! What the steps of the designer are for.

use vstd::prelude::*;
use vstd::string::*;
use crate::designer::editor::{edited, Key};
use crate::designer::model::{
    adding_started, button_pressed, click_applied, confirmed, creation_steps, deleting_started,
    delete_done, editing_started, file_opened, file_read_in, kept_edits, key_pressed, left_clicked, menu_opened,
    prompt_closed, rename_done, renaming_started, save_done, shown, synced, tab_closed,
    tab_shown, AppModel, ButtonAction, ClickView, LoadFor, NewItemKind, RequestView,
    TargetView,
};
use crate::designer::paths::{is_under, path_join};
use crate::designer::tabs::{fresh_tab, left_tabs, moved, next_active, tab_index, TabView};
use crate::designer::virtual_fs::base_name;
use crate::text::trimmed;
use crate::toolkit::arena::NodeId;
use crate::toolkit::num::Num;

verus! {

/// What text field `id` holds.
pub open spec fn text_in<N>(m: AppModel<N>, id: NodeId) -> Seq<char> {
    m.ui.nodes[id.0 as int].field.text
}

/// The designer with its fields in range, apart from each other, and a tab that is active
/// exactly if there are tabs.
pub open spec fn is_sound<N>(m: AppModel<N>) -> bool {
    &&& m.editor.0 < m.ui.nodes.len()
    &&& m.prompt.0 < m.ui.nodes.len()
    &&& m.editor != m.prompt
    &&& m.active matches Some(i) ==> i < m.tabs.len()
    &&& m.active is None <==> m.tabs.len() == 0
    &&& m.tabs.len() <= usize::MAX
}

// ---- tabs ----

/// `m` shows tab `i`: it is the active one, the editor holds its text, and its file is to be
/// loaded from that text.
pub open spec fn shows_tab<N>(m: AppModel<N>, r: RequestView, i: int) -> bool {
    &&& m.active == Some(i as usize)
    &&& 0 <= i < m.tabs.len()
    &&& text_in(m, m.editor) == m.tabs[i].buffer
    &&& m.selected is None
    &&& r matches RequestView::Load(l) && l.purpose == LoadFor::Tab && l.path == m.tabs[i].path
        && l.text == Some(m.tabs[i].buffer)
}

proof fn lemma_shown<N>(m: AppModel<N>, i: int)
    requires
        is_sound(m),
        m.active == Some(i as usize),
        0 <= i < m.tabs.len(),
    ensures
        shows_tab(tab_shown(m).0, tab_shown(m).1, i),
        tab_shown(m).0.tabs == m.tabs,
{
    reveal(tab_shown);
}

/// Another tab keeps all it holds while tab `i` keeps what is in the editor.
pub open spec fn keeps_tabs<N>(before: AppModel<N>, after: Seq<TabView>, upto: int) -> bool {
    &&& upto <= after.len()
    &&& forall|k: int|
        0 <= k < upto ==> {
            let (t, u) = (before.tabs[k], #[trigger] after[k]);
            &&& u.path == t.path
            &&& before.active == Some(k as usize) ==> u.buffer == text_in(before, before.editor)
                && (u.dirty <==> t.dirty || u.buffer != t.buffer)
            &&& before.active != Some(k as usize) ==> u == t
        }
}

/// Opening a file shows its tab, if it has one: no file is opened twice. Otherwise it is to
/// be read. The active tab keeps what is in the editor.
pub proof fn law_opening_a_file_shows_its_tab<N: Num>(m: AppModel<N>, path: Seq<Seq<char>>)
    requires
        is_sound(m),
    ensures
        ({
            let (a, r) = file_opened(m, path);
            &&& a.tabs.len() == m.tabs.len() && keeps_tabs(m, a.tabs, m.tabs.len() as int)
            &&& (exists|k: int| 0 <= k < m.tabs.len() && (#[trigger] m.tabs[k]).path == path)
                ==> exists|i: int|
                #![trigger m.tabs[i]]
                0 <= i < m.tabs.len() && m.tabs[i].path == path && shows_tab(a, r, i)
            &&& (forall|k: int| 0 <= k < m.tabs.len() ==> (#[trigger] m.tabs[k]).path != path)
                ==> r == RequestView::Read(path) && a.active == m.active
        }),
{
    let kept = kept_edits(m);
    assert(keeps_tabs(m, kept.tabs, m.tabs.len() as int));
    lemma_tab_index(kept.tabs, path, 0);
    match tab_index(kept.tabs, path, 0) {
        Some(i) => {
            lemma_shown(AppModel { active: Some(i), ..kept }, i as int);
            assert(m.tabs[i as int].path == path);
        },
        None => {
            assert forall|k: int| 0 <= k < m.tabs.len() implies (#[trigger] m.tabs[k]).path
                != path by {
                assert(kept.tabs[k].path != path);
            }
        },
    }
}

proof fn lemma_tab_index(tabs: Seq<TabView>, path: Seq<Seq<char>>, i: int)
    requires
        0 <= i <= tabs.len() <= usize::MAX,
    ensures
        match tab_index(tabs, path, i) {
            Some(k) => i <= k < tabs.len() && tabs[k as int].path == path && forall|j: int|
                i <= j < k ==> (#[trigger] tabs[j]).path != path,
            None => forall|j: int| i <= j < tabs.len() ==> (#[trigger] tabs[j]).path != path,
        },
    decreases tabs.len() - i,
{
    if i < tabs.len() {
        lemma_tab_index(tabs, path, i + 1);
    }
}

/// A file that was read gets a tab of its own behind the others, with its text and without
/// edits, and is shown.
pub proof fn law_read_file_gets_a_tab<N: Num>(m: AppModel<N>, path: Seq<Seq<char>>, text: Seq<char>)
    requires
        is_sound(m),
        m.tabs.len() < usize::MAX,
        forall|k: int| 0 <= k < m.tabs.len() ==> (#[trigger] m.tabs[k]).path != path,
    ensures
        ({
            let (a, r) = file_read_in(m, path, text);
            let n = m.tabs.len() as int;
            &&& a.tabs.len() == n + 1
            &&& forall|k: int| 0 <= k < n ==> #[trigger] a.tabs[k] == m.tabs[k]
            &&& a.tabs[n].path == path && a.tabs[n].buffer == text && !a.tabs[n].dirty
            &&& shows_tab(a, r, n)
        }),
{
    lemma_tab_index(m.tabs, path, 0);
    let b = AppModel {
        tabs: m.tabs.push(fresh_tab(path, text)),
        active: Some(m.tabs.len() as usize),
        ..m
    };
    lemma_shown(b, m.tabs.len() as int);
}

/// A click on a tab shows it; the one that was active keeps what is in the editor.
pub proof fn law_tab_button_shows_its_tab<N: Num>(m: AppModel<N>, i: usize)
    requires
        is_sound(m),
        i < m.tabs.len(),
    ensures
        ({
            let (a, r) = button_pressed(m, ButtonAction::Tab(i));
            &&& a.tabs.len() == m.tabs.len() && keeps_tabs(m, a.tabs, m.tabs.len() as int)
            &&& shows_tab(a, r, i as int)
        }),
{
    reveal(button_pressed);
    let kept = kept_edits(m);
    assert(keeps_tabs(m, kept.tabs, m.tabs.len() as int));
    lemma_shown(AppModel { active: Some(i), ..kept }, i as int);
}

/// Closing the active tab takes it out and leaves the others in their order. The one behind
/// it is shown, or the last one if there is none behind it.
pub proof fn law_closing_a_tab_shows_the_next<N: Num>(m: AppModel<N>)
    requires
        is_sound(m),
        m.active is Some,
    ensures
        ({
            let (a, r) = tab_closed(m);
            let i = m.active->0 as int;
            let n = m.tabs.len() as int;
            &&& a.tabs.len() == n - 1
            &&& forall|k: int|
                0 <= k < n - 1 ==> #[trigger] a.tabs[k] == if k < i {
                    m.tabs[k]
                } else {
                    m.tabs[k + 1]
                }
            &&& n == 1 ==> a.active is None && r == RequestView::Nothing
            &&& n > 1 && i < n - 1 ==> shows_tab(a, r, i) && a.tabs[i] == m.tabs[i + 1]
            &&& n > 1 && i == n - 1 ==> shows_tab(a, r, n - 2)
        }),
{
    let i = m.active->0 as int;
    let left = m.tabs.remove(i);
    let b = AppModel {
        tabs: left,
        active: next_active(i, left.len() as int),
        ..m
    };
    if left.len() > 0 {
        lemma_shown(b, b.active->0 as int);
    }
}

// ---- keys ----

/// The letter of a shortcut, in either case.
pub open spec fn is_letter(key: Key, lower: char, upper: char) -> bool {
    key matches Key::Char(c) && (c == lower || c == upper)
}

/// Ctrl+S saves the text in the editor to the file that is previewed, Ctrl+W closes the
/// active tab, and Ctrl+D moves the preview into a window of its own and back.
pub proof fn law_shortcuts<N: Num>(m: AppModel<N>, key: Key, text: Option<Seq<char>>)
    requires
        m.ctrl,
    ensures
        is_letter(key, 's', 'S') ==> key_pressed(m, key, text) == (
            m,
            RequestView::Save { path: m.doc.path, text: text_in(m, m.editor) },
        ),
        is_letter(key, 'd', 'D') ==> key_pressed(m, key, text).1 == RequestView::ToggleDetach
            && key_pressed(m, key, text).0 == (AppModel { detached: !m.detached, ..m }),
        is_letter(key, 'w', 'W') ==> key_pressed(m, key, text) == tab_closed(m),
{
}

/// A saved tab has no unsaved edits, and one that could not be saved keeps its mark.
pub proof fn law_saving_clears_the_mark<N: Num>(m: AppModel<N>, ok: bool)
    requires
        is_sound(m),
        m.active is Some,
    ensures
        ({
            let a = save_done(m, ok);
            let i = m.active->0 as int;
            &&& a.tabs.len() == m.tabs.len()
            &&& ok ==> !a.tabs[i].dirty
            &&& !ok ==> a == m
            &&& a.tabs[i].buffer == m.tabs[i].buffer && a.tabs[i].path == m.tabs[i].path
            &&& forall|k: int|
                0 <= k < m.tabs.len() && k != i ==> #[trigger] a.tabs[k] == m.tabs[k]
        }),
{
}

/// Escape closes the context menu if it is open, else the prompt if it has the
/// focus: nothing is named, renamed or edited any more, and the prompt is empty.
pub proof fn law_escape_closes<N: Num>(m: AppModel<N>, text: Option<Seq<char>>)
    requires
        is_sound(m),
    ensures
        ({
            let (a, r) = key_pressed(m, Key::Escape, text);
            &&& m.menu is Some ==> a.menu is None && a.creating == m.creating && a.renaming
                == m.renaming && a.editing == m.editing && a.ui == m.ui
            &&& m.menu is None && m.ui.focus == Some(m.prompt) ==> {
                &&& a.creating is None && a.renaming is None && a.editing is None
                &&& a.ui.focus is None
                &&& text_in(a, a.prompt) == Seq::<char>::empty()
                &&& text_in(a, a.editor) == text_in(m, m.editor)
                &&& a.tabs == m.tabs
                &&& r == RequestView::Nothing
            }
        }),
{
}

/// Keys go to the field that has the focus, and to no other. What changes the editor's text
/// is kept in the active tab, marked as unsaved, and previewed.
pub proof fn law_keys_go_to_the_focused_field<N: Num>(
    m: AppModel<N>,
    key: Key,
    text: Option<Seq<char>>,
)
    requires
        is_sound(m),
        !m.ctrl,
        m.menu is None,
        key != Key::Enter && key != Key::Escape,
        m.active matches Some(i) ==> m.tabs[i as int].buffer == text_in(m, m.editor),
    ensures
        ({
            let (a, r) = key_pressed(m, key, text);
            let f = m.ui.nodes[m.prompt.0 as int];
            let g = m.ui.nodes[m.editor.0 as int];
            let in_prompt = edited(f.field, f.rest.style.multiline, key, text, m.shift);
            let in_editor = edited(g.field, g.rest.style.multiline, key, text, m.shift);
            &&& m.ui.focus == Some(m.prompt) ==> {
                &&& a.ui.nodes[m.prompt.0 as int].field == in_prompt.0
                &&& a.ui.nodes[m.editor.0 as int] == g
                &&& a.tabs == m.tabs && r == RequestView::Nothing
            }
            &&& m.ui.focus == Some(m.editor) ==> {
                &&& a.ui.nodes[m.editor.0 as int].field == in_editor.0
                &&& a.ui.nodes[m.prompt.0 as int] == f
                &&& text_in(a, a.editor) == text_in(m, m.editor) ==> a.tabs == m.tabs && r
                    == RequestView::Nothing
                &&& text_in(a, a.editor) != text_in(m, m.editor) ==> {
                    &&& m.active matches Some(i) ==> {
                        &&& a.tabs[i as int].buffer == text_in(a, a.editor)
                        &&& a.tabs[i as int].dirty
                    }
                    &&& r matches RequestView::Load(l) && l.text == Some(text_in(a, a.editor))
                        && l.path == m.doc.path
                }
            }
            &&& m.ui.focus is None ==> a == m && r == RequestView::Nothing
        }),
{
}

// ---- clicks ----

/// A click on the editor or on the prompt puts the focus there, with the caret at the end of
/// the text; one elsewhere takes focus and selection away.
pub proof fn law_click_sets_the_focus<N: Num>(m: AppModel<N>)
    requires
        is_sound(m),
    ensures
        ({
            let a = click_applied(m, ClickView::Editor).0;
            let f = a.ui.nodes[m.editor.0 as int].field;
            &&& a.ui.focus == Some(m.editor)
            &&& f.text == text_in(m, m.editor) && f.cursor == f.text.len() && f.anchor is None
            &&& text_in(a, m.prompt) == text_in(m, m.prompt)
        }),
        ({
            let a = click_applied(m, ClickView::Prompt).0;
            let f = a.ui.nodes[m.prompt.0 as int].field;
            &&& a.ui.focus == Some(m.prompt)
            &&& f.text == text_in(m, m.prompt) && f.cursor == f.text.len() && f.anchor is None
            &&& text_in(a, m.editor) == text_in(m, m.editor)
        }),
        ({
            let a = click_applied(m, ClickView::Elsewhere).0;
            a.ui.focus is None && a.selected is None && a.ui.nodes == m.ui.nodes
        }),
{
    reveal(click_applied);
}

/// A click on a folder makes it the place for new items, one on a file opens the file, and
/// one on a node of the preview selects the node.
pub proof fn law_click_selects<N: Num>(m: AppModel<N>, p: Seq<Seq<char>>, id: NodeId)
    ensures
        click_applied(m, ClickView::Folder(p)).0.selected_dir == p,
        click_applied(m, ClickView::Folder(p)).0.tabs == m.tabs,
        click_applied(m, ClickView::File(p)) == file_opened(m, p),
        click_applied(m, ClickView::Preview(id)).0.selected == Some(id),
        click_applied(m, ClickView::Preview(id)).0.tabs == m.tabs,
{
    reveal(click_applied);
}

/// A click beside the context menu closes it; one on it leaves that to its button.
pub proof fn law_click_beside_closes_the_menu<N: Num>(m: AppModel<N>, on_menu: bool)
    ensures
        ({
            let a = left_clicked(m, ClickView::Row, on_menu).0;
            &&& !on_menu ==> a.menu is None
            &&& on_menu ==> a.menu == m.menu
        }),
{
    reveal(click_applied);
}

/// The context menu opens at the cursor, on what was clicked.
pub proof fn law_menu_opens_at_the_cursor<N: Num>(m: AppModel<N>, t: TargetView)
    ensures
        menu_opened(m, t).menu == Some((t, m.cursor)),
        menu_opened(m, t).ui.focus is None,
        menu_opened(m, t).tabs == m.tabs,
{
}

// ---- the prompt ----

/// What the prompt was opened for, with what in it: something new with an empty name, an
/// entry with its old name, a field with what stands in the source.
pub proof fn law_prompt_opens<N: Num>(m: AppModel<N>, kind: NewItemKind, i: usize)
    requires
        is_sound(m),
    ensures
        ({
            let a = adding_started(m, kind);
            &&& a.creating == Some(kind) && a.renaming is None && a.editing is None
            &&& a.menu is None && a.ui.focus == Some(m.prompt)
            &&& text_in(a, m.prompt) == Seq::<char>::empty()
            &&& match m.menu {
                Some((TargetView::Folder(p), _)) => a.selected_dir == p,
                Some((TargetView::Root(p), _)) => a.selected_dir == p,
                Some((TargetView::File(p), _)) => p.len() > 1 ==> a.selected_dir == p.drop_last(),
                None => a.selected_dir == m.selected_dir,
            }
        }),
        m.menu matches Some((t, _)) ==> {
            let a = renaming_started(m);
            let p = match t {
                TargetView::Folder(p) => p,
                TargetView::File(p) => p,
                TargetView::Root(p) => p,
            };
            &&& a.renaming == Some(p) && a.creating is None && a.editing is None
            &&& a.menu is None && a.ui.focus == Some(m.prompt)
            &&& base_name(p) matches Some(n) ==> text_in(a, m.prompt) == n
            &&& deleting_started(m).1 == RequestView::Delete(p)
            &&& deleting_started(m).0.menu is None
        },
        i < m.fields.len() ==> {
            let a = editing_started(m, i);
            &&& a.editing == Some(m.fields[i as int]) && a.creating is None && a.renaming is None
            &&& a.ui.focus == Some(m.prompt)
            &&& m.fields[i as int].is_binding ==> text_in(a, m.prompt) == m.fields[i as int].value
        },
{
}

/// Confirming the name of something new asks for it to be written into the selected
/// directory, after everything that is queued; an empty name asks for nothing. Either way
/// the prompt closes.
pub proof fn law_confirmed_name_is_created<N: Num>(m: AppModel<N>, kind: NewItemKind)
    requires
        is_sound(m),
        m.creating == Some(kind),
        m.renaming is None,
        m.editing is None,
    ensures
        ({
            let (a, r) = confirmed(m);
            let name = trimmed(text_in(m, m.prompt));
            &&& a.creating is None && a.ui.focus is None
            &&& name.len() == 0 ==> r == RequestView::Nothing && a.pending == m.pending
            &&& name.len() > 0 ==> {
                &&& r matches RequestView::Write { steps, created, is_file }
                &&& created == path_join(m.selected_dir, name)
                &&& is_file <==> kind == NewItemKind::File
                &&& steps.len() > 0 && steps.last().0 == created
                &&& steps.last().1 == if is_file {
                    Some(Seq::<char>::empty())
                } else {
                    None
                }
                &&& a.pending.len() == 0
            }
        }),
{
    reveal(confirmed);
    let name = trimmed(text_in(m, m.prompt));
    let a = prompt_closed(m);
    assert(a.selected_dir == m.selected_dir);
    if name.len() > 0 {
        let created = path_join(m.selected_dir, name);
        let s = creation_steps(m.pending, created, kind is File);
        assert(s.last().0 == created);
    }
}

/// Confirming a new name asks for the entry to be moved there, beside where it was.
pub proof fn law_confirmed_rename_stays_beside<N: Num>(m: AppModel<N>, from: Seq<Seq<char>>)
    requires
        is_sound(m),
        m.renaming == Some(from),
        m.editing is None,
        base_name(from) is Some,
    ensures
        ({
            let (a, r) = confirmed(m);
            let name = trimmed(text_in(m, m.prompt));
            &&& a.renaming is None && a.ui.focus is None
            &&& name.len() == 0 ==> r == RequestView::Nothing
            &&& name.len() > 0 ==> r == (RequestView::Rename {
                from,
                to: path_join(from.drop_last(), name),
            })
        }),
{
    reveal(confirmed);
}

/// Once an entry was renamed, files in it are open under their new paths, with their text;
/// other tabs stay as they are.
pub proof fn law_rename_moves_open_files<N: Num>(
    m: AppModel<N>,
    from: Seq<Seq<char>>,
    to: Seq<Seq<char>>,
    k: int,
)
    requires
        is_sound(m),
        0 <= k < m.tabs.len(),
    ensures
        ({
            let a = rename_done(m, from, to, true).0;
            let (t, u) = (m.tabs[k], a.tabs[k]);
            &&& a.tabs.len() == m.tabs.len() && a.active == m.active && a.scan_wanted
            &&& u.buffer == t.buffer && u.dirty == t.dirty
            &&& !is_under(t.path, from) ==> u == t
            &&& forall|rest: Seq<Seq<char>>| t.path == #[trigger] (from + rest) ==> u.path == to + rest
            &&& rename_done(m, from, to, false) == (m, RequestView::Nothing)
        }),
{
    reveal(tab_shown);
    let a = rename_done(m, from, to, true).0;
    let t = m.tabs[k];
    assert(a.tabs[k].path == moved(t.path, from, to));
    assert forall|rest: Seq<Seq<char>>| t.path == #[trigger] (from + rest) implies a.tabs[k].path
        == to + rest by {
        assert((from + rest).skip(from.len() as int) =~= rest);
        assert(is_under(t.path, from)) by {
            assert((from + rest).take(from.len() as int) =~= from);
        }
    }
}

/// Once an entry was deleted, no file in it is open any more, and the others are, in their
/// order; new items go into the project's root if they would have gone into it.
pub proof fn law_delete_closes_open_files<N: Num>(m: AppModel<N>, path: Seq<Seq<char>>)
    requires
        is_sound(m),
    ensures
        ({
            let a = delete_done(m, path, true).0;
            &&& a.tabs == m.tabs.filter(|t: TabView| !is_under(t.path, path))
            &&& a.scan_wanted
            &&& is_under(m.selected_dir, path) ==> a.selected_dir == m.root
            &&& !is_under(m.selected_dir, path) ==> a.selected_dir == m.selected_dir
            &&& delete_done(m, path, false) == (m, RequestView::Nothing)
        }),
{
    reveal(tab_shown);
    lemma_left_is_filtered(m.tabs, path, m.tabs.len());
    assert(m.tabs.take(m.tabs.len() as int) =~= m.tabs);
}

proof fn lemma_left_is_filtered(tabs: Seq<TabView>, path: Seq<Seq<char>>, n: nat)
    requires
        n <= tabs.len(),
    ensures
        left_tabs(tabs, path, n) == tabs.take(n as int).filter(
            |t: TabView| !is_under(t.path, path),
        ),
    decreases n,
{
    reveal(Seq::filter);
    if n > 0 {
        lemma_left_is_filtered(tabs, path, (n - 1) as nat);
        assert(tabs.take(n as int).drop_last() =~= tabs.take(n - 1));
    }
}

// ---- the window ----

/// The window names the tabs in their order, marks those with unsaved edits, and the active
/// one; and it titles the prompt by what it is for.
pub proof fn law_window_shows_the_tabs<N: Num>(m: AppModel<N>, i: int)
    requires
        0 <= i < m.tabs.len() <= usize::MAX,
    ensures
        ({
            let w = synced(m).state;
            let t = m.tabs[i];
            &&& w.tabs.len() == m.tabs.len()
            &&& w.tabs[i].1 <==> m.active == Some(i as usize)
            &&& base_name(t.path) matches Some(n) ==> w.tabs[i].0 == if t.dirty {
                "● "@ + n
            } else {
                n
            }
            &&& m.editing is None && m.renaming is None && m.creating == Some(NewItemKind::File)
                ==> w.popup_title == "New File"@
            &&& m.editing is None && m.renaming is None && m.creating == Some(NewItemKind::Folder)
                ==> w.popup_title == "New Folder"@
            &&& m.editing is None && m.renaming is Some ==> w.popup_title == "Rename"@
            &&& m.editing is Some ==> w.popup_title == "Edit Value"@
        }),
{
    reveal(shown);
}

/// The context menu offers to add to a folder and to the project's root, and to rename and
/// delete a folder or a file; what it does not offer takes no room.
pub proof fn law_window_shows_the_menu<N: Num>(m: AppModel<N>)
    ensures
        ({
            let w = synced(m).state;
            match m.menu {
                Some((TargetView::Folder(_), p)) => {
                    &&& w.context_menu_add_h == "32px"@ && w.context_menu_edit_h == "32px"@
                    &&& w.context_menu_rename_label == "Rename Folder"@
                    &&& w.context_menu_delete_label == "Delete Folder"@
                    &&& w.context_menu_left == N::text_of(p.x) + "px"@
                    &&& w.context_menu_top == N::text_of(p.y) + "px"@
                },
                Some((TargetView::File(_), p)) => {
                    &&& w.context_menu_add_h == "0px"@ && w.context_menu_edit_h == "32px"@
                    &&& w.context_menu_rename_label == "Rename File"@
                    &&& w.context_menu_delete_label == "Delete File"@
                    &&& w.context_menu_left == N::text_of(p.x) + "px"@
                    &&& w.context_menu_top == N::text_of(p.y) + "px"@
                },
                Some((TargetView::Root(_), p)) => {
                    &&& w.context_menu_add_h == "32px"@ && w.context_menu_edit_h == "0px"@
                    &&& w.context_menu_left == N::text_of(p.x) + "px"@
                    &&& w.context_menu_top == N::text_of(p.y) + "px"@
                },
                None => {
                    &&& w.context_menu_left == "-9999px"@ && w.context_menu_top == "-9999px"@
                    &&& w.context_menu_add_h == "0px"@ && w.context_menu_edit_h == "0px"@
                },
            }
        }),
{
    reveal(shown);
}

} // verus!
