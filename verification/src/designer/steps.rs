//! The designer's steps: tabs, files, the prompt and the context menu.

use vstd::prelude::*;
use vstd::string::*;
use vstd::utf8::*;
use crate::designer::app::{
    name_text, built_view, first_layout, key_view, opt_document, row_texts, DesignerApp,
};
use crate::designer::chrome::lemma_ready_kept;
use crate::designer::document::AstNode;
use crate::designer::inspector::{
    apply_binding_edit, apply_style_edit, field_views, inspect, FieldView, InspectorField,
    InspectorSelection,
};
use crate::designer::model::{
    adding_started, confirmed, creation_steps, delete_done, deleting_started, disk_changed,
    editing_done, editing_started, field_row, field_source, file_opened, file_read_in, inspected,
    inspector_key, is_patched, kept_edits, layout_kept, layout_picked, load_done, menu_closed,
    menu_opened, naming_done, naming_started, patched, prompt_closed, rename_done, renaming_done,
    renaming_started, rescanned, save_done, save_request, source_edited, tab_closed, tab_field,
    tab_shown, tab_switched, write_done, AppModel, ContextMenuTarget, LoadFor, LoadRequest,
    NewItemKind, Request,
};
use crate::designer::nodes::{filled, lemma_field_twice, place_caret};
use crate::designer::paths::VPath;
use crate::designer::preview::{layout_names, texts, Loaded};
use crate::designer::state::InspectorFieldRow;
use crate::designer::tabs::move_path;
use crate::designer::virtual_fs::{flush_steps, steps_of, write_steps, DiskStep};
use crate::text::{str_eq, trim};
use crate::toolkit::arena::{NodeId, NodeKind};
use crate::toolkit::num::Num;
use crate::toolkit::text_input::char_len;

verus! {

/// A copy of a field.
fn copy_field(f: &InspectorField) -> (r: InspectorField)
    ensures
        r@ == f@,
{
    InspectorField {
        label: f.label.clone(),
        value: f.value.clone(),
        span: f.span,
        is_binding: f.is_binding,
    }
}

/// A field's place in the source stays the same if it is put there again.
proof fn lemma_patched(source: Seq<char>, f: FieldView, text: Seq<char>, after: Seq<char>)
    requires
        is_patched(source, f, text, after),
    ensures
        after == patched(source, f, text),
{
    let chosen = patched(source, f, text);
    assert(is_patched(source, f, text, chosen));
    encode_utf8_decode_utf8(after);
    encode_utf8_decode_utf8(chosen);
}

impl<N: Num> DesignerApp<N> {
    // ---- tabs and files ----

    /// Keeps what is in the editor in the active tab.
    pub fn sync_editor_into_active_tab(&mut self)
        requires
            old(self).wf(),
        ensures
            final(self).wf(),
            final(self).model() == kept_edits(old(self).model()),
            *final(self) == (DesignerApp { tabs: final(self).tabs, ..*old(self) }),
    {
        let buffer: String = self.chrome.editor_text().to_owned();
        let (cursor, selection_anchor): (usize, Option<usize>) = match &self.chrome.ui.get(
            self.chrome.editor_node,
        ).kind {
            NodeKind::TextInput { cursor, selection_anchor, .. } => (*cursor, *selection_anchor),
            _ => (0, None),
        };
        if let Some(tab) = self.tabs.active_mut() {
            if !str_eq(tab.buffer.as_str(), buffer.as_str()) {
                tab.dirty = true;
            }
            tab.buffer = buffer;
            tab.cursor = cursor;
            tab.selection_anchor = selection_anchor;
        }
    }

    /// Puts the active tab into the editor, and asks for its document.
    pub fn load_active_tab_into_editor_and_preview(&mut self) -> (r: Request)
        requires
            old(self).wf(),
        ensures
            final(self).wf(),
            (final(self).model(), r@) == tab_shown(old(self).model()),
            final(self).model() == (AppModel {
                ui: final(self).model().ui,
                selected: final(self).model().selected,
                ..old(self).model()
            }),
            final(self).editing_field == old(self).editing_field,
    {
        let ghost m = self.model();
        proof {
            reveal(tab_shown);
        }
        let (path, buffer, cursor, anchor, layout): (
            VPath,
            String,
            usize,
            Option<usize>,
            String,
        ) = match self.tabs.active() {
            None => {
                return Request::Nothing;
            },
            Some(tab) => (
                tab.path.clone(),
                tab.buffer.clone(),
                tab.cursor,
                tab.selection_anchor,
                match &tab.selected_layout {
                    Some(l) => l.clone(),
                    None => "App".to_owned(),
                },
            ),
        };
        let ghost t = m.tabs[m.active->0 as int];
        self.chrome.set_editor_text(buffer.as_str());
        let len: usize = char_len(buffer.as_str());
        let to: usize = if cursor <= len {
            cursor
        } else {
            len
        };
        let kept: Option<usize> = match anchor {
            Some(a) => if a <= len {
                Some(a)
            } else {
                None
            },
            None => None,
        };
        let ghost before = self.chrome;
        place_caret(&mut self.chrome.ui, self.chrome.editor_node, to, kept);
        self.selected_node = None;
        proof {
            lemma_ready_kept(before, self.chrome);
            lemma_field_twice(m.ui, m.editor, filled(buffer@), tab_field(t));
        }
        Request::Load(LoadRequest { purpose: LoadFor::Tab, path, layout, text: Some(buffer) })
    }

    /// Opens `path` in a tab, or switches to its tab.
    pub fn open_file(&mut self, path: VPath) -> (r: Request)
        requires
            old(self).wf(),
        ensures
            final(self).wf(),
            (final(self).model(), r@) == file_opened(old(self).model(), path@),
            final(self).editing_field == old(self).editing_field,
    {
        self.sync_editor_into_active_tab();
        match self.tabs.find(&path) {
            Some(i) => {
                let _ = self.tabs.switch_to(i);
                self.load_active_tab_into_editor_and_preview()
            },
            None => Request::Read(path),
        }
    }

    /// `path` was read: it gets a tab of its own.
    pub fn file_read(&mut self, path: VPath, text: String) -> (r: Request)
        requires
            old(self).wf(),
        ensures
            final(self).wf(),
            (final(self).model(), r@) == file_read_in(old(self).model(), path@, text@),
    {
        match self.tabs.find(&path) {
            Some(i) => {
                let _ = self.tabs.switch_to(i);
            },
            None => {
                let _ = self.tabs.open_new(&path, text);
            },
        }
        self.load_active_tab_into_editor_and_preview()
    }

    /// Switches to the tab at `index`, if there is one.
    pub fn switch_tab(&mut self, index: usize) -> (r: Request)
        requires
            old(self).wf(),
        ensures
            final(self).wf(),
            (final(self).model(), r@) == tab_switched(old(self).model(), index),
    {
        self.sync_editor_into_active_tab();
        if self.tabs.switch_to(index) {
            self.load_active_tab_into_editor_and_preview()
        } else {
            Request::Nothing
        }
    }

    /// Closes the active tab, if there is one.
    pub fn close_active_tab(&mut self) -> (r: Request)
        requires
            old(self).wf(),
        ensures
            final(self).wf(),
            (final(self).model(), r@) == tab_closed(old(self).model()),
    {
        let index: usize = match self.tabs.active_index() {
            Some(i) => i,
            None => {
                return Request::Nothing;
            },
        };
        self.tabs.close(index);
        if self.tabs.active_index().is_some() {
            self.load_active_tab_into_editor_and_preview()
        } else {
            self.sync_reactive_state();
            Request::Nothing
        }
    }

    /// Asks for another layout of the file.
    pub fn select_layout(&self, name: &str) -> (r: Request)
        requires
            self.wf(),
        ensures
            r@ == layout_picked(self.model(), name@),
    {
        Request::Load(
            LoadRequest {
                purpose: LoadFor::Layout,
                path: self.doc.entry_path.clone(),
                layout: name.to_owned(),
                text: Some(self.chrome.editor_text().to_owned()),
            },
        )
    }

    /// Asks for the document to be built from what is in the editor.
    pub fn reload_from_editor_buffer(&mut self) -> (r: Request)
        requires
            old(self).wf(),
        ensures
            final(self).wf(),
            (final(self).model(), r@) == source_edited(old(self).model()),
    {
        self.selected_node = None;
        let buffer: String = self.chrome.editor_text().to_owned();
        let copy: String = buffer.clone();
        if let Some(tab) = self.tabs.active_mut() {
            tab.dirty = !str_eq(tab.buffer.as_str(), copy.as_str());
            tab.buffer = copy;
        }
        Request::Load(
            LoadRequest {
                purpose: LoadFor::Edit,
                path: self.doc.entry_path.clone(),
                layout: self.doc.entry_layout.clone(),
                text: Some(buffer),
            },
        )
    }

    /// Asks for the document to be loaded from disk again.
    pub fn reload_from_disk(&mut self) -> (r: Request)
        requires
            old(self).wf(),
        ensures
            final(self).wf(),
            (final(self).model(), r@) == disk_changed(old(self).model()),
    {
        self.selected_node = None;
        Request::Load(
            LoadRequest {
                purpose: LoadFor::Disk,
                path: self.doc.entry_path.clone(),
                layout: self.doc.entry_layout.clone(),
                text: None,
            },
        )
    }

    fn remember_layout(&mut self, name: &str)
        requires
            old(self).wf(),
        ensures
            final(self).wf(),
            final(self).model() == layout_kept(old(self).model(), name@),
            *final(self) == (DesignerApp { tabs: final(self).tabs, ..*old(self) }),
    {
        if let Some(tab) = self.tabs.active_mut() {
            tab.selected_layout = Some(name.to_owned());
        }
    }

    /// What came of a load that was asked for. `document` is the loaded text, parsed
    /// on its own, if it parses.
    #[verifier::rlimit(40)]
    pub fn loaded(
        &mut self,
        request: LoadRequest,
        loaded: Loaded<N>,
        document: Option<&Vec<AstNode>>,
    ) -> (r: Request)
        requires
            old(self).wf(),
            built_view(loaded) matches Some(d) ==> d.ui.wf(),
        ensures
            final(self).wf(),
            (final(self).model(), r@) == load_done(
                old(self).model(),
                request@,
                built_view(loaded),
                first_layout(opt_document(document)),
            ),
    {
        let LoadRequest { purpose, path, layout, text } = request;
        match purpose {
            LoadFor::Tab => {
                let kept: VPath = path.clone();
                let failed: bool = self.doc.switch_entry(path, layout.as_str(), loaded).is_err();
                if failed {
                    if let Some(ast) = document {
                        let names: Vec<String> = layout_names(ast);
                        if names.len() > 0 {
                            assert(texts(names@)[0] == names@[0]@);
                            let first: String = names[0].clone();
                            return Request::Load(
                                LoadRequest {
                                    purpose: LoadFor::Retry,
                                    path: kept,
                                    layout: first,
                                    text,
                                },
                            );
                        }
                    }
                }
                self.remember_layout(layout.as_str());
                self.sync_reactive_state();
                Request::Nothing
            },
            LoadFor::Retry => {
                let _ = self.doc.switch_entry(path, layout.as_str(), loaded);
                self.remember_layout(layout.as_str());
                self.sync_reactive_state();
                Request::Nothing
            },
            LoadFor::Layout => {
                if self.doc.set_entry_layout(layout.as_str(), loaded).is_ok() {
                    self.remember_layout(layout.as_str());
                    self.selected_node = None;
                    self.sync_reactive_state();
                }
                Request::Nothing
            },
            LoadFor::Edit => {
                let _ = self.doc.reload_with_overrides(loaded);
                self.sync_reactive_state();
                Request::Nothing
            },
            LoadFor::Disk => {
                let _ = self.doc.reload_with_overrides(loaded);
                Request::Nothing
            },
        }
    }

    /// Asks for the editor's text to be saved.
    pub fn save_editor_buffer(&self) -> (r: Request)
        requires
            self.wf(),
        ensures
            r@ == save_request(self.model()),
    {
        Request::Save {
            path: self.doc.entry_path.clone(),
            text: self.chrome.editor_text().to_owned(),
        }
    }

    /// What came of saving.
    pub fn saved(&mut self, ok: bool)
        requires
            old(self).wf(),
        ensures
            final(self).wf(),
            final(self).model() == save_done(old(self).model(), ok),
    {
        if !ok {
            return ;
        }
        if let Some(tab) = self.tabs.active_mut() {
            tab.dirty = false;
        }
        self.sync_reactive_state();
    }

    /// Asks for the project tree to be scanned again.
    pub fn rescan_tree(&mut self)
        requires
            old(self).wf(),
        ensures
            final(self).wf(),
            final(self).model() == rescanned(old(self).model()),
            *final(self) == (DesignerApp {
                scan_wanted: true,
                last_highlighted_path: None,
                ..*old(self)
            }),
    {
        self.scan_wanted = true;
        self.last_highlighted_path = None;
    }

    // ---- the prompt and the context menu ----

    /// Opens the context menu on `target`, where the mouse is.
    pub fn open_context_menu(&mut self, target: ContextMenuTarget)
        requires
            old(self).wf(),
        ensures
            final(self).wf(),
            final(self).model() == menu_opened(old(self).model(), target@),
    {
        self.context_menu = Some((target, self.cursor));
        self.selected_node = None;
        self.chrome.set_focus(None);
        self.sync_reactive_state();
    }

    /// Closes the context menu.
    pub fn close_context_menu(&mut self)
        requires
            old(self).wf(),
        ensures
            final(self).wf(),
            final(self).model() == menu_closed(old(self).model()),
            final(self).chrome == old(self).chrome,
            final(self).editing_field == old(self).editing_field,
    {
        self.context_menu = None;
        self.sync_reactive_state();
    }

    fn fill_prompt(&mut self, text: &str)
        requires
            old(self).wf(),
        ensures
            final(self).wf(),
            final(self).model() == crate::designer::model::prompt_filled(old(self).model(), text@),
            *final(self) == (DesignerApp { chrome: final(self).chrome, ..*old(self) }),
    {
        self.chrome.set_new_item_text(text);
        self.chrome.set_focus(Some(self.chrome.new_item_node));
    }

    /// Starts to name a new item.
    pub fn start_creating(&mut self, kind: NewItemKind)
        requires
            old(self).wf(),
        ensures
            final(self).wf(),
            final(self).model() == naming_started(old(self).model(), kind),
    {
        self.creating = Some(kind);
        self.renaming = None;
        self.editing_field = None;
        self.selected_node = None;
        proof {
            reveal_strlit("");
            assert(""@ =~= Seq::<char>::empty());
        }
        self.fill_prompt("");
        self.sync_reactive_state();
    }

    /// Starts to name a new item, in the directory that the menu was opened on.
    pub fn context_menu_add(&mut self, kind: NewItemKind)
        requires
            old(self).wf(),
        ensures
            final(self).wf(),
            final(self).model() == adding_started(old(self).model(), kind),
    {
        if let Some((target, _)) = &self.context_menu {
            self.selected_dir = target.dir_for_create();
        }
        self.context_menu = None;
        self.start_creating(kind);
    }

    /// Starts to rename what the menu was opened on.
    pub fn start_renaming(&mut self)
        requires
            old(self).wf(),
        ensures
            final(self).wf(),
            final(self).model() == renaming_started(old(self).model()),
    {
        let path: VPath = match &self.context_menu {
            Some((target, _)) => target.path().clone(),
            None => {
                return ;
            },
        };
        self.context_menu = None;
        self.creating = None;
        self.editing_field = None;
        let name: String = name_text(&path);
        self.selected_node = None;
        self.renaming = Some(path);
        self.fill_prompt(name.as_str());
        self.sync_reactive_state();
    }

    /// Asks for what the menu was opened on to be deleted.
    pub fn context_menu_delete(&mut self) -> (r: Request)
        requires
            old(self).wf(),
        ensures
            final(self).wf(),
            (final(self).model(), r@) == deleting_started(old(self).model()),
    {
        let path: VPath = match &self.context_menu {
            Some((target, _)) => target.path().clone(),
            None => {
                return Request::Nothing;
            },
        };
        self.context_menu = None;
        self.sync_reactive_state();
        Request::Delete(path)
    }

    /// What came of deleting `path`.
    #[verifier::rlimit(40)]
    pub fn deleted(&mut self, path: &VPath, ok: bool) -> (r: Request)
        requires
            old(self).wf(),
        ensures
            final(self).wf(),
            (final(self).model(), r@) == delete_done(old(self).model(), path@, ok),
    {
        if !ok {
            return Request::Nothing;
        }
        let r: Request = if self.tabs.close_under(path) {
            self.load_active_tab_into_editor_and_preview()
        } else {
            Request::Nothing
        };
        if self.selected_dir.starts_with(path) {
            self.selected_dir = self.vfs.root.clone();
        }
        self.rescan_tree();
        self.sync_reactive_state();
        r
    }

    /// Closes the prompt; nothing is created, renamed or edited.
    pub fn cancel_creating(&mut self)
        requires
            old(self).wf(),
        ensures
            final(self).wf(),
            final(self).model() == prompt_closed(old(self).model()),
            final(self).vfs == old(self).vfs,
            final(self).selected_dir == old(self).selected_dir,
    {
        self.creating = None;
        self.renaming = None;
        self.editing_field = None;
        proof {
            reveal_strlit("");
            assert(""@ =~= Seq::<char>::empty());
        }
        self.chrome.set_new_item_text("");
        self.chrome.set_focus(None);
        self.sync_reactive_state();
    }

    #[verifier::rlimit(40)]
    fn confirm_naming(&mut self, kind: NewItemKind) -> (r: Request)
        requires
            old(self).wf(),
        ensures
            final(self).wf(),
            (final(self).model(), r@) == naming_done(old(self).model(), kind),
    {
        let name: String = trim(self.chrome.new_item_text()).to_owned();
        self.cancel_creating();
        if name.as_str().is_empty() {
            return Request::Nothing;
        }
        let ghost queued = self.vfs.queue();
        proof {
            reveal_strlit("");
            assert(""@ =~= Seq::<char>::empty());
        }
        let created: VPath = match kind {
            NewItemKind::File => self.vfs.new_file(&self.selected_dir, name.as_str(), ""),
            NewItemKind::Folder => self.vfs.new_folder(&self.selected_dir, name.as_str()),
        };
        let ghost all = self.vfs.queue();
        let steps: Vec<DiskStep> = self.vfs.flush();
        proof {
            lemma_flush_prefix(queued, all, queued.len());
            assert(all.len() == queued.len() + 1);
            assert(flush_steps(all, all.len()) == flush_steps(queued, queued.len()) + write_steps(
                all.last(),
            ));
            assert(steps_of(steps@) =~= creation_steps(queued, created@, kind is File));
        }
        Request::Write {
            steps,
            created,
            is_file: match kind {
                NewItemKind::File => true,
                NewItemKind::Folder => false,
            },
        }
    }

    /// What came of creating an item.
    pub fn written(&mut self, created: VPath, is_file: bool, ok: bool) -> (r: Request)
        requires
            old(self).wf(),
        ensures
            final(self).wf(),
            (final(self).model(), r@) == write_done(old(self).model(), created@, is_file, ok),
    {
        if !ok {
            return Request::Nothing;
        }
        self.rescan_tree();
        if is_file {
            self.open_file(created)
        } else {
            self.sync_reactive_state();
            Request::Nothing
        }
    }

    fn confirm_rename(&mut self) -> (r: Request)
        requires
            old(self).wf(),
            old(self).renaming is Some,
        ensures
            final(self).wf(),
            (final(self).model(), r@) == renaming_done(
                old(self).model(),
                old(self).model().renaming->0,
            ),
    {
        let from: VPath = match &self.renaming {
            Some(p) => p.clone(),
            None => {
                return Request::Nothing;
            },
        };
        let name: String = trim(self.chrome.new_item_text()).to_owned();
        self.cancel_creating();
        if name.as_str().is_empty() {
            return Request::Nothing;
        }
        let to: VPath = self.vfs.rename(&from, name.as_str());
        Request::Rename { from, to }
    }

    /// What came of renaming `from` to `to`: open files and the directory for new
    /// items move along.
    #[verifier::rlimit(40)]
    pub fn renamed(&mut self, from: &VPath, to: &VPath, ok: bool) -> (r: Request)
        requires
            old(self).wf(),
        ensures
            final(self).wf(),
            (final(self).model(), r@) == rename_done(old(self).model(), from@, to@, ok),
    {
        if !ok {
            return Request::Nothing;
        }
        let affected: bool = self.tabs.retarget_paths(from, to);
        self.selected_dir = move_path(&self.selected_dir, from, to);
        self.rescan_tree();
        if affected {
            self.load_active_tab_into_editor_and_preview()
        } else {
            self.sync_reactive_state();
            Request::Nothing
        }
    }

    /// Starts to edit the field at `index` of the selected widget, if there is one.
    pub fn start_editing_field(&mut self, index: usize)
        requires
            old(self).wf(),
        ensures
            final(self).wf(),
            final(self).model() == editing_started(old(self).model(), index),
    {
        let ghost m = self.model();
        if index >= self.inspector_fields.len() {
            return ;
        }
        let field: InspectorField = copy_field(&self.inspector_fields[index]);
        assert(m.fields[index as int] == field@);
        self.creating = None;
        self.renaming = None;
        let prefill: String = if field.is_binding {
            field.value.clone()
        } else if field.value.as_str().is_empty() {
            field.label.clone()
        } else {
            let mut out: String = field.label.clone();
            out.append("-[");
            out.append(field.value.as_str());
            out.append("]");
            out
        };
        assert(prefill@ == field_source(field@));
        self.fill_prompt(prefill.as_str());
        self.editing_field = Some(field);
        self.sync_reactive_state();
    }

    #[verifier::rlimit(40)]
    fn confirm_field_edit(&mut self) -> (r: Request)
        requires
            old(self).wf(),
            old(self).editing_field is Some,
            old(self).edit_fits(),
        ensures
            final(self).wf(),
            (final(self).model(), r@) == editing_done(
                old(self).model(),
                old(self).model().editing->0,
            ),
    {
        let field: InspectorField = match &self.editing_field {
            Some(f) => copy_field(f),
            None => {
                return Request::Nothing;
            },
        };
        self.editing_field = None;
        let text: String = trim(self.chrome.new_item_text()).to_owned();
        let source: String = self.chrome.editor_text().to_owned();
        proof {
            reveal_strlit("");
            assert(""@ =~= Seq::<char>::empty());
        }
        self.chrome.set_new_item_text("");
        self.chrome.set_focus(None);
        if text.as_str().is_empty() {
            self.sync_reactive_state();
            return Request::Nothing;
        }
        let after: String = if field.is_binding {
            apply_binding_edit(source.as_str(), &field, text.as_str())
        } else {
            apply_style_edit(source.as_str(), &field, text.as_str())
        };
        proof {
            lemma_patched(source@, field@, text@, after@);
        }
        self.chrome.set_editor_text(after.as_str());
        self.reload_from_editor_buffer()
    }

    /// Does what the prompt is for.
    pub fn confirm_new_item(&mut self) -> (r: Request)
        requires
            old(self).wf(),
            old(self).edit_fits(),
        ensures
            final(self).wf(),
            (final(self).model(), r@) == confirmed(old(self).model()),
    {
        proof {
            reveal(confirmed);
        }
        if self.editing_field.is_some() {
            return self.confirm_field_edit();
        }
        if self.renaming.is_some() {
            return self.confirm_rename();
        }
        match self.creating {
            Some(kind) => self.confirm_naming(kind),
            None => Request::Nothing,
        }
    }

    // ---- the inspector ----

    /// Shows the selected widget's fields, if the selection or the text changed.
    /// `document` is the editor's text, parsed, if it parses.
    pub fn refresh_inspector(&mut self, document: Option<&Vec<AstNode>>)
        requires
            old(self).wf(),
        ensures
            final(self).wf(),
            final(self).model() == inspected(old(self).model(), opt_document(document)),
    {
        let ghost m = self.model();
        let key: Option<(NodeId, String)> = match self.selected_node {
            Some(id) => Some((id, self.chrome.editor_text().to_owned())),
            None => None,
        };
        assert(key_view(key) == inspector_key(m));
        let same: bool = match (&key, &self.last_inspector_key) {
            (Some((a, s)), Some((b, t))) => *a == *b && str_eq(s.as_str(), t.as_str()),
            (None, None) => true,
            _ => false,
        };
        if same {
            return ;
        }
        self.last_inspector_key = key;
        let selection: Option<InspectorSelection> = match self.selected_node {
            Some(id) => match self.doc.node_span(id) {
                Some(span) => inspect(document, span),
                None => None,
            },
            None => None,
        };
        match selection {
            Some(sel) => {
                let InspectorSelection { kind, fields } = sel;
                let mut rows: Vec<InspectorFieldRow> = Vec::new();
                let ghost views = field_views(fields@);
                let ghost want = views.map_values(|f: FieldView| field_row(f));
                let mut i: usize = 0;
                assert(row_texts(rows@) =~= want.take(0));
                while i < fields.len()
                    invariant
                        0 <= i <= fields@.len(),
                        views == field_views(fields@),
                        want == views.map_values(|f: FieldView| field_row(f)),
                        row_texts(rows@) == want.take(i as int),
                    decreases fields@.len() - i,
                {
                    let ghost before = row_texts(rows@);
                    let f: &InspectorField = &fields[i];
                    assert(views[i as int] == f@);
                    let label: String = if f.is_binding {
                        let mut out: String = "{".to_owned();
                        out.append(f.label.as_str());
                        out.append("}");
                        out
                    } else {
                        f.label.clone()
                    };
                    let value: String = f.value.clone();
                    rows.push(InspectorFieldRow { label, value });
                    assert(row_texts(rows@) =~= before.push(want[i as int]));
                    i = i + 1;
                    assert(want.take(i as int) =~= want.take(i - 1).push(want[i - 1]));
                }
                assert(want.take(i as int) =~= want);
                self.state.inspector_kind = kind;
                self.state.inspector_fields = rows;
                self.inspector_fields = fields;
            },
            None => {
                self.state.inspector_kind = String::new();
                self.state.inspector_fields = Vec::new();
                self.inspector_fields = Vec::new();
                proof {
                    assert(self.state.inspector_kind@ =~= Seq::<char>::empty());
                    assert(row_texts(self.state.inspector_fields@) =~= Seq::empty());
                    assert(field_views(self.inspector_fields@) =~= Seq::empty());
                }
            },
        }
    }
}

/// Writing a longer queue starts with the same steps.
proof fn lemma_flush_prefix(
    a: Seq<crate::designer::virtual_fs::PendingEntry>,
    b: Seq<crate::designer::virtual_fs::PendingEntry>,
    n: nat,
)
    requires
        n <= a.len() <= b.len(),
        b.take(a.len() as int) == a,
    ensures
        flush_steps(a, n) == flush_steps(b, n),
    decreases n,
{
    if n > 0 {
        lemma_flush_prefix(a, b, (n - 1) as nat);
        assert(b.take(a.len() as int)[n - 1] == b[n - 1]);
    }
}

} // verus!
