use nowui::designer::app::DesignerApp;
use nowui::designer::chrome::{apply_effective_styles, Chrome};
use nowui::designer::document::{AstNode, BindValue, Binding, Span, StylePair};
use nowui::designer::editor::{edit_text_input, Key};
use nowui::designer::events::Event;
use nowui::designer::frame::{has_preview_slot, next_frame, paint_plan, FRAME_INTERVAL};
use nowui::designer::inspector::{apply_binding_edit, apply_style_edit, inspect, InspectorField};
use nowui::designer::model::{ContextMenuTarget, LoadFor, LoadRequest, NewItemKind, Request, IDLE_HINT};
use nowui::designer::paths::VPath;
use nowui::designer::preview::{layout_hierarchy, layout_names, Loaded, PreviewDoc};
use nowui::designer::snapshot::clone_for_render;
use nowui::designer::state::{scan_tree, DesignerState, VfsNode};
use nowui::designer::tabs::Tabs;
use nowui::designer::virtual_fs::{DiskItem, DiskStep, VfsEntry, VirtualFs, DEFAULT_MAX_DEPTH};
use nowui::designer::watcher::FileWatcher;
use nowui::toolkit::arena::{Node, NodeId, NodeKind, Ui};
use nowui::toolkit::canvas::{Canvas, PaintOp};
use nowui::toolkit::geometry::{Color, Point, Rect, Size};
use nowui::toolkit::measure::PlainMetrics;
use nowui::toolkit::num::Px;
use nowui::toolkit::style::{Sizing, Style};
use nowui::toolkit::text_input::char_len;

const METRICS: PlainMetrics<Px> = PlainMetrics { track_h: Px(4), thumb_d: Px(16), control_w: Px(160) };

fn path(text: &str) -> VPath {
    VPath::parse(text)
}

// ---- paths ----

#[test]
fn paths_are_lists_of_components() {
    assert_eq!(path("/a//b/./c/").parts, vec!["/", "a", "b", "c"]);
    assert_eq!(path("./a").parts, vec![".", "a"]);
    assert_eq!(path("/a/b").text(), "/a/b");
    assert_eq!(path("/").text(), "/");
    assert_eq!(path("/a").join("b/c").text(), "/a/b/c");
    assert_eq!(path("/a").join("/x").text(), "/x");
    assert_eq!(path("/a/b").parent().unwrap().text(), "/a");
    assert!(path("/").parent().is_none());
    assert_eq!(path("/a/b").file_name(), Some("b"));
    assert_eq!(path("/a/..").file_name(), None);
    assert_eq!(path("/a/b").with_file_name("c").text(), "/a/c");
    assert!(path("/a/b/c").starts_with(&path("/a/b")) && !path("/a/bc").starts_with(&path("/a/b")));
    assert!(path("/a/b").is_child_of(&path("/a")) && !path("/a/b/c").is_child_of(&path("/a")));
    assert_eq!(path("/a/b/c").strip_prefix(&path("/a")).unwrap().text(), "b/c");
    assert!(path("/a").strip_prefix(&path("/b")).is_none());
}

// ---- tabs ----

#[test]
fn open_or_focus_opens_a_new_tab_and_activates_it() {
    let mut tabs = Tabs::default();
    let (i, is_new) = tabs.open_or_focus(&path("/a.nowui"), || "content a".to_string());
    assert_eq!(i, 0);
    assert!(is_new);
    assert_eq!(tabs.active_index(), Some(0));
    assert_eq!(tabs.active().unwrap().buffer, "content a");
    assert_eq!(tabs.len(), 1);
}

#[test]
fn open_or_focus_switches_to_an_already_open_tab_instead_of_duplicating() {
    let mut tabs = Tabs::default();
    tabs.open_or_focus(&path("/a.nowui"), || "a".to_string());
    tabs.open_or_focus(&path("/b.nowui"), || "b".to_string());
    let (i, is_new) = tabs.open_or_focus(&path("/a.nowui"), || panic!("must not re-read an already-open file"));
    assert_eq!(i, 0);
    assert!(!is_new);
    assert_eq!(tabs.len(), 2, "still only two tabs, not a duplicate");
    assert_eq!(tabs.active_index(), Some(0));
}

#[test]
fn switch_to_changes_the_active_index_and_rejects_out_of_range() {
    let mut tabs = Tabs::default();
    tabs.open_or_focus(&path("/a.nowui"), || "a".to_string());
    tabs.open_or_focus(&path("/b.nowui"), || "b".to_string());
    assert!(tabs.switch_to(0));
    assert_eq!(tabs.active_index(), Some(0));
    assert!(!tabs.switch_to(5));
    assert_eq!(tabs.active_index(), Some(0), "an out-of-range switch is a no-op, not a panic or a silent wrap");
}

#[test]
fn close_picks_the_tab_now_at_the_same_index_as_the_new_active_one() {
    let mut tabs = Tabs::default();
    tabs.open_or_focus(&path("/a.nowui"), || "a".to_string());
    tabs.open_or_focus(&path("/b.nowui"), || "b".to_string());
    tabs.open_or_focus(&path("/c.nowui"), || "c".to_string());
    tabs.switch_to(1); // "b" active

    tabs.close(1); // closes "b": "c" (now at index 1) becomes active
    assert_eq!(tabs.len(), 2);
    assert_eq!(tabs.active().unwrap().path.text(), "/c.nowui");
}

#[test]
fn close_the_last_remaining_tab_leaves_no_active_tab() {
    let mut tabs = Tabs::default();
    tabs.open_or_focus(&path("/a.nowui"), || "a".to_string());
    tabs.close(0);
    assert!(tabs.is_empty());
    assert_eq!(tabs.active_index(), None);
}

#[test]
fn close_the_rightmost_tab_activates_the_new_rightmost() {
    let mut tabs = Tabs::default();
    tabs.open_or_focus(&path("/a.nowui"), || "a".to_string());
    tabs.open_or_focus(&path("/b.nowui"), || "b".to_string());
    tabs.close(1); // closes "b", the rightmost: "a" should become active
    assert_eq!(tabs.active().unwrap().path.text(), "/a.nowui");
}

#[test]
fn tabs_follow_a_moved_or_deleted_folder() {
    let mut tabs = Tabs::default();
    tabs.open_or_focus(&path("/p/w/a"), || String::new());
    tabs.open_or_focus(&path("/p/b"), || String::new());
    assert!(!tabs.retarget_paths(&path("/p/w"), &path("/p/v")));
    assert_eq!(tabs.iter()[0].path.text(), "/p/v/a");
    assert!(tabs.retarget_paths(&path("/p/b"), &path("/p/c")));
    tabs.open_or_focus(&path("/q/d"), || String::new());
    tabs.switch_to(1);
    assert!(!tabs.close_under(&path("/p/v")));
    assert_eq!(tabs.active().unwrap().path.text(), "/p/c", "the active tab stays");
    assert!(tabs.close_under(&path("/p")));
    assert_eq!(tabs.active().unwrap().path.text(), "/q/d");
}

// ---- the project tree ----

fn file(name: &str) -> DiskItem {
    DiskItem::File { name: name.to_string() }
}

fn dir(name: &str, items: Vec<DiskItem>) -> DiskItem {
    DiskItem::Dir { name: name.to_string(), items }
}

fn children(e: &VfsEntry) -> &Vec<VfsEntry> {
    match e {
        VfsEntry::Dir { children, .. } => children,
        _ => panic!("a directory"),
    }
}

#[test]
fn from_entry_maps_a_dir_and_its_children_recursively() {
    let entry = VfsEntry::Dir {
        name: "widgets".to_string(),
        path: path("widgets"),
        children: vec![
            VfsEntry::File { name: "Card.nowui".to_string(), path: path("widgets/Card.nowui") },
            VfsEntry::Truncated { path: path("widgets/deep") },
        ],
    };
    let node = VfsNode::from_entry(&entry);
    assert_eq!(node.name, "widgets");
    assert!(node.is_dir);
    assert_eq!(node.children.len(), 2);
    assert_eq!(node.children[0].name, "Card.nowui");
    assert!(!node.children[0].is_dir);
    assert!(node.children[1].truncated);
    assert_eq!(node.children[1].name, "… more");
}

#[test]
fn from_entry_carries_the_real_path_through() {
    let entry = VfsEntry::File { name: "main.nowui".to_string(), path: path("/project/main.nowui") };
    let node = VfsNode::from_entry(&entry);
    assert_eq!(node.path, std::path::PathBuf::from("/project/main.nowui").display().to_string());
}

#[test]
fn scan_reflects_real_files_and_folders() {
    let vfs = VirtualFs::new(path("/p"));
    let disk = vec![file("main.nowui"), dir("widgets", vec![file("Card.nowui")])];
    let tree = vfs.scan(&disk, DEFAULT_MAX_DEPTH);
    assert_eq!(tree.name(), "p");
    assert_eq!(children(&tree).len(), 2, "main.nowui and widgets/");

    let widgets = children(&tree).iter().find(|c| c.name() == "widgets").unwrap();
    assert_eq!(children(widgets)[0].name(), "Card.nowui");
}

#[test]
fn pending_entries_appear_in_scan_before_flush_and_on_disk_after() {
    let mut vfs = VirtualFs::new(path("/p"));
    vfs.new_folder(&path("/p"), "widgets");
    vfs.new_file(&path("/p/widgets"), "Card.nowui", "layout: Card {}");

    let tree = vfs.scan(&vec![], DEFAULT_MAX_DEPTH);
    let widgets = children(&tree).iter().find(|c| c.name() == "widgets").expect("pending folder visible before flush");
    assert_eq!(children(widgets)[0].name(), "Card.nowui", "pending file visible before flush too");

    let steps = vfs.flush();
    assert_eq!(steps.len(), 3);
    assert!(matches!(&steps[0], DiskStep::MakeDir(p) if p.text() == "/p/widgets"));
    assert!(matches!(&steps[1], DiskStep::MakeDir(p) if p.text() == "/p/widgets"));
    assert!(matches!(&steps[2], DiskStep::WriteFile(p, c) if p.text() == "/p/widgets/Card.nowui" && c == "layout: Card {}"));

    // A second flush with nothing new queued is a harmless no-op.
    assert!(vfs.flush().is_empty());
}

#[test]
fn discard_pending_drops_a_queued_folder_and_everything_nested_under_it() {
    let mut vfs = VirtualFs::new(path("/p"));
    let widgets = vfs.new_folder(&path("/p"), "widgets");
    vfs.new_file(&widgets, "Card.nowui", "");

    vfs.discard_pending(&widgets);
    let tree = vfs.scan(&vec![], DEFAULT_MAX_DEPTH);
    assert!(children(&tree).is_empty(), "both the folder and its nested pending file are gone");

    assert!(vfs.flush().is_empty(), "discarded before flush, so never written to disk");
}

#[test]
fn scan_caps_depth_and_marks_truncation_instead_of_silently_dropping_content() {
    let mut nested = vec![file("leaf.nowui")];
    for i in (0..5).rev() {
        nested = vec![dir(&format!("level{i}"), nested)];
    }
    let vfs = VirtualFs::new(path("/p"));
    let tree = vfs.scan(&nested, 2);

    let level0 = children(&tree).iter().find(|c| c.name() == "level0").unwrap();
    let level1 = &children(level0)[0];
    assert!(matches!(level1, VfsEntry::Truncated { .. }), "depth cap reached with real content beneath it");
}

#[test]
fn a_scan_is_sorted_and_shows_what_is_queued_once() {
    let mut vfs = VirtualFs::new(path("/p"));
    vfs.new_file(&path("/p"), "b", "");
    vfs.new_file(&path("/p"), "a", "");
    let tree = vfs.scan(&vec![file("c"), file("a")], 4);
    let names: Vec<&str> = children(&tree).iter().map(|e| e.name()).collect();
    assert_eq!(names, vec!["a", "b", "c"]);
    assert_eq!(vfs.rename(&path("/p/a"), "z").text(), "/p/z");
}

#[test]
fn the_watched_set_changes_by_the_difference() {
    let mut w = FileWatcher::new();
    let first = w.set_watched(&vec![path("/a"), path("/b")]);
    assert_eq!((first.unwatch.len(), first.watch.len()), (0, 2));
    let second = w.set_watched(&vec![path("/b"), path("/c")]);
    assert_eq!(second.unwatch[0].text(), "/a");
    assert_eq!(second.watch[0].text(), "/c");
    let third = w.set_watched(&vec![]);
    assert_eq!((third.unwatch.len(), third.watch.len()), (2, 0));
}

// ---- editing ----

fn text_input(text: &str) -> NodeKind<Px> {
    NodeKind::TextInput {
        label: text.to_string(),
        placeholder: String::new(),
        masked: false,
        cursor: char_len(text),
        selection_anchor: None,
        ime_preview: String::new(),
    }
}

fn editor_ui(text: &str) -> (Ui<Px>, NodeId) {
    let mut ui = Ui::new();
    let id = ui.push(Node::new(text_input(text), Style { multiline: true, ..Default::default() }));
    (ui, id)
}

fn label_of(ui: &Ui<Px>, id: NodeId) -> &str {
    let NodeKind::TextInput { label, .. } = &ui.get(id).kind else { panic!() };
    label
}

#[test]
fn typing_inserts_at_the_cursor() {
    let (mut ui, id) = editor_ui("ac");
    let NodeKind::TextInput { cursor, .. } = &mut ui.get_mut(id).kind else { panic!() };
    *cursor = 1;
    assert!(edit_text_input(&mut ui, id, Key::Char('b'), Some("b"), false));
    assert_eq!(label_of(&ui, id), "abc");
}

#[test]
fn enter_inserts_a_newline_in_multiline_mode() {
    let (mut ui, id) = editor_ui("ab");
    let NodeKind::TextInput { cursor, .. } = &mut ui.get_mut(id).kind else { panic!() };
    *cursor = 1;
    assert!(edit_text_input(&mut ui, id, Key::Enter, Some("\r"), false));
    assert_eq!(label_of(&ui, id), "a\nb");
}

#[test]
fn backspace_on_an_empty_field_is_a_no_op() {
    let (mut ui, id) = editor_ui("");
    assert!(!edit_text_input(&mut ui, id, Key::Backspace, None, false));
}

#[test]
fn arrow_key_moves_the_cursor_without_reporting_a_change() {
    let (mut ui, id) = editor_ui("abc");
    assert!(!edit_text_input(&mut ui, id, Key::ArrowLeft, None, false));
    let NodeKind::TextInput { cursor, .. } = &ui.get(id).kind else { panic!() };
    assert_eq!(*cursor, 2);
}

#[test]
fn a_selection_is_typed_over_and_control_characters_are_not_typed() {
    let (mut ui, id) = editor_ui("hello");
    assert!(!edit_text_input(&mut ui, id, Key::Home, None, true));
    assert!(edit_text_input(&mut ui, id, Key::Other, Some("\u{7f}x\u{1}"), false));
    assert_eq!(label_of(&ui, id), "x");
    assert!(!edit_text_input(&mut ui, id, Key::Escape, Some("\u{1b}"), false));
    assert!(edit_text_input(&mut ui, id, Key::Backspace, None, false));
    assert!(!edit_text_input(&mut ui, id, Key::Delete, None, false));
    assert_eq!(label_of(&ui, id), "");
}

// ---- inspecting ----

fn span_of(src: &str, part: &str) -> Span {
    let start = src.find(part).unwrap();
    Span { start, end: start + part.len() }
}

fn style(src: &str, token: &str, key: &str, value: &str) -> StylePair {
    StylePair { key: key.to_string(), value: value.to_string(), span: span_of(src, token) }
}

fn widget(kind: &str, styles: Vec<StylePair>, bindings: Vec<Binding>, children: Vec<AstNode>, span: Span) -> AstNode {
    AstNode::Widget { kind: kind.to_string(), styles, bindings, children, span }
}

fn layout(name: &str, children: Vec<AstNode>) -> AstNode {
    AstNode::LayoutDef { name: name.to_string(), children }
}

fn on_click(src: &str) -> Binding {
    Binding {
        key: "onClick".to_string(),
        value: BindValue::Path(vec!["state".to_string(), "save".to_string()]),
        span: span_of(src, "onClick: state.save"),
    }
}

#[test]
fn inspect_lists_a_widgets_own_styles_and_bindings_not_a_childs() {
    let src = "layout: App { Button `Save` bg-[blue-500] text-[white] {onClick: state.save} { Text `nested` } }";
    let button = "Button `Save` bg-[blue-500] text-[white] {onClick: state.save} { Text `nested` }";
    let span = span_of(src, button);
    let nested = widget("Text", vec![], vec![], vec![], span_of(src, "Text `nested`"));
    let ast = vec![layout(
        "App",
        vec![widget(
            "Button",
            vec![style(src, "bg-[blue-500]", "bg", "blue-500"), style(src, "text-[white]", "text", "white")],
            vec![on_click(src)],
            vec![nested],
            span,
        )],
    )];

    let sel = inspect(Some(&ast), span).expect("Button should be found");
    assert_eq!(sel.kind, "Button");
    assert_eq!(sel.fields.iter().filter(|f| f.label == "bg").count(), 1);
    assert_eq!(sel.fields.iter().find(|f| f.label == "bg").unwrap().value, "blue-500");
    assert_eq!(sel.fields.iter().find(|f| f.label == "text").unwrap().value, "white");
    let binding = sel.fields.iter().find(|f| f.label == "onClick").expect("onClick binding");
    assert!(binding.is_binding);
    assert_eq!(binding.value, "state.save");
    assert!(sel.fields.iter().all(|f| f.label != "nested"), "nested Text's own content isn't this widget's field");
}

#[test]
fn inspect_treats_a_compact_tailwind_class_as_one_bare_flag_token_not_a_split_key_value() {
    let src = "layout: App { Container bg-blue-500 } ";
    let span = span_of(src, "Container bg-blue-500");
    let ast = vec![layout("App", vec![widget("Container", vec![style(src, "bg-blue-500", "bg-blue-500", "")], vec![], vec![], span)])];

    let sel = inspect(Some(&ast), span).unwrap();
    let field = sel.fields.iter().find(|f| f.label == "bg-blue-500").expect("the whole compact class is the label");
    assert_eq!(field.value, "", "no bracket, so no separate value half");
}

#[test]
fn inspect_returns_none_for_a_span_that_matches_no_widget() {
    let src = "layout: App { Text `hi` }";
    let ast = vec![layout("App", vec![widget("Text", vec![], vec![], vec![], span_of(src, "Text `hi`"))])];
    assert!(inspect(Some(&ast), Span { start: 0, end: 0 }).is_none());
    assert!(inspect(None, span_of(src, "Text `hi`")).is_none());
}

#[test]
fn apply_style_edit_replaces_only_the_targeted_tokens_own_span() {
    let src = "layout: App { Button `Save` bg-blue-500 text-white } // trailing comment";
    let bg = InspectorField { label: "bg-blue-500".to_string(), value: String::new(), span: span_of(src, "bg-blue-500"), is_binding: false };

    let patched = apply_style_edit(src, &bg, "bg-blue-700");

    assert_eq!(patched, "layout: App { Button `Save` bg-blue-700 text-white } // trailing comment");
}

#[test]
fn apply_style_edit_on_a_bracket_value_replaces_the_whole_token() {
    let src = "layout: App { Container grid p-[4px] } ";
    let span = span_of(src, "Container grid p-[4px]");
    let ast = vec![layout(
        "App",
        vec![widget("Container", vec![style(src, "grid", "grid", ""), style(src, "p-[4px]", "p", "4px")], vec![], vec![], span)],
    )];
    let sel = inspect(Some(&ast), span).unwrap();
    let p = sel.fields.iter().find(|f| f.label == "p").unwrap();
    assert_eq!(p.value, "4px");

    let patched = apply_style_edit(src, p, "p-[8px]");

    assert_eq!(patched, "layout: App { Container grid p-[8px] } ");
}

#[test]
fn apply_binding_edit_replaces_the_whole_key_value_pair() {
    let src = "layout: App { Button `Save` {onClick: state.save} }";
    let span = span_of(src, "Button `Save` {onClick: state.save}");
    let ast = vec![layout("App", vec![widget("Button", vec![], vec![on_click(src)], vec![], span)])];
    let sel = inspect(Some(&ast), span).unwrap();
    let on_click = sel.fields.iter().find(|f| f.label == "onClick").unwrap();

    let patched = apply_binding_edit(src, on_click, "state.cancel");

    assert_eq!(patched, "layout: App { Button `Save` {onClick: state.cancel} }");
}

#[test]
fn every_kind_of_value_is_shown() {
    let none = Span { start: 1, end: 2 };
    let bind = |key: &str, value: BindValue| Binding { key: key.to_string(), value, span: none };
    let ast = vec![AstNode::If {
        branches: vec![vec![], vec![AstNode::Import { path: "x".to_string() }]],
        else_branch: vec![AstNode::For {
            body: vec![widget(
                "Slider",
                vec![],
                vec![
                    bind("a", BindValue::Bool(true)),
                    bind("b", BindValue::Number("1.5".to_string())),
                    bind("c", BindValue::Str("s".to_string())),
                ],
                vec![],
                none,
            )],
        }],
    }];
    let sel = inspect(Some(&ast), none).unwrap();
    let values: Vec<&str> = sel.fields.iter().map(|f| f.value.as_str()).collect();
    assert_eq!(values, vec!["true", "1.5", "s"]);
}

// ---- previewing ----

fn plain(kind: &str) -> AstNode {
    widget(kind, vec![], vec![], vec![], Span { start: 0, end: 0 })
}

fn hierarchy(ast: Vec<AstNode>) -> Vec<(String, String)> {
    let names = layout_names(&ast);
    layout_hierarchy(&ast, &names[0])
}

#[test]
fn layout_names_lists_every_top_level_layout_in_source_order() {
    let ast = vec![layout("App", vec![plain("Text")]), layout("Card", vec![plain("Text")]), layout("Footer", vec![plain("Text")])];
    assert_eq!(layout_names(&ast), vec!["App".to_string(), "Card".to_string(), "Footer".to_string()]);
}

#[test]
fn layout_hierarchy_lists_every_reachable_layout_with_its_own_full_path() {
    let ast = vec![
        layout("App", vec![plain("PageLogin")]),
        layout("PageLogin", vec![plain("ResultPopUp")]),
        layout("ResultPopUp", vec![plain("Text")]),
        layout("Orphan", vec![plain("Text")]),
    ];
    assert_eq!(
        hierarchy(ast),
        vec![
            ("App".to_string(), "App".to_string()),
            ("App > PageLogin".to_string(), "PageLogin".to_string()),
            ("App > PageLogin > ResultPopUp".to_string(), "ResultPopUp".to_string()),
        ],
        "Orphan is never used anywhere, so it isn't reachable from App"
    );
}

#[test]
fn layout_hierarchy_breaks_a_cycle_instead_of_recursing_forever() {
    let ast = vec![layout("App", vec![AstNode::For { body: vec![plain("App")] }])];
    assert_eq!(hierarchy(ast), vec![("App".to_string(), "App".to_string()), ("App > App".to_string(), "App".to_string())]);
}

#[test]
fn layout_hierarchy_finds_a_layout_used_only_inside_an_if_branch() {
    let ast = vec![
        layout("App", vec![AstNode::If { branches: vec![vec![plain("Dashboard")]], else_branch: vec![plain("PageLogin")] }]),
        layout("Dashboard", vec![plain("Text")]),
        layout("PageLogin", vec![plain("Text")]),
    ];
    let all = hierarchy(ast);
    let ids: Vec<&str> = all.iter().map(|(_, id)| id.as_str()).collect();
    assert!(ids.contains(&"Dashboard"));
    assert!(ids.contains(&"PageLogin"));
}

/// What a layout with one text in it is built into.
fn built(content: &str) -> (Ui<Px>, Vec<(NodeId, Span)>) {
    let mut ui = Ui::new();
    let text = ui.push(Node::new(NodeKind::Text { content: content.to_string() }, Style::default()));
    let root = ui.push(Node::new(NodeKind::Container, Style::default()));
    ui.get_mut(root).children = vec![text];
    ui.add_layer(root, "main");
    (ui, vec![(text, Span { start: 14, end: 23 })])
}

fn loaded(names: &[&str], content: &str) -> Loaded<Px> {
    Loaded::Document { ast: names.iter().map(|n| layout(n, vec![plain("Text")])).collect(), built: Some(built(content)) }
}

fn shown_text(doc: &PreviewDoc<Px>) -> &str {
    let root = doc.ui.get(doc.ui.layers[0].root);
    let NodeKind::Text { content } = &doc.ui.get(root.children[0]).kind else { panic!() };
    content
}

fn doc(names: &[&str], content: &str) -> PreviewDoc<Px> {
    match PreviewDoc::load(path("/p/main.nowui"), "App", loaded(names, content)) {
        Ok(d) => d,
        Err(e) => panic!("{e}"),
    }
}

#[test]
fn a_reload_that_fails_to_parse_leaves_the_last_good_ui_in_place() {
    let mut d = doc(&["App", "Extra"], "good");
    assert_eq!(d.reload_with_overrides(Loaded::Failed("bad".to_string())).unwrap_err(), "bad");
    assert_eq!(shown_text(&d), "good", "the last successful build is still showing");
    assert_eq!(d.layout_names.len(), 2);
    assert!(d.reload_with_overrides(loaded(&["App"], "better")).is_ok());
    assert_eq!((shown_text(&d), d.layout_names.len()), ("better", 1));
}

#[test]
fn a_missing_layout_is_reported() {
    let gone = Loaded::Document { ast: vec![layout("Other", vec![])], built: None };
    match PreviewDoc::<Px>::load(path("/p/main.nowui"), "App", gone) {
        Ok(_) => panic!("there is no such layout"),
        Err(e) => assert_eq!(e, "no `layout: App` found in `/p/main.nowui`"),
    }
}

#[test]
fn switching_entry_and_layout_points_the_document_elsewhere() {
    let mut d = doc(&["App", "Alt"], "file a");
    assert!(d.set_entry_layout("Alt", loaded(&["App", "Alt"], "from alt")).is_ok());
    assert_eq!((d.entry_layout(), shown_text(&d)), ("Alt", "from alt"));
    assert!(d.switch_entry(path("/p/b.nowui"), "App", loaded(&["App"], "file b")).is_ok());
    assert_eq!((d.entry_path.text().as_str(), shown_text(&d)), ("/p/b.nowui", "file b"));
    assert_eq!(d.node_span(NodeId(0)), Some(Span { start: 14, end: 23 }));
    assert_eq!(d.node_span(NodeId(1)), None);
}

#[test]
fn render_into_pins_the_root_to_the_given_rect_not_a_whole_window() {
    let mut d = doc(&["App"], "hi");
    let slot = Rect::new(Px(40), Px(20), Px(300), Px(150));
    let mut canvas = Canvas::new();
    d.render_into(slot, &METRICS, &mut canvas);
    let root = d.ui.get(d.ui.layers[0].root);
    assert_eq!(root.computed, slot, "the document's own root is pinned to the chrome-provided slot rect");
}

// ---- the designer's window ----

fn container(ui: &mut Ui<Px>, children: Vec<NodeId>) -> NodeId {
    let id = ui.push(Node::new(NodeKind::Container, Style::default()));
    ui.get_mut(id).children = children;
    id
}

fn button(ui: &mut Ui<Px>, label: &str) -> NodeId {
    ui.push(Node::new(NodeKind::Button { label: label.to_string() }, Style::default()))
}

fn row(ui: &mut Ui<Px>, label: &str, children: Vec<NodeId>, collapsed: bool) -> NodeId {
    let kind = NodeKind::TreeViewItem {
        id: label.to_string(),
        label: label.to_string(),
        collapsed,
        selected: false,
        checkbox: false,
        show_folder_actions: false,
        icon: None,
    };
    let id = ui.push(Node::new(kind, Style::default()));
    ui.get_mut(id).children = children;
    id
}

/// The ids of a small window.
struct Parts {
    popup: Vec<NodeId>,
    menu: Vec<NodeId>,
    tabs: Vec<NodeId>,
    fields: Vec<NodeId>,
    root_row: NodeId,
    file_row: NodeId,
    picker: NodeId,
    slot: NodeId,
}

/// A window with the popup, the menu, a sidebar with a tree of one file, the editor
/// below the tab strip, and the inspector above the preview.
fn window() -> (Chrome<Px>, Parts) {
    let mut ui: Ui<Px> = Ui::new();
    let prompt = ui.push(Node::new(text_input(""), Style::default()));
    let popup = vec![button(&mut ui, "Cancel"), button(&mut ui, "Create")];
    let popup_box = container(&mut ui, vec![prompt, popup[0], popup[1]]);
    let menu: Vec<NodeId> = ["Add Folder", "Add File", "Rename", "Delete"].iter().map(|l| button(&mut ui, l)).collect();
    let menu_box = container(&mut ui, menu.clone());
    let file_row = row(&mut ui, "main.nowui", vec![], false);
    let root_row = row(&mut ui, "p", vec![file_row], false);
    let sidebar = container(&mut ui, vec![root_row]);
    let tabs = vec![button(&mut ui, "tab 0"), button(&mut ui, "tab 1")];
    let strip = container(&mut ui, tabs.clone());
    let editor = ui.push(Node::new(text_input(""), Style { multiline: true, ..Default::default() }));
    let middle = container(&mut ui, vec![strip, editor]);
    let picker = ui.push(Node::new(
        NodeKind::Dropdown {
            placeholder: String::new(),
            options: vec!["App".to_string(), "App > Alt".to_string()],
            selected: None,
            open: false,
        },
        Style::default(),
    ));
    let fields = vec![button(&mut ui, "field 0"), button(&mut ui, "field 1")];
    let field_box = container(&mut ui, fields.clone());
    let slot = container(&mut ui, vec![]);
    let right = container(&mut ui, vec![picker, field_box, slot]);
    let root = container(&mut ui, vec![popup_box, menu_box, sidebar, middle, right]);
    ui.add_layer(root, "main");
    let chrome = match Chrome::load(ui) {
        Ok(c) => c,
        Err(e) => panic!("{e}"),
    };
    (chrome, Parts { popup, menu, tabs, fields, root_row, file_row, picker, slot })
}

fn disk() -> Vec<DiskItem> {
    vec![file("main.nowui")]
}

fn app(names: &[&str]) -> (DesignerApp<Px>, Parts) {
    let (mut chrome, parts) = window();
    chrome.set_editor_text("layout: App { Text `hi` }");
    let vfs = VirtualFs::new(path("/p"));
    let state = DesignerState { tree: scan_tree(&vfs, &disk()), ..Default::default() };
    (DesignerApp::new(chrome, doc(names, "hi"), state, vfs, Px(240)), parts)
}

fn place(app: &mut DesignerApp<Px>, id: NodeId, rect: (i32, i32, i32, i32)) {
    app.chrome.ui.get_mut(id).computed = Rect::new(Px(rect.0), Px(rect.1), Px(rect.2), Px(rect.3));
}

/// Puts the whole chain down to `id` under the mouse, and clicks.
fn click(app: &mut DesignerApp<Px>, id: NodeId) -> Request {
    for n in 0..app.chrome.ui.nodes.len() {
        app.chrome.ui.nodes[n].computed = Rect::new(Px(-50), Px(-50), Px(1), Px(1));
    }
    let mut at = id;
    place(app, at, (0, 0, 10, 10));
    loop {
        let above = (0..app.chrome.ui.nodes.len()).find(|&n| app.chrome.ui.nodes[n].children.contains(&at));
        match above {
            Some(n) => {
                at = NodeId(n as u32);
                place(app, at, (0, 0, 100, 100));
            }
            None => break,
        }
    }
    app.window_event(Event::CursorMoved(Point::new(Px(5), Px(5))));
    app.window_event(Event::LeftPress)
}

fn press(app: &mut DesignerApp<Px>, key: Key, text: Option<&str>) -> Request {
    app.window_event(Event::KeyPress { key, text: text.map(|t| t.to_string()) })
}

/// Answers every load that is asked for with a document of these layouts.
fn answer(app: &mut DesignerApp<Px>, mut r: Request, names: &[&str]) -> Request {
    while let Request::Load(l) = r {
        r = app.loaded(l, loaded(names, "loaded"), None);
    }
    r
}

fn editor_cursor(app: &DesignerApp<Px>) -> (usize, Option<usize>) {
    match &app.chrome.ui.get(app.chrome.editor_node).kind {
        NodeKind::TextInput { cursor, selection_anchor, .. } => (*cursor, *selection_anchor),
        _ => panic!("a text field"),
    }
}

#[test]
fn set_editor_text_seeds_the_buffer_and_places_the_caret_at_the_end() {
    let (mut chrome, _) = window();
    chrome.set_editor_text("layout: App { Text `hi` }");
    assert_eq!(chrome.editor_text(), "layout: App { Text `hi` }");
    let NodeKind::TextInput { cursor, selection_anchor, .. } = &chrome.ui.get(chrome.editor_node).kind else { panic!() };
    assert_eq!(*cursor, "layout: App { Text `hi` }".chars().count());
    assert!(selection_anchor.is_none());
}

#[test]
fn a_window_without_its_text_fields_is_refused() {
    let mut ui: Ui<Px> = Ui::new();
    let root = container(&mut ui, vec![]);
    ui.add_layer(root, "main");
    match Chrome::load(ui) {
        Ok(_) => panic!("there is no text field"),
        Err(e) => assert_eq!(e, "designer.nowui has no TextInput for the new-item prompt"),
    }
    let mut ui: Ui<Px> = Ui::new();
    let only = ui.push(Node::new(text_input(""), Style::default()));
    ui.add_layer(only, "main");
    match Chrome::load(ui) {
        Ok(_) => panic!("there is but one text field"),
        Err(e) => assert_eq!(e, "designer.nowui has no TextInput for the editor"),
    }
}

#[test]
fn new_seeds_a_single_tab_from_the_initially_opened_file() {
    let (app, _) = app(&["App"]);
    assert_eq!(app.tabs.len(), 1);
    assert_eq!(app.state.tabs[0].label, "main.nowui");
    assert!(app.state.tabs[0].active);
    assert_eq!(app.tabs.active().unwrap().selected_layout.as_deref(), Some("App"));
    assert_eq!(app.state.creating_hint, IDLE_HINT);
    assert_eq!((app.state.popup_left.as_str(), app.state.context_menu_left.as_str()), ("-9999px", "-9999px"));
}

#[test]
fn opening_a_file_reads_it_once_and_switches_afterwards() {
    let (mut app, _) = app(&["App"]);
    let r = app.open_file(path("/p/b.nowui"));
    assert!(matches!(&r, Request::Read(p) if p.text() == "/p/b.nowui"));
    let r = app.file_read(path("/p/b.nowui"), "layout: App { Text `b` }".to_string());
    assert!(matches!(&r, Request::Load(LoadRequest { purpose: LoadFor::Tab, .. })));
    answer(&mut app, r, &["App"]);
    assert_eq!(app.chrome.editor_text(), "layout: App { Text `b` }");
    assert_eq!(app.state.tabs.len(), 2);
    let r = app.open_file(path("/p/main.nowui"));
    answer(&mut app, r, &["App"]);
    assert_eq!(app.tabs.len(), 2, "no tab is opened twice");
    assert_eq!(app.tabs.active_index(), Some(0));
}

#[test]
fn switching_tabs_preserves_unsaved_edits_in_the_outgoing_tab() {
    let (mut app, parts) = app(&["App"]);
    let r = app.file_read(path("/p/b.nowui"), "b".to_string());
    answer(&mut app, r, &["App"]);
    app.chrome.set_editor_text("b edited");
    let r = click(&mut app, parts.tabs[0]);
    answer(&mut app, r, &["App"]);
    assert_eq!(app.chrome.editor_text(), "layout: App { Text `hi` }");
    assert_eq!(app.state.tabs[1].label, "● b.nowui");
    let r = click(&mut app, parts.tabs[1]);
    answer(&mut app, r, &["App"]);
    assert_eq!(app.chrome.editor_text(), "b edited");
}

#[test]
fn a_tab_whose_layout_is_missing_falls_back_to_the_files_first_one() {
    let (mut app, _) = app(&["App"]);
    let r = app.file_read(path("/p/b.nowui"), "layout: Page {}".to_string());
    let Request::Load(l) = r else { panic!("a load") };
    assert_eq!(l.layout, "App");
    let parsed = vec![layout("Page", vec![])];
    let missing = Loaded::Document { ast: vec![layout("Page", vec![])], built: None };
    let r = app.loaded(l, missing, Some(&parsed));
    let Request::Load(l) = r else { panic!("another load") };
    assert_eq!((l.purpose, l.layout.as_str()), (LoadFor::Retry, "Page"));
    assert!(matches!(app.loaded(l, loaded(&["Page"], "page"), None), Request::Nothing));
    assert_eq!(app.tabs.active().unwrap().selected_layout.as_deref(), Some("Page"));
}

#[test]
fn clicking_the_tree_opens_files_and_selects_folders() {
    let (mut app, parts) = app(&["App"]);
    let r = click(&mut app, parts.file_row);
    answer(&mut app, r, &["App"]);
    assert_eq!(app.tabs.active().unwrap().path.text(), "/p/main.nowui");
    app.selected_dir = path("/elsewhere");
    // Right of the triangle, the row itself is clicked.
    click(&mut app, parts.file_row);
    place(&mut app, parts.file_row, (-50, -50, 1, 1));
    place(&mut app, parts.root_row, (-20, 0, 60, 10));
    app.window_event(Event::LeftPress);
    assert_eq!(app.selected_dir.text(), "/p");
}

#[test]
fn clicking_a_folders_disclosure_triangle_toggles_collapsed_without_opening_or_selecting_it() {
    let (mut app, parts) = app(&["App"]);
    let collapsed = |app: &DesignerApp<Px>| matches!(app.chrome.ui.get(parts.root_row).kind, NodeKind::TreeViewItem { collapsed: true, .. });
    app.selected_dir = path("/elsewhere");
    click(&mut app, parts.root_row);
    assert!(collapsed(&app));
    click(&mut app, parts.root_row);
    assert!(!collapsed(&app));
    assert_eq!((app.tabs.len(), app.selected_dir.text().as_str()), (1, "/elsewhere"));
}

#[test]
fn clone_for_render_replaces_a_collapsed_subtrees_content_with_a_cheap_placeholder() {
    let (mut app, parts) = app(&["App"]);
    assert!(matches!(clone_for_render(&app.chrome.ui).get(parts.file_row).kind, NodeKind::TreeViewItem { .. }));
    click(&mut app, parts.root_row);
    let copy = clone_for_render(&app.chrome.ui);
    assert!(matches!(copy.get(parts.file_row).kind, NodeKind::Container));
    assert!(matches!(copy.get(parts.root_row).kind, NodeKind::TreeViewItem { .. }));
    assert_eq!(copy.get(parts.root_row).children, vec![parts.file_row]);
    assert!(matches!(app.chrome.ui.get(parts.file_row).kind, NodeKind::TreeViewItem { .. }));
}

#[test]
fn the_active_files_row_is_highlighted() {
    let (mut app, parts) = app(&["App"]);
    app.apply_active_row_highlight();
    assert_eq!(app.chrome.ui.get(parts.file_row).style.bg, Some(Color::rgb(0x09, 0x47, 0x71)));
    assert_eq!(app.chrome.ui.get(parts.file_row).base_style.text_color, Color::white());
    let r = app.file_read(path("/p/b.nowui"), String::new());
    answer(&mut app, r, &["App"]);
    app.apply_active_row_highlight();
    assert_eq!(app.chrome.ui.get(parts.file_row).style.bg, None);
    assert_eq!(app.chrome.ui.get(parts.file_row).style.text_color, Color::rgb(0xcc, 0xcc, 0xcc));
}

#[test]
fn opening_and_picking_a_layout_dropdown_option_switches_the_preview() {
    let (mut app, parts) = app(&["App", "Alt"]);
    // Only what App leads to can be picked; here nothing uses Alt.
    assert_eq!(app.state.layout_options.len(), 1);
    assert!(matches!(click(&mut app, parts.picker), Request::Nothing));
    assert!(matches!(app.chrome.ui.get(parts.picker).kind, NodeKind::Dropdown { open: true, .. }));
    // The first row starts where the box ends.
    app.window_event(Event::CursorMoved(Point::new(Px(5), Px(12))));
    let Request::Load(l) = app.window_event(Event::LeftPress) else { panic!("a load") };
    assert_eq!((l.purpose, l.layout.as_str()), (LoadFor::Layout, "App"));
    assert!(matches!(app.chrome.ui.get(parts.picker).kind, NodeKind::Dropdown { open: false, selected: Some(0), .. }));
    app.loaded(l, loaded(&["App", "Alt"], "again"), None);
    assert_eq!(app.tabs.len(), 1);
}

#[test]
fn a_single_layout_file_leaves_the_picker_empty() {
    let (app, _) = app(&["App"]);
    assert!(app.state.layout_options.is_empty());
}

#[test]
fn close_active_tab_activates_the_previous_tab_and_reloads_the_preview() {
    let (mut app, _) = app(&["App"]);
    let r = app.file_read(path("/p/b.nowui"), "b".to_string());
    answer(&mut app, r, &["App"]);
    app.window_event(Event::ModifiersChanged { ctrl: true, shift: false });
    let r = press(&mut app, Key::Char('W'), None);
    assert!(matches!(&r, Request::Load(l) if l.path.text() == "/p/main.nowui"));
    answer(&mut app, r, &["App"]);
    assert_eq!(app.state.tabs.len(), 1);
    assert!(matches!(press(&mut app, Key::Char('w'), None), Request::Nothing));
    assert!(app.tabs.is_empty() && app.state.tabs.is_empty());
}

#[test]
fn shortcuts_save_and_detach() {
    let (mut app, _) = app(&["App"]);
    app.window_event(Event::ModifiersChanged { ctrl: true, shift: false });
    let r = press(&mut app, Key::Char('s'), None);
    assert!(matches!(&r, Request::Save { path, text } if path.text() == "/p/main.nowui" && text == "layout: App { Text `hi` }"));
    if let Some(t) = app.tabs.active_mut() {
        t.dirty = true;
    }
    app.saved(false);
    assert!(app.tabs.active().unwrap().dirty);
    app.saved(true);
    assert!(!app.tabs.active().unwrap().dirty);
    assert!(matches!(press(&mut app, Key::Char('d'), None), Request::ToggleDetach));
    assert!(app.detached);
    assert!(matches!(app.window_event(Event::PreviewCloseRequested), Request::ToggleDetach));
    assert!(!app.detached);
}

#[test]
fn typing_in_the_editor_rebuilds_the_preview() {
    let (mut app, _) = app(&["App"]);
    let editor = app.chrome.editor_node;
    click(&mut app, editor);
    assert_eq!(editor_cursor(&app), (25, None));
    let r = press(&mut app, Key::Char('x'), Some("x"));
    let Request::Load(l) = r else { panic!("a load") };
    assert_eq!(l.text.as_deref(), Some("layout: App { Text `hi` }x"));
    assert!(matches!(app.loaded(l, Loaded::Failed("bad".to_string()), None), Request::Nothing));
    assert_eq!(app.state.tabs[0].label, "● main.nowui");
    assert_eq!(shown_text(&app.doc), "hi", "the last good preview stays");
    assert!(matches!(press(&mut app, Key::ArrowLeft, None), Request::Nothing));
}

#[test]
fn selecting_a_preview_node_populates_the_inspector_and_deselecting_clears_it() {
    let (mut app, _) = app(&["App"]);
    let src = "layout: App { Text `hi` }";
    for n in 0..app.chrome.ui.nodes.len() {
        app.chrome.ui.nodes[n].computed = Rect::new(Px(-50), Px(-50), Px(1), Px(1));
    }
    for n in 0..app.doc.ui.nodes.len() {
        app.doc.ui.nodes[n].computed = Rect::new(Px(0), Px(0), Px(10), Px(10));
    }
    app.window_event(Event::CursorMoved(Point::new(Px(5), Px(5))));
    app.window_event(Event::LeftPress);
    assert_eq!(app.selected_node, Some(NodeId(0)));
    assert_eq!(editor_cursor(&app), (23, Some(14)));
    let span = span_of(src, "Text `hi`");
    let ast = vec![layout("App", vec![widget("Text", vec![style(src, "hi", "bold", "")], vec![on_binding()], vec![], span)])];
    app.refresh_inspector(Some(&ast));
    assert_eq!(app.state.inspector_kind, "Text");
    assert_eq!(app.state.inspector_fields[0].label, "bold");
    assert_eq!(app.state.inspector_fields[1].label, "{value}");
    app.window_event(Event::CursorMoved(Point::new(Px(500), Px(500))));
    app.window_event(Event::LeftPress);
    app.refresh_inspector(Some(&ast));
    assert_eq!(app.selected_node, None);
    assert!(app.state.inspector_kind.is_empty() && app.state.inspector_fields.is_empty());
}

fn on_binding() -> Binding {
    Binding { key: "value".to_string(), value: BindValue::Path(vec!["state".to_string()]), span: Span { start: 20, end: 22 } }
}

#[test]
fn clicking_an_inspector_field_then_confirming_patches_the_editor_buffer() {
    let (mut app, parts) = app(&["App"]);
    let src = "layout: App { Text `hi` }";
    app.inspector_fields = vec![
        InspectorField { label: "value".to_string(), value: "state".to_string(), span: span_of(src, "hi"), is_binding: true },
        InspectorField { label: "p".to_string(), value: "4px".to_string(), span: span_of(src, "Text"), is_binding: false },
    ];
    click(&mut app, parts.fields[1]);
    assert_eq!(app.chrome.new_item_text(), "p-[4px]");
    assert_eq!(app.state.popup_title, "Edit Value");
    assert_eq!(app.state.creating_hint, "Editing the `p` style — Enter to apply, Esc to cancel");
    app.chrome.set_new_item_text(" Label ");
    let r = press(&mut app, Key::Enter, None);
    assert!(matches!(&r, Request::Load(l) if l.text.as_deref() == Some("layout: App { Label `hi` }")));
    assert!(app.editing_field.is_none());
    // A binding keeps its key.
    app.chrome.set_editor_text(src);
    click(&mut app, parts.fields[0]);
    assert_eq!(app.chrome.new_item_text(), "state");
    app.chrome.set_new_item_text("x");
    let r = click(&mut app, parts.popup[1]);
    assert!(matches!(&r, Request::Load(l) if l.text.as_deref() == Some("layout: App { Text `value: x` }")));
    // There is no third field.
    app.start_editing_field(2);
    assert!(app.editing_field.is_none());
}

#[test]
fn confirm_new_item_creates_a_file_at_the_project_root_and_opens_it() {
    let (mut app, _) = app(&["App"]);
    app.start_creating(NewItemKind::File);
    assert_eq!(app.state.popup_title, "New File");
    assert_eq!(app.state.creating_hint, "New file in project root — Enter to create, Esc to cancel");
    assert_eq!(app.state.popup_left, "0px");
    app.chrome.set_new_item_text("Card.nowui ");
    let r = press(&mut app, Key::Enter, None);
    let Request::Write { steps, created, is_file } = r else { panic!("a write") };
    assert_eq!((steps.len(), created.text().as_str(), is_file), (2, "/p/Card.nowui", true));
    let r = app.written(created, is_file, true);
    assert!(matches!(&r, Request::Read(p) if p.text() == "/p/Card.nowui"));
    assert!(app.scan_wanted);
    app.scan_finished(None);
    let mut grown = disk();
    grown.push(file("Card.nowui"));
    let tree = app.vfs.scan(&grown, DEFAULT_MAX_DEPTH);
    app.scan_finished(Some(&tree));
    assert_eq!(app.flat_tree_paths.len(), 3);
    assert_eq!(app.flat_tree_paths[1].as_ref().unwrap().0.text(), "/p/Card.nowui");
}

#[test]
fn confirm_new_item_creates_a_folder_without_opening_a_tab() {
    let (mut app, _) = app(&["App"]);
    app.selected_dir = path("/p/widgets");
    app.start_creating(NewItemKind::Folder);
    assert_eq!(app.state.creating_hint, "New folder in widgets/ — Enter to create, Esc to cancel");
    app.chrome.set_new_item_text("deep");
    let r = app.confirm_new_item();
    let Request::Write { steps, created, is_file } = r else { panic!("a write") };
    assert_eq!((steps.len(), created.text().as_str(), is_file), (1, "/p/widgets/deep", false));
    assert!(matches!(app.written(created, is_file, true), Request::Nothing));
    assert_eq!(app.tabs.len(), 1);
}

#[test]
fn cancel_creating_discards_the_prompt_without_touching_disk() {
    let (mut app, parts) = app(&["App"]);
    app.start_creating(NewItemKind::File);
    app.chrome.set_new_item_text("x");
    assert!(matches!(click(&mut app, parts.popup[0]), Request::Nothing));
    assert!(app.creating.is_none());
    assert_eq!((app.chrome.new_item_text(), app.state.popup_left.as_str()), ("", "-9999px"));
}

#[test]
fn confirm_new_item_with_an_empty_name_creates_nothing() {
    let (mut app, _) = app(&["App"]);
    app.start_creating(NewItemKind::File);
    app.chrome.set_new_item_text("   ");
    assert!(matches!(app.confirm_new_item(), Request::Nothing));
    assert!(app.creating.is_none());
    assert!(matches!(app.confirm_new_item(), Request::Nothing), "nothing is being named");
}

#[test]
fn open_context_menu_anchors_at_the_cursor_and_close_parks_it_off_screen() {
    let (mut app, _) = app(&["App"]);
    app.window_event(Event::CursorMoved(Point::new(Px(120), Px(80))));
    app.open_context_menu(ContextMenuTarget::Root(path("/p")));
    assert_eq!((app.state.context_menu_left.as_str(), app.state.context_menu_top.as_str()), ("120px", "80px"));
    app.close_context_menu();
    assert_eq!((app.state.context_menu_left.as_str(), app.state.context_menu_top.as_str()), ("-9999px", "-9999px"));
}

#[test]
fn context_menu_target_kind_drives_which_rows_are_shown() {
    let (mut app, _) = app(&["App"]);
    let rows = |app: &DesignerApp<Px>| {
        (
            app.state.context_menu_add_h.clone(),
            app.state.context_menu_edit_h.clone(),
            app.state.context_menu_rename_label.clone(),
            app.state.context_menu_delete_label.clone(),
        )
    };
    let want = |a: &str, b: &str, c: &str, d: &str| (a.to_string(), b.to_string(), c.to_string(), d.to_string());
    app.open_context_menu(ContextMenuTarget::Folder(path("/p/w")));
    assert_eq!(rows(&app), want("32px", "32px", "Rename Folder", "Delete Folder"));
    app.open_context_menu(ContextMenuTarget::File(path("/p/f")));
    assert_eq!(rows(&app), want("0px", "32px", "Rename File", "Delete File"));
    app.open_context_menu(ContextMenuTarget::Root(path("/p")));
    assert_eq!(rows(&app), want("32px", "0px", "", ""));
    app.close_context_menu();
    assert_eq!(rows(&app), want("0px", "0px", "", ""));
}

#[test]
fn a_right_click_targets_the_row_under_the_mouse() {
    let (mut app, parts) = app(&["App"]);
    click(&mut app, parts.file_row);
    app.window_event(Event::RightPress);
    assert!(matches!(&app.context_menu, Some((ContextMenuTarget::File(p), _)) if p.text() == "/p/main.nowui"));
    place(&mut app, parts.file_row, (-50, -50, 1, 1));
    app.window_event(Event::RightPress);
    assert!(matches!(&app.context_menu, Some((ContextMenuTarget::Folder(p), _)) if p.text() == "/p"));
    place(&mut app, parts.root_row, (-50, -50, 1, 1));
    app.window_event(Event::RightPress);
    assert!(matches!(&app.context_menu, Some((ContextMenuTarget::Root(p), _)) if p.text() == "/p"));
    // Any other button closes the menu, and so does Escape.
    app.window_event(Event::OtherPress);
    assert!(app.context_menu.is_none());
    app.window_event(Event::RightPress);
    press(&mut app, Key::Escape, None);
    assert!(app.context_menu.is_none());
}

#[test]
fn context_menu_add_targets_the_menus_own_directory_and_closes_it() {
    let (mut app, _) = app(&["App"]);
    app.open_context_menu(ContextMenuTarget::Folder(path("/p/widgets")));
    app.context_menu_add(NewItemKind::File);
    assert!(app.context_menu.is_none());
    assert_eq!(app.selected_dir.text(), "/p/widgets");
    assert_eq!(app.creating, Some(NewItemKind::File));
}

#[test]
fn context_menu_add_for_a_file_target_creates_alongside_it_not_inside_it() {
    let (mut app, _) = app(&["App"]);
    app.open_context_menu(ContextMenuTarget::File(path("/p/widgets/Card.nowui")));
    app.context_menu_add(NewItemKind::Folder);
    assert_eq!(app.selected_dir.text(), "/p/widgets");
}

#[test]
fn start_renaming_prefills_the_prompt_with_the_current_name_and_confirm_asks_for_it() {
    let (mut app, parts) = app(&["App"]);
    app.open_context_menu(ContextMenuTarget::File(path("/p/main.nowui")));
    click(&mut app, parts.menu[2]);
    assert_eq!(app.chrome.new_item_text(), "main.nowui");
    assert_eq!((app.state.popup_title.as_str(), app.state.creating_hint.as_str()), ("Rename", "Renaming main.nowui"));
    app.chrome.set_new_item_text("app.nowui");
    let r = app.confirm_new_item();
    let Request::Rename { from, to } = r else { panic!("a rename") };
    assert_eq!((from.text().as_str(), to.text().as_str()), ("/p/main.nowui", "/p/app.nowui"));
    assert!(matches!(app.renamed(&from, &to, false), Request::Nothing));
    assert_eq!(app.tabs.active().unwrap().path.text(), "/p/main.nowui");
    let r = app.renamed(&from, &to, true);
    assert!(matches!(&r, Request::Load(l) if l.path.text() == "/p/app.nowui"));
    answer(&mut app, r, &["App"]);
    assert_eq!(app.state.tabs[0].label, "app.nowui");
}

#[test]
fn renaming_an_open_files_own_folder_retargets_its_tab_and_reloads_it() {
    let (mut app, _) = app(&["App"]);
    app.selected_dir = path("/p/sub");
    let r = app.renamed(&path("/p"), &path("/q"), true);
    assert!(matches!(&r, Request::Load(l) if l.path.text() == "/q/main.nowui"));
    assert_eq!(app.selected_dir.text(), "/q/sub");
}

#[test]
fn context_menu_delete_removes_the_target_and_closes_any_open_tab_under_it() {
    let (mut app, parts) = app(&["App"]);
    let r = app.file_read(path("/p/w/a.nowui"), "a".to_string());
    answer(&mut app, r, &["App"]);
    app.selected_dir = path("/p/w");
    app.open_context_menu(ContextMenuTarget::Folder(path("/p/w")));
    let r = click(&mut app, parts.menu[3]);
    let Request::Delete(p) = r else { panic!("a delete") };
    assert_eq!(p.text(), "/p/w");
    assert!(matches!(app.deleted(&p, false), Request::Nothing));
    assert_eq!(app.tabs.len(), 2);
    let r = app.deleted(&p, true);
    assert!(matches!(&r, Request::Load(l) if l.path.text() == "/p/main.nowui"));
    assert_eq!((app.tabs.len(), app.selected_dir.text().as_str()), (1, "/p"));
}

#[test]
fn the_prompt_is_for_one_thing_at_a_time() {
    let (mut app, parts) = app(&["App"]);
    app.inspector_fields =
        vec![InspectorField { label: "p".to_string(), value: String::new(), span: Span { start: 0, end: 6 }, is_binding: false }];
    click(&mut app, parts.fields[0]);
    assert!(app.editing_field.is_some());
    assert_eq!(app.chrome.new_item_text(), "p");
    app.start_creating(NewItemKind::File);
    assert!(app.editing_field.is_none() && app.creating.is_some());
    app.open_context_menu(ContextMenuTarget::Folder(path("/p")));
    app.start_renaming();
    assert!(app.creating.is_none() && app.renaming.is_some());
}

#[test]
fn the_wheel_scrolls_the_innermost_node_that_scrolls() {
    let (mut app, parts) = app(&["App"]);
    let slot = parts.slot;
    click(&mut app, slot);
    app.chrome.ui.get_mut(slot).style.scroll_y = true;
    app.chrome.ui.get_mut(slot).content_size = Size::new(Px(10), Px(100));
    app.window_event(Event::WheelLines { x: Px(0), y: Px(-1) });
    assert_eq!(app.chrome.ui.get(slot).scroll_offset.y, Px(40));
    app.window_event(Event::WheelPixels { x: Px(0), y: Px(-500) });
    assert_eq!(app.chrome.ui.get(slot).scroll_offset.y, Px(90), "no further than the content goes");
    app.window_event(Event::WheelPixels { x: Px(0), y: Px(500) });
    assert_eq!(app.chrome.ui.get(slot).scroll_offset.y, Px(0));
}

#[test]
fn other_events_are_passed_on_or_ignored() {
    let (mut app, _) = app(&["App"]);
    assert!(matches!(app.window_event(Event::CloseRequested), Request::Exit));
    assert!(matches!(app.window_event(Event::RedrawRequested), Request::Redraw));
    assert!(matches!(app.window_event(Event::PreviewRedrawRequested), Request::RedrawPreview));
    assert!(matches!(app.window_event(Event::Other), Request::Nothing));
    assert!(matches!(press(&mut app, Key::Char('x'), Some("x")), Request::Nothing), "nothing has the focus");
    assert!(matches!(app.reload_from_disk(), Request::Load(LoadRequest { purpose: LoadFor::Disk, text: None, .. })));
}

#[test]
fn what_a_rebuild_leaves_behind_is_swept() {
    let (mut chrome, parts) = window();
    let before = chrome.ui.nodes.len();
    assert!(!chrome.refresh(before));
    let orphan = button(&mut chrome.ui, "gone");
    assert!(chrome.refresh(before));
    assert!(matches!(chrome.ui.get(orphan).kind, NodeKind::Container));
    assert!(matches!(chrome.ui.get(parts.tabs[0]).kind, NodeKind::Button { .. }));
    assert!(chrome.is_ready());
}

#[test]
fn frames_are_due_sixty_times_a_second() {
    assert_eq!(next_frame(10, 11), None);
    assert_eq!(next_frame(20, 11), Some(11 + FRAME_INTERVAL));
    assert_eq!(next_frame(1_000_000_000, 11), Some(1_000_000_000 + FRAME_INTERVAL));
}

#[test]
fn a_painted_frame_outlines_the_selected_node() {
    let (mut app, _) = app(&["App"]);
    app.selected_node = Some(NodeId(0));
    let frame = app.redraw(Size::new(Px(1200), Px(800)), &METRICS);
    assert!(has_preview_slot(&app.chrome.ui) && app.chrome.is_ready());
    let mut canvas = Canvas::new();
    paint_plan(&frame, &METRICS, &mut canvas);
    let ops = canvas.into_ops();
    assert!(matches!(ops.last(), Some(PaintOp::StrokeRect { color, width: Px(2), .. }) if *color == Color::rgb(0x60, 0xa5, 0xfa)));
}

#[test]
fn a_frame_holds_the_window_and_the_docked_preview() {
    let (mut app, parts) = app(&["App"]);
    app.chrome.ui.get_mut(parts.slot).style.width = Sizing::Fixed(Px(120));
    app.chrome.ui.get_mut(parts.slot).style.height = Sizing::Fixed(Px(90));
    let frame = app.redraw(Size::new(Px(1200), Px(800)), &METRICS);
    let preview = frame.preview.expect("docked");
    assert_eq!((preview.slot.w, preview.slot.h), (Px(120), Px(90)));
    assert_eq!(preview.ui.get(preview.ui.layers[0].root).computed, preview.slot);
    assert_eq!(frame.chrome.viewport, Size::new(Px(1200), Px(800)));
    app.detached = true;
    assert!(app.redraw(Size::new(Px(1200), Px(800)), &METRICS).preview.is_none());
}

#[test]
fn a_frame_changes_nothing_but_the_layout_and_the_highlighted_row() {
    let (mut app, parts) = app(&["App"]);
    app.creating = Some(NewItemKind::File);
    app.shift = true;
    app.selected_node = Some(NodeId(0));
    let (editor, text) = (app.chrome.editor_node, app.chrome.editor_text().to_string());
    let hint = app.state.creating_hint.clone();
    let _ = app.redraw(Size::new(Px(1200), Px(800)), &METRICS);
    assert!(app.creating == Some(NewItemKind::File) && app.shift && !app.ctrl && !app.detached);
    assert_eq!((app.selected_node, app.chrome.editor_node), (Some(NodeId(0)), editor));
    assert_eq!((app.chrome.editor_text(), app.state.creating_hint.as_str()), (text.as_str(), hint.as_str()));
    assert_eq!((app.doc.entry_layout(), app.tabs.len()), ("App", 1));
    assert_eq!(app.highlighted_tree_item, Some(parts.file_row));
}

#[test]
fn effective_styles_come_from_the_base_and_the_state() {
    let mut ui: Ui<Px> = Ui::new();
    let id = ui.push(Node::new(NodeKind::Container, Style::default()));
    let free = ui.push(Node::new(NodeKind::Container, Style::default()));
    ui.add_layer(id, "main");
    ui.get_mut(id).base_style.left = Some(Px(42));
    ui.get_mut(free).base_style.left = Some(Px(42));
    ui.get_mut(id).variants.focus = Some(Style { left: Some(Px(42)), top: Some(Px(7)), ..Default::default() });
    apply_effective_styles(&mut ui);
    assert_eq!((ui.get(id).style.left, ui.get(id).style.top), (Some(Px(42)), None));
    assert_eq!(ui.get(free).style.left, None, "a node that is not shown is left alone");
    ui.focus = Some(id);
    apply_effective_styles(&mut ui);
    assert_eq!(ui.get(id).style.top, Some(Px(7)));
}

#[test]
fn a_leading_dot_is_dropped_when_a_path_is_joined() {
    assert!(path("dir").join("./x").same(&path("dir/x")));
    assert!(path("/").join("./x").same(&path("/x")));
    assert_eq!(path("dir").join(".").text(), "dir");
    assert_eq!(path("").join("./x").text(), "./x");
}

#[test]
fn a_change_is_reported_only_if_the_text_differs() {
    let (mut ui, id) = editor_ui("a\nb");
    let select = |ui: &mut Ui<Px>, from: usize, to: usize| {
        let NodeKind::TextInput { cursor, selection_anchor, .. } = &mut ui.get_mut(id).kind else { panic!() };
        (*cursor, *selection_anchor) = (to, Some(from));
    };
    select(&mut ui, 0, 1);
    assert!(!edit_text_input(&mut ui, id, Key::Char('a'), Some("a"), false));
    select(&mut ui, 1, 2);
    assert!(!edit_text_input(&mut ui, id, Key::Enter, Some("\r"), false));
    select(&mut ui, 5, 9);
    assert!(!edit_text_input(&mut ui, id, Key::Backspace, None, false));
    assert_eq!(label_of(&ui, id), "a\nb");
    select(&mut ui, 0, 1);
    assert!(edit_text_input(&mut ui, id, Key::Char('c'), Some("c"), false));
    assert_eq!(label_of(&ui, id), "c\nb");
}
