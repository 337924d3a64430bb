//! A previewed document: which layouts it has, how they use one another, and what
//! it was built into.

use vstd::prelude::*;
use vstd::string::*;
use crate::designer::document::{AstNode, Span};
use crate::designer::paths::{path_text, VPath};
use crate::text::str_eq;
use crate::toolkit::arena::{NodeId, Ui};
use crate::toolkit::canvas::{Canvas, Op};
use crate::toolkit::geometry::Rect;
use crate::toolkit::layout::{laid_out, solve_into};
use crate::toolkit::measure::Metrics;
use crate::toolkit::num::Num;
use crate::toolkit::paint::{drawable, frame_ops, paint};

verus! {

pub open spec fn texts(v: Seq<String>) -> Seq<Seq<char>> {
    v.map_values(|s: String| s@)
}

/// The names of the layouts among the first `n` nodes of a document, in order.
pub open spec fn names_of(ast: Seq<AstNode>, n: nat) -> Seq<Seq<char>>
    decreases n,
{
    if n == 0 {
        Seq::empty()
    } else {
        let rest = names_of(ast, (n - 1) as nat);
        match ast[n - 1] {
            AstNode::LayoutDef { name, .. } => rest.push(name@),
            _ => rest,
        }
    }
}

/// The names of a document's layouts, in order.
pub fn layout_names(ast: &Vec<AstNode>) -> (r: Vec<String>)
    ensures
        texts(r@) == names_of(ast@, ast@.len()),
{
    let mut out: Vec<String> = Vec::new();
    let mut i: usize = 0;
    assert(texts(out@) =~= names_of(ast@, 0));
    while i < ast.len()
        invariant
            0 <= i <= ast@.len(),
            texts(out@) == names_of(ast@, i as nat),
        decreases ast@.len() - i,
    {
        match &ast[i] {
            AstNode::LayoutDef { name, .. } => {
                let ghost before = texts(out@);
                let s: String = name.clone();
                out.push(s);
                assert(texts(out@) =~= before.push(name@));
            },
            _ => {},
        }
        i = i + 1;
    }
    out
}

/// The kinds of the widgets in `n`, outside before inside.
pub open spec fn kinds_in_node(n: AstNode) -> Seq<Seq<char>>
    decreases n, 0int,
{
    match n {
        AstNode::Widget { kind, styles, bindings, children, span } => seq![kind@] + kinds_from(
            children,
            0,
        ),
        AstNode::If { branches, else_branch } => kinds_in_branches(branches, 0) + kinds_from(
            else_branch,
            0,
        ),
        AstNode::For { body } => kinds_from(body, 0),
        AstNode::LayoutDef { name, children } => Seq::empty(),
        AstNode::Import { path } => Seq::empty(),
    }
}

/// The kinds of the widgets in the nodes from `i` on.
pub open spec fn kinds_from(nodes: Vec<AstNode>, i: int) -> Seq<Seq<char>>
    decreases nodes, nodes@.len() - i,
{
    if 0 <= i < nodes@.len() {
        kinds_in_node(nodes@[i]) + kinds_from(nodes, i + 1)
    } else {
        Seq::empty()
    }
}

pub open spec fn kinds_in_branches(branches: Vec<Vec<AstNode>>, i: int) -> Seq<Seq<char>>
    decreases branches, branches@.len() - i,
{
    if 0 <= i < branches@.len() {
        kinds_from(branches@[i], 0) + kinds_in_branches(branches, i + 1)
    } else {
        Seq::empty()
    }
}

fn node_kinds(node: &AstNode, out: &mut Vec<String>)
    ensures
        texts(final(out)@) == texts(old(out)@) + kinds_in_node(*node),
    decreases node, 0int,
{
    let ghost start = texts(out@);
    match node {
        AstNode::Widget { kind, styles: _, bindings: _, children, span: _ } => {
            let s: String = kind.clone();
            out.push(s);
            assert(texts(out@) =~= start + seq![kind@]);
            widget_kinds(children, out);
            assert(texts(out@) =~= start + kinds_in_node(*node));
        },
        AstNode::If { branches, else_branch } => {
            let mut i: usize = 0;
            let ghost all = kinds_in_branches(*branches, 0);
            assert(texts(out@) + all =~= start + all);
            while i < branches.len()
                invariant
                    0 <= i <= branches@.len(),
                    decreases_to!(node => branches),
                    texts(out@) + kinds_in_branches(*branches, i as int) == start + all,
                decreases branches@.len() - i,
            {
                let ghost before = texts(out@);
                widget_kinds(&branches[i], out);
                i = i + 1;
                assert(texts(out@) + kinds_in_branches(*branches, i as int) =~= before
                    + kinds_in_branches(*branches, i - 1));
            }
            assert(texts(out@) + kinds_in_branches(*branches, i as int) =~= texts(out@));
            widget_kinds(else_branch, out);
            assert(texts(out@) =~= start + kinds_in_node(*node));
        },
        AstNode::For { body } => {
            widget_kinds(body, out);
        },
        AstNode::LayoutDef { .. } => {
            assert(texts(out@) =~= start + kinds_in_node(*node));
        },
        AstNode::Import { .. } => {
            assert(texts(out@) =~= start + kinds_in_node(*node));
        },
    }
}

/// Appends the kinds of all widgets in `nodes`.
fn widget_kinds(nodes: &Vec<AstNode>, out: &mut Vec<String>)
    ensures
        texts(final(out)@) == texts(old(out)@) + kinds_from(*nodes, 0),
    decreases nodes, 0int,
{
    let ghost start = texts(out@);
    let ghost all = kinds_from(*nodes, 0);
    let mut i: usize = 0;
    while i < nodes.len()
        invariant
            0 <= i <= nodes@.len(),
            texts(out@) + kinds_from(*nodes, i as int) == start + all,
        decreases nodes@.len() - i,
    {
        let ghost before = texts(out@);
        node_kinds(&nodes[i], out);
        i = i + 1;
        assert(texts(out@) + kinds_from(*nodes, i as int) =~= before + kinds_from(*nodes, i - 1));
    }
    assert(texts(out@) + kinds_from(*nodes, i as int) =~= texts(out@));
}

/// `n` defines the layout `name`.
pub open spec fn defines(n: AstNode, name: Seq<char>) -> bool {
    match n {
        AstNode::LayoutDef { name: d, .. } => d@ == name,
        _ => false,
    }
}

/// Which of the first `n` nodes defines the layout `name`; the last one counts.
pub open spec fn def_of(ast: Seq<AstNode>, name: Seq<char>, n: nat) -> Option<int>
    decreases n,
{
    if n == 0 {
        None
    } else if defines(ast[n - 1], name) {
        Some(n - 1)
    } else {
        def_of(ast, name, (n - 1) as nat)
    }
}

pub open spec fn is_defined(ast: Seq<AstNode>, name: Seq<char>) -> bool {
    def_of(ast, name, ast.len()) is Some
}

/// The first occurrences, among the first `n` kinds, of layouts that the document
/// defines.
pub open spec fn defined_kinds(ast: Seq<AstNode>, kinds: Seq<Seq<char>>, n: nat) -> Seq<Seq<char>>
    decreases n,
{
    if n == 0 {
        Seq::empty()
    } else {
        let rest = defined_kinds(ast, kinds, (n - 1) as nat);
        if is_defined(ast, kinds[n - 1]) && !rest.contains(kinds[n - 1]) {
            rest.push(kinds[n - 1])
        } else {
            rest
        }
    }
}

/// The layouts that layout `name` uses, each once, in order.
pub open spec fn uses_of(ast: Seq<AstNode>, name: Seq<char>) -> Seq<Seq<char>> {
    match def_of(ast, name, ast.len()) {
        Some(i) => match ast[i] {
            AstNode::LayoutDef { name: _, children } => {
                let kinds = kinds_from(children, 0);
                defined_kinds(ast, kinds, kinds.len())
            },
            _ => Seq::empty(),
        },
        None => Seq::empty(),
    }
}

/// The path to a layout that the layout at `path` uses.
pub open spec fn path_below(path: Seq<char>, name: Seq<char>) -> Seq<char> {
    path + " > "@ + name
}

/// The layouts reached from `name` at `path`, with the path to each, down to
/// `depth` uses; a layout that is already on the way is listed but not followed.
pub open spec fn reached(
    ast: Seq<AstNode>,
    name: Seq<char>,
    path: Seq<char>,
    on_path: Seq<Seq<char>>,
    depth: nat,
) -> Seq<(Seq<char>, Seq<char>)>
    decreases depth, 0nat,
{
    if on_path.contains(name) || depth == 0 {
        seq![(path, name)]
    } else {
        seq![(path, name)] + reached_below(
            ast,
            uses_of(ast, name),
            path,
            on_path.push(name),
            (depth - 1) as nat,
            uses_of(ast, name).len(),
        )
    }
}

/// The layouts reached from the first `n` of `uses`.
pub open spec fn reached_below(
    ast: Seq<AstNode>,
    uses: Seq<Seq<char>>,
    path: Seq<char>,
    on_path: Seq<Seq<char>>,
    depth: nat,
    n: nat,
) -> Seq<(Seq<char>, Seq<char>)>
    decreases depth, n,
{
    if n == 0 {
        Seq::empty()
    } else {
        reached_below(ast, uses, path, on_path, depth, (n - 1) as nat) + reached(
            ast,
            uses[n - 1],
            path_below(path, uses[n - 1]),
            on_path,
            depth,
        )
    }
}

/// The layouts of a document that can be reached from `root`, each with its path.
pub open spec fn hierarchy(ast: Seq<AstNode>, root: Seq<char>) -> Seq<(Seq<char>, Seq<char>)> {
    if is_defined(ast, root) {
        reached(ast, root, root, Seq::empty(), ast.len())
    } else {
        Seq::empty()
    }
}

pub open spec fn pairs(v: Seq<(String, String)>) -> Seq<(Seq<char>, Seq<char>)> {
    v.map_values(|p: (String, String)| (p.0@, p.1@))
}

fn find_def(ast: &Vec<AstNode>, name: &str) -> (r: Option<usize>)
    ensures
        match r {
            Some(i) => i < ast@.len() && def_of(ast@, name@, ast@.len()) == Some(i as int)
                && ast@[i as int] is LayoutDef,
            None => def_of(ast@, name@, ast@.len()) is None,
        },
{
    let mut n: usize = ast.len();
    while n > 0
        invariant
            0 <= n <= ast@.len(),
            def_of(ast@, name@, n as nat) == def_of(ast@, name@, ast@.len()),
        decreases n,
    {
        match &ast[n - 1] {
            AstNode::LayoutDef { name: d, .. } => {
                if str_eq(d.as_str(), name) {
                    return Some(n - 1);
                }
            },
            _ => {},
        }
        n = n - 1;
    }
    None
}

fn holds(v: &Vec<String>, s: &str) -> (r: bool)
    ensures
        r == texts(v@).contains(s@),
{
    let ghost views = texts(v@);
    let mut i: usize = 0;
    while i < v.len()
        invariant
            0 <= i <= v@.len(),
            views == texts(v@),
            forall|k: int| 0 <= k < i ==> #[trigger] views[k] != s@,
        decreases v@.len() - i,
    {
        assert(views[i as int] == v@[i as int]@);
        if str_eq(v[i].as_str(), s) {
            return true;
        }
        i = i + 1;
    }
    false
}

/// The layouts that layout `name` uses.
fn used_layouts(ast: &Vec<AstNode>, name: &str) -> (r: Vec<String>)
    ensures
        texts(r@) == uses_of(ast@, name@),
{
    let mut out: Vec<String> = Vec::new();
    assert(texts(out@) =~= Seq::empty());
    match find_def(ast, name) {
        Some(at) => match &ast[at] {
            AstNode::LayoutDef { name: _, children } => {
                let mut kinds: Vec<String> = Vec::new();
                assert(texts(kinds@) =~= Seq::empty());
                widget_kinds(children, &mut kinds);
                let ghost all = kinds_from(*children, 0);
                assert(texts(kinds@) =~= all);
                let mut i: usize = 0;
                while i < kinds.len()
                    invariant
                        0 <= i <= kinds@.len(),
                        texts(kinds@) == all,
                        texts(out@) == defined_kinds(ast@, all, i as nat),
                    decreases kinds@.len() - i,
                {
                    assert(all[i as int] == kinds@[i as int]@);
                    let kind: &str = kinds[i].as_str();
                    if find_def(ast, kind).is_some() && !holds(&out, kind) {
                        let ghost before = texts(out@);
                        out.push(kind.to_owned());
                        assert(texts(out@) =~= before.push(all[i as int]));
                    }
                    i = i + 1;
                }
            },
            _ => {},
        },
        None => {},
    }
    out
}

/// Distinct layouts of a document are no more than its nodes.
proof fn lemma_distinct_layouts(ast: Seq<AstNode>, names: Seq<Seq<char>>)
    requires
        names.no_duplicates(),
        forall|i: int| 0 <= i < names.len() ==> is_defined(ast, #[trigger] names[i]),
    ensures
        names.len() <= ast.len(),
{
    let at = Seq::new(names.len(), |i: int| def_of(ast, names[i], ast.len())->0);
    assert forall|i: int| 0 <= i < at.len() implies 0 <= #[trigger] at[i] < ast.len()
        && defines(ast[at[i]], names[i]) by {
        assert(is_defined(ast, names[i]));
        lemma_def_of(ast, names[i], ast.len());
    }
    assert forall|i: int, j: int| 0 <= i < at.len() && 0 <= j < at.len() && i != j implies at[i]
        != at[j] by {
        if at[i] == at[j] {
            assert(names[i] == names[j]);
        }
    }
    assert(at.no_duplicates());
    at.unique_seq_to_set();
    vstd::set_lib::lemma_int_range(0, ast.len() as int);
    let range = vstd::set_lib::set_int_range(0, ast.len() as int);
    assert(at.to_set().subset_of(range));
    vstd::set_lib::lemma_len_subset(at.to_set(), range);
}

proof fn lemma_def_of(ast: Seq<AstNode>, name: Seq<char>, n: nat)
    requires
        n <= ast.len(),
    ensures
        def_of(ast, name, n) matches Some(i) ==> 0 <= i < n && defines(ast[i], name),
    decreases n,
{
    if n > 0 {
        lemma_def_of(ast, name, (n - 1) as nat);
    }
}

proof fn lemma_uses_are_defined(ast: Seq<AstNode>, kinds: Seq<Seq<char>>, n: nat)
    requires
        n <= kinds.len(),
    ensures
        forall|i: int|
            0 <= i < defined_kinds(ast, kinds, n).len() ==> is_defined(
                ast,
                #[trigger] defined_kinds(ast, kinds, n)[i],
            ),
    decreases n,
{
    if n > 0 {
        lemma_uses_are_defined(ast, kinds, (n - 1) as nat);
        let rest = defined_kinds(ast, kinds, (n - 1) as nat);
        let all = defined_kinds(ast, kinds, n);
        assert forall|i: int| 0 <= i < all.len() implies is_defined(ast, #[trigger] all[i]) by {
            if i < rest.len() {
                assert(all[i] == rest[i]);
            }
        }
    }
}

/// The layouts on the way to a layout: distinct ones, all defined.
pub open spec fn is_way(ast: Seq<AstNode>, on_path: Seq<Seq<char>>) -> bool {
    &&& on_path.no_duplicates()
    &&& forall|i: int| 0 <= i < on_path.len() ==> is_defined(ast, #[trigger] on_path[i])
}

proof fn lemma_way_grows(ast: Seq<AstNode>, on_path: Seq<Seq<char>>, name: Seq<char>)
    requires
        is_way(ast, on_path),
        is_defined(ast, name),
        !on_path.contains(name),
    ensures
        is_way(ast, on_path.push(name)),
        on_path.len() < ast.len(),
{
    let longer = on_path.push(name);
    assert(longer.no_duplicates());
    lemma_distinct_layouts(ast, longer);
}

fn walk(
    ast: &Vec<AstNode>,
    name: &str,
    path: &str,
    on_path: &mut Vec<String>,
    out: &mut Vec<(String, String)>,
)
    requires
        is_way(ast@, texts(old(on_path)@)),
        is_defined(ast@, name@),
    ensures
        texts(final(on_path)@) == texts(old(on_path)@),
        pairs(final(out)@) == pairs(old(out)@) + reached(
            ast@,
            name@,
            path@,
            texts(old(on_path)@),
            (ast@.len() - old(on_path)@.len()) as nat,
        ),
    decreases ast@.len() - old(on_path)@.len(),
{
    let ghost way = texts(on_path@);
    let ghost start = pairs(out@);
    let ghost depth = (ast@.len() - on_path@.len()) as nat;
    proof {
        lemma_distinct_layouts(ast@, way);
    }
    out.push((path.to_owned(), name.to_owned()));
    assert(pairs(out@) =~= start.push((path@, name@)));
    assert(start.push((path@, name@)) =~= start + seq![(path@, name@)]);
    if holds(on_path, name) {
        return ;
    }
    proof {
        lemma_way_grows(ast@, way, name@);
    }
    let ghost first = pairs(out@);
    on_path.push(name.to_owned());
    assert(texts(on_path@) =~= way.push(name@));
    let uses: Vec<String> = used_layouts(ast, name);
    let ghost all = uses_of(ast@, name@);
    let ghost longer = way.push(name@);
    let ghost below = (depth - 1) as nat;
    proof {
        match def_of(ast@, name@, ast@.len()) {
            Some(i) => {
                lemma_def_of(ast@, name@, ast@.len());
                match ast@[i] {
                    AstNode::LayoutDef { name: _, children } => {
                        let kinds = kinds_from(children, 0);
                        lemma_uses_are_defined(ast@, kinds, kinds.len());
                    },
                    _ => {},
                }
            },
            None => {},
        }
    }
    let mut i: usize = 0;
    assert(first + reached_below(ast@, all, path@, longer, below, 0) =~= first);
    while i < uses.len()
        invariant
            0 <= i <= uses@.len(),
            texts(uses@) == all,
            texts(on_path@) == longer,
            on_path@.len() == old(on_path)@.len() + 1,
            on_path@.len() <= ast@.len(),
            below == ast@.len() - on_path@.len(),
            is_way(ast@, longer),
            forall|k: int| 0 <= k < all.len() ==> is_defined(ast@, #[trigger] all[k]),
            pairs(out@) == first + reached_below(ast@, all, path@, longer, below, i as nat),
        decreases uses@.len() - i,
    {
        let kind: &str = uses[i].as_str();
        assert(all[i as int] == kind@);
        let mut inner: String = path.to_owned();
        inner.append(" > ");
        inner.append(kind);
        let ghost len = on_path@.len();
        walk(ast, kind, inner.as_str(), on_path, out);
        assert(on_path@.len() == texts(on_path@).len());
        i = i + 1;
        assert(pairs(out@) =~= first + reached_below(ast@, all, path@, longer, below, i as nat));
    }
    assert(on_path@.len() == texts(on_path@).len());
    let ghost full = on_path@;
    let _ = on_path.pop();
    proof {
        assert forall|k: int| 0 <= k < on_path@.len() implies texts(on_path@)[k] == way[k] by {
            assert(texts(full)[k] == full[k]@);
            assert(longer[k] == way[k]);
        }
        assert(texts(on_path@) =~= way);
    }
    assert(pairs(out@) =~= start + reached(ast@, name@, path@, way, depth));
}

/// The layouts of a document that can be reached from `root`: for each the path
/// that leads to it, and its name. A layout that uses itself is listed once more
/// below itself, and not followed again.
pub fn layout_hierarchy(ast: &Vec<AstNode>, root: &str) -> (r: Vec<(String, String)>)
    ensures
        pairs(r@) == hierarchy(ast@, root@),
{
    let mut out: Vec<(String, String)> = Vec::new();
    assert(pairs(out@) =~= Seq::empty());
    if find_def(ast, root).is_some() {
        let mut on_path: Vec<String> = Vec::new();
        assert(texts(on_path@) =~= Seq::empty());
        walk(ast, root, root, &mut on_path, &mut out);
        assert(pairs(out@) =~= hierarchy(ast@, root@));
    }
    out
}

/// What became of loading and building a document: a failure in words, or its
/// nodes, together with what the asked-for layout was built into, if there is
/// such a layout.
pub enum Loaded<N> {
    Failed(String),
    Document { ast: Vec<AstNode>, built: Option<(Ui<N>, Vec<(NodeId, Span)>)> },
}

/// A previewed document.
pub struct PreviewDoc<N> {
    pub entry_path: VPath,
    pub ui: Ui<N>,
    /// Which layout is previewed.
    pub entry_layout: String,
    pub layout_names: Vec<String>,
    /// The layouts reached from the first one: the path to each, and its name.
    pub layout_hierarchy: Vec<(String, String)>,
    /// Where each node of `ui` stands in the source.
    pub node_spans: Vec<(NodeId, Span)>,
}

/// What is said of a document that lacks the previewed layout.
pub open spec fn no_layout_text(layout: Seq<char>, path: Seq<Seq<char>>) -> Seq<char> {
    "no `layout: "@ + layout + "` found in `"@ + path_text(path) + "`"@
}

fn no_layout_message(layout: &str, path: &VPath) -> (r: String)
    ensures
        r@ == no_layout_text(layout@, path@),
{
    let mut out: String = "no `layout: ".to_owned();
    out.append(layout);
    out.append("` found in `");
    out.append(path.text().as_str());
    out.append("`");
    out
}

/// The hierarchy below the first of the document's layouts.
pub open spec fn document_hierarchy(ast: Seq<AstNode>) -> Seq<(Seq<char>, Seq<char>)> {
    let names = names_of(ast, ast.len());
    if names.len() == 0 {
        Seq::empty()
    } else {
        hierarchy(ast, names[0])
    }
}

/// Where node `id` stands, by the list `spans` from `i` on.
pub open spec fn span_from(spans: Seq<(NodeId, Span)>, id: NodeId, i: int) -> Option<Span>
    decreases spans.len() - i,
{
    if 0 <= i < spans.len() {
        if spans[i].0 == id {
            Some(spans[i].1)
        } else {
            span_from(spans, id, i + 1)
        }
    } else {
        None
    }
}

impl<N: Num> PreviewDoc<N> {
    /// `self` shows what was built from the document `ast`.
    pub open spec fn shows(
        &self,
        ast: Seq<AstNode>,
        ui: Ui<N>,
        spans: Vec<(NodeId, Span)>,
    ) -> bool {
        &&& self.ui == ui
        &&& self.node_spans == spans
        &&& texts(self.layout_names@) == names_of(ast, ast.len())
        &&& pairs(self.layout_hierarchy@) == document_hierarchy(ast)
    }

    /// What reloading makes of `before`: the new document, or, if it could not be
    /// loaded or lacks the layout, the last good one as it was.
    pub open spec fn reloaded(
        before: PreviewDoc<N>,
        loaded: Loaded<N>,
        after: PreviewDoc<N>,
        r: Result<(), String>,
    ) -> bool {
        &&& after.entry_path == before.entry_path
        &&& after.entry_layout == before.entry_layout
        &&& match loaded {
            Loaded::Failed(e) => r == Err::<(), String>(e) && after == before,
            Loaded::Document { ast, built } => match built {
                Some((ui, spans)) => r is Ok && after.shows(ast@, ui, spans),
                None => after == before && r is Err && r->Err_0@ == no_layout_text(
                    before.entry_layout@,
                    before.entry_path@,
                ),
            },
        }
    }

    /// A document at `entry_path`, of which the layout `entry_layout` is
    /// previewed.
    pub fn load(entry_path: VPath, entry_layout: &str, loaded: Loaded<N>) -> (r: Result<
        PreviewDoc<N>,
        String,
    >)
        ensures
            match loaded {
                Loaded::Failed(e) => r == Err::<PreviewDoc<N>, String>(e),
                Loaded::Document { ast, built } => match built {
                    Some((ui, spans)) => r is Ok && r->Ok_0.shows(ast@, ui, spans)
                        && r->Ok_0.entry_path == entry_path && r->Ok_0.entry_layout@
                        == entry_layout@,
                    None => r is Err && r->Err_0@ == no_layout_text(entry_layout@, entry_path@),
                },
            },
    {
        let mut doc: PreviewDoc<N> = PreviewDoc {
            entry_path,
            ui: Ui::new(),
            entry_layout: entry_layout.to_owned(),
            layout_names: Vec::new(),
            layout_hierarchy: Vec::new(),
            node_spans: Vec::new(),
        };
        match doc.reload_with_overrides(loaded) {
            Ok(()) => Ok(doc),
            Err(e) => Err(e),
        }
    }

    /// Shows the document as it was loaded again. If that failed, or it lacks the
    /// previewed layout, the last good one stays.
    pub fn reload_with_overrides(&mut self, loaded: Loaded<N>) -> (r: Result<(), String>)
        ensures
            PreviewDoc::reloaded(*old(self), loaded, *final(self), r),
    {
        match loaded {
            Loaded::Failed(e) => Err(e),
            Loaded::Document { ast, built } => match built {
                None => Err(no_layout_message(self.entry_layout.as_str(), &self.entry_path)),
                Some((ui, spans)) => {
                    let names: Vec<String> = layout_names(&ast);
                    let tree: Vec<(String, String)> = if names.len() > 0 {
                        assert(texts(names@)[0] == names@[0]@);
                        layout_hierarchy(&ast, names[0].as_str())
                    } else {
                        Vec::new()
                    };
                    assert(pairs(tree@) =~= document_hierarchy(ast@));
                    self.layout_names = names;
                    self.layout_hierarchy = tree;
                    self.ui = ui;
                    self.node_spans = spans;
                    Ok(())
                },
            },
        }
    }

    /// Points the preview at another file and layout, which were loaded with the
    /// given result.
    pub fn switch_entry(&mut self, entry_path: VPath, entry_layout: &str, loaded: Loaded<N>) -> (r:
        Result<(), String>)
        ensures
            final(self).entry_path == entry_path,
            final(self).entry_layout@ == entry_layout@,
            exists|mid: PreviewDoc<N>|
                #![trigger PreviewDoc::reloaded(mid, loaded, *final(self), r)]
                PreviewDoc::reloaded(mid, loaded, *final(self), r) && mid == (PreviewDoc {
                    entry_path: mid.entry_path,
                    entry_layout: mid.entry_layout,
                    ..*old(self)
                }),
    {
        self.entry_path = entry_path;
        self.entry_layout = entry_layout.to_owned();
        let ghost mid = *self;
        let r: Result<(), String> = self.reload_with_overrides(loaded);
        assert(PreviewDoc::reloaded(mid, loaded, *self, r));
        r
    }

    /// Previews another layout of the same file, which was loaded with the given
    /// result.
    pub fn set_entry_layout(&mut self, name: &str, loaded: Loaded<N>) -> (r: Result<(), String>)
        ensures
            final(self).entry_path == old(self).entry_path,
            final(self).entry_layout@ == name@,
            exists|mid: PreviewDoc<N>|
                #![trigger PreviewDoc::reloaded(mid, loaded, *final(self), r)]
                PreviewDoc::reloaded(mid, loaded, *final(self), r) && mid == (PreviewDoc {
                    entry_layout: mid.entry_layout,
                    ..*old(self)
                }),
    {
        self.entry_layout = name.to_owned();
        let ghost mid = *self;
        let r: Result<(), String> = self.reload_with_overrides(loaded);
        assert(PreviewDoc::reloaded(mid, loaded, *self, r));
        r
    }

    pub fn entry_layout(&self) -> (r: &str)
        ensures
            r@ == self.entry_layout@,
    {
        self.entry_layout.as_str()
    }

    /// Where node `id` of the preview stands in the source.
    pub fn node_span(&self, id: NodeId) -> (r: Option<Span>)
        ensures
            r == span_from(self.node_spans@, id, 0),
    {
        let mut i: usize = 0;
        while i < self.node_spans.len()
            invariant
                0 <= i <= self.node_spans@.len(),
                span_from(self.node_spans@, id, i as int) == span_from(self.node_spans@, id, 0),
            decreases self.node_spans@.len() - i,
        {
            if self.node_spans[i].0 == id {
                return Some(self.node_spans[i].1);
            }
            i = i + 1;
        }
        None
    }

    /// Lays the preview out in `root_rect`, and paints it there and nowhere else.
    pub fn render_into<M: Metrics<N>>(&mut self, root_rect: Rect<N>, m: &M, out: &mut Canvas<N>)
        requires
            old(self).ui.wf(),
            old(self).ui.nodes@.len() <= 0x1_0000_0000,
            drawable(old(self).ui.nodes@),
        ensures
            laid_out(old(self).ui, root_rect, *m, final(self).ui),
            final(self).ui.wf(),
            *final(self) == (PreviewDoc { ui: final(self).ui, ..*old(self) }),
            final(out).view() == old(out).view() + seq![Op::PushClip(root_rect)] + frame_ops(
                final(self).ui,
                *m,
            ) + seq![Op::PopClip],
    {
        let ghost before = out.view();
        let ghost nodes = self.ui.nodes@;
        solve_into(&mut self.ui, root_rect, m);
        proof {
            assert(drawable(self.ui.nodes@));
        }
        out.push_clip(root_rect);
        paint(&self.ui, m, out);
        out.pop_clip();
        assert(out.view() =~= before + seq![Op::PushClip(root_rect)] + frame_ops(self.ui, *m)
            + seq![Op::PopClip]);
    }
}

// ---- laws ----

/// However long layouts use one another, the way to each ends by itself: a deeper
/// search finds nothing more.
pub proof fn law_hierarchy_is_complete(
    ast: Seq<AstNode>,
    name: Seq<char>,
    path: Seq<char>,
    on_path: Seq<Seq<char>>,
    depth: nat,
)
    requires
        is_way(ast, on_path),
        is_defined(ast, name),
        depth >= ast.len() - on_path.len(),
    ensures
        reached(ast, name, path, on_path, depth) == reached(
            ast,
            name,
            path,
            on_path,
            (ast.len() - on_path.len()) as nat,
        ),
    decreases depth, 0nat,
{
    lemma_distinct_layouts(ast, on_path);
    if !on_path.contains(name) {
        lemma_way_grows(ast, on_path, name);
        let uses = uses_of(ast, name);
        match def_of(ast, name, ast.len()) {
            Some(i) => {
                lemma_def_of(ast, name, ast.len());
                match ast[i] {
                    AstNode::LayoutDef { name: _, children } => {
                        let kinds = kinds_from(children, 0);
                        lemma_uses_are_defined(ast, kinds, kinds.len());
                    },
                    _ => {},
                }
            },
            None => {},
        }
        lemma_below_is_complete(
            ast,
            uses,
            path,
            on_path.push(name),
            (depth - 1) as nat,
            uses.len(),
        );
    }
}

proof fn lemma_below_is_complete(
    ast: Seq<AstNode>,
    uses: Seq<Seq<char>>,
    path: Seq<char>,
    on_path: Seq<Seq<char>>,
    depth: nat,
    n: nat,
)
    requires
        is_way(ast, on_path),
        n <= uses.len(),
        forall|k: int| 0 <= k < uses.len() ==> is_defined(ast, #[trigger] uses[k]),
        depth >= ast.len() - on_path.len(),
        on_path.len() <= ast.len(),
    ensures
        reached_below(ast, uses, path, on_path, depth, n) == reached_below(
            ast,
            uses,
            path,
            on_path,
            (ast.len() - on_path.len()) as nat,
            n,
        ),
    decreases depth, n,
{
    if n > 0 {
        lemma_below_is_complete(ast, uses, path, on_path, depth, (n - 1) as nat);
        law_hierarchy_is_complete(
            ast,
            uses[n - 1],
            path_below(path, uses[n - 1]),
            on_path,
            depth,
        );
    }
}

} // verus!
