//! What holds of the project around the designer: paths, the files on disk, documents and
//! what is shown of them.

use vstd::prelude::*;
use vstd::string::*;
use crate::designer::document::{AstNode, Binding, Span, StylePair};
use crate::designer::frame::{plan_ops, FramePlan};
use crate::designer::inspector::{
    found_from, found_in_node, shown_value, widget_fields, SelectionView,
};
use crate::designer::paths::{joined_from, kept_pieces, path_join, path_of, path_text};
use crate::designer::preview::{
    def_of, defined_kinds, hierarchy, is_defined, names_of, path_below, reached, reached_below,
    span_from, uses_of,
};
use crate::designer::snapshot::{folded, folded_below, is_collapsed};
use crate::designer::virtual_fs::{
    entry_name, flush_steps, item_name, item_order, listed_entries, queued_entries, scanned,
    sorted_entries, tree_path, write_steps, DiskItem, EntryTree, PendingEntry,
};
use crate::order::{law_order_of_is_stable, order_of, str_rank};
use crate::text::{
    is_whitespace, lemma_pieces_cons, lemma_pieces_one, pieces, trimmed, trimmed_end, trimmed_start,
};
use crate::toolkit::arena::{ranked, reaches, Node, NodeId};
use crate::toolkit::canvas::Op;
use crate::toolkit::frame_laws::stands_at;
use crate::toolkit::measure::Metrics;
use crate::toolkit::num::Num;
use crate::toolkit::paint::frame_ops;

verus! {

// ---- paths ----

/// A name that can be a component of a path.
pub open spec fn is_plain_name(s: Seq<char>) -> bool {
    s.len() > 0 && !s.contains('/') && s != "."@
}

/// A plain name names what lies directly in the directory; a text that starts with a slash
/// names the same everywhere.
pub proof fn law_name_is_joined_to_its_directory(dir: Seq<Seq<char>>, name: Seq<char>)
    ensures
        is_plain_name(name) ==> path_join(dir, name) == dir.push(name),
        name.len() > 0 && name[0] == '/' ==> path_join(dir, name) == path_of(name),
{
    if is_plain_name(name) {
        lemma_pieces_one(name, '/');
        let ps = pieces(name, '/');
        assert(ps =~= seq![name]);
        assert(kept_pieces(ps, 0) =~= Seq::<Seq<char>>::empty());
        assert(kept_pieces(ps, 1) =~= seq![name]);
        assert(name.contains(name[0]));
        assert(path_of(name) =~= seq![name]);
        assert(dir + seq![name] =~= dir.push(name));
    }
}

/// A path reads back from its text: components with slashes between them, and one more in
/// front of a rooted path.
pub proof fn law_path_reads_back(parts: Seq<Seq<char>>)
    requires
        parts.len() > 0,
        forall|i: int| 0 <= i < parts.len() ==> is_plain_name(#[trigger] parts[i]),
    ensures
        path_of(path_text(parts)) == parts,
        path_of(path_text(seq!["/"@] + parts)) == seq!["/"@] + parts,
{
    reveal_strlit("/");
    let text = joined_from(parts, 0);
    lemma_joined(parts, 0);
    let ps = pieces(text, '/');
    assert(ps =~= parts.skip(0));
    assert(ps =~= parts);
    lemma_all_kept(parts, parts.len());
    assert(parts[0] != "/"@) by {
        assert("/"@.contains('/')) by {
            assert("/"@[0] == '/');
        }
    }
    assert(parts[0].len() > 0 && parts[0].contains(parts[0][0]));
    assert(text[0] == parts[0][0]);
    assert(path_text(parts) == text);
    assert(kept_pieces(ps, ps.len()) =~= parts);
    // The rooted path.
    let rooted = seq!["/"@] + parts;
    lemma_joined_shift(parts, 0);
    assert(path_text(rooted) == seq!['/'] + text);
    let none = Seq::<char>::empty();
    assert(seq!['/'] + text =~= none + seq!['/'] + text);
    lemma_pieces_cons(none, text, '/');
    let rs = pieces(seq!['/'] + text, '/');
    assert(rs =~= seq![none] + parts);
    lemma_kept_after_empty(parts, parts.len());
    assert(kept_pieces(rs, rs.len()) =~= parts);
}

proof fn lemma_joined_shift(parts: Seq<Seq<char>>, i: int)
    requires
        0 <= i <= parts.len(),
    ensures
        joined_from(seq!["/"@] + parts, i + 1) == joined_from(parts, i),
    decreases parts.len() - i,
{
    if i < parts.len() {
        lemma_joined_shift(parts, i + 1);
        assert((seq!["/"@] + parts)[i + 1] == parts[i]);
    }
}

proof fn lemma_joined(parts: Seq<Seq<char>>, i: int)
    requires
        0 <= i < parts.len(),
        forall|k: int| 0 <= k < parts.len() ==> is_plain_name(#[trigger] parts[k]),
    ensures
        pieces(joined_from(parts, i), '/') == parts.skip(i),
        joined_from(parts, i).len() >= parts[i].len(),
        forall|k: int|
            0 <= k < parts[i].len() ==> #[trigger] joined_from(parts, i)[k] == parts[i][k],
    decreases parts.len() - i,
{
    assert(is_plain_name(parts[i]));
    if i + 1 == parts.len() {
        lemma_pieces_one(parts[i], '/');
        assert(parts.skip(i) =~= seq![parts[i]]);
    } else {
        lemma_joined(parts, i + 1);
        lemma_pieces_cons(parts[i], joined_from(parts, i + 1), '/');
        assert(parts.skip(i) =~= seq![parts[i]] + parts.skip(i + 1));
    }
}

proof fn lemma_all_kept(parts: Seq<Seq<char>>, n: nat)
    requires
        n <= parts.len(),
        forall|k: int| 0 <= k < parts.len() ==> is_plain_name(#[trigger] parts[k]),
    ensures
        kept_pieces(parts, n) == parts.take(n as int),
    decreases n,
{
    if n > 0 {
        lemma_all_kept(parts, (n - 1) as nat);
        assert(is_plain_name(parts[n - 1]));
        assert(parts.take(n as int) =~= parts.take(n - 1).push(parts[n - 1]));
    } else {
        assert(parts.take(0) =~= Seq::<Seq<char>>::empty());
    }
}

proof fn lemma_kept_after_empty(parts: Seq<Seq<char>>, n: nat)
    requires
        n <= parts.len(),
        forall|k: int| 0 <= k < parts.len() ==> is_plain_name(#[trigger] parts[k]),
    ensures
        kept_pieces(seq![Seq::<char>::empty()] + parts, n + 1) == parts.take(n as int),
    decreases n,
{
    let rs = seq![Seq::<char>::empty()] + parts;
    if n > 0 {
        lemma_kept_after_empty(parts, (n - 1) as nat);
        assert(rs[n as int] == parts[n - 1]);
        assert(is_plain_name(parts[n - 1]));
        assert(parts.take(n as int) =~= parts.take(n - 1).push(parts[n - 1]));
    } else {
        assert(rs[0].len() == 0);
        assert(kept_pieces(rs, 0) =~= Seq::<Seq<char>>::empty());
        assert(kept_pieces(rs, 1) =~= parts.take(0));
    }
}

// ---- files ----

/// Everything that is queued is written, in the order of the queue: a directory is made, and
/// a file gets the content it was queued with.
pub proof fn law_queue_is_written(pending: Seq<PendingEntry>, n: nat, i: int) -> (k: int)
    requires
        0 <= i < n <= pending.len(),
    ensures
        0 <= k < flush_steps(pending, n).len(),
        k >= flush_steps(pending, i as nat).len(),
        match pending[i] {
            PendingEntry::Dir { path } => flush_steps(pending, n)[k] == (path@, None::<Seq<char>>),
            PendingEntry::File { path, initial_content } => flush_steps(pending, n)[k] == (
                path@,
                Some(initial_content@),
            ),
        },
    decreases n,
{
    let rest = flush_steps(pending, (n - 1) as nat);
    let own = write_steps(pending[n - 1]);
    assert(flush_steps(pending, n) == rest + own);
    if i < n - 1 {
        law_queue_is_written(pending, (n - 1) as nat, i)
    } else {
        let k = rest.len() + own.len() - 1;
        assert(flush_steps(pending, n)[k] == own.last());
        k
    }
}

/// Every entry that the disk lists in a directory is shown in it, under its name.
pub proof fn law_listed_entries_are_shown(
    dir: Seq<Seq<char>>,
    name: Seq<char>,
    items: Seq<DiskItem>,
    pending: Seq<PendingEntry>,
    depth: nat,
    i: int,
)
    requires
        depth > 0,
        0 <= i < items.len(),
    ensures
        ({
            let t = scanned(dir, name, items, pending, depth);
            &&& t is Dir && t->Dir_name == name && t->Dir_path == dir
            &&& exists|k: int|
                0 <= k < t->Dir_children.len() && (match items[i] {
                    DiskItem::File { name: n } => #[trigger] t->Dir_children[k]
                        == (EntryTree::File { name: n@, path: dir.push(n@) }),
                    DiskItem::Dir { name: n, items: inner } => tree_path(t->Dir_children[k])
                        == dir.push(n@),
                })
        }),
{
    let t = scanned(dir, name, items, pending, depth);
    let first = listed_entries(dir, items, pending, depth);
    let more = queued_entries(dir, items, pending, depth, pending.len());
    let all = first + more;
    let keys = items.map_values(
        |d: DiskItem| str_rank(item_name(d)),
    );
    law_order_of_is_stable(keys, items.len());
    let o = item_order(items);
    assert(o.contains(i));
    let j = o.index_of(i);
    let e = first[j];
    assert(all[j] == e);
    let ekeys = all.map_values(|e: EntryTree| str_rank(entry_name(e)));
    law_order_of_is_stable(ekeys, all.len());
    let eo = order_of(ekeys, all.len());
    assert(eo.contains(j));
    let k = eo.index_of(j);
    assert(sorted_entries(all)[k] == all[eo[k]]);
    assert(t->Dir_children[k] == e);
    match items[i] {
        DiskItem::File { name: n } => {},
        DiskItem::Dir { name: n, items: inner } => {
            assert(tree_path(e) == dir.push(n@));
        },
    }
}

// ---- documents ----

/// The names of a document's layouts, in the order in which they are defined, and no others.
pub proof fn law_layouts_are_named(ast: Seq<AstNode>, n: nat, name: Seq<char>)
    requires
        n <= ast.len(),
    ensures
        names_of(ast, n).contains(name) <==> exists|i: int|
            0 <= i < n && (#[trigger] ast[i] matches AstNode::LayoutDef { name: d, .. } && d@
                == name),
    decreases n,
{
    let all = names_of(ast, n);
    if n > 0 {
        let rest = names_of(ast, (n - 1) as nat);
        law_layouts_are_named(ast, (n - 1) as nat, name);
        if all.contains(name) && !rest.contains(name) {
            let k = all.index_of(name);
            if k < rest.len() {
                assert(rest[k] == name);
            }
            assert(ast[n - 1] matches AstNode::LayoutDef { name: d, .. } && d@ == name);
        }
        if rest.contains(name) {
            let k = rest.index_of(name);
            assert(all[k] == name);
        }
        if ast[n - 1] matches AstNode::LayoutDef { name: d, .. } && d@ == name {
            assert(all[all.len() - 1] == name);
        }
    }
}

/// Of several definitions of a layout the last one counts.
pub proof fn law_last_definition_counts(ast: Seq<AstNode>, name: Seq<char>, n: nat)
    requires
        n <= ast.len(),
    ensures
        match def_of(ast, name, n) {
            Some(k) => {
                &&& 0 <= k < n
                &&& ast[k] matches AstNode::LayoutDef { name: d, .. } && d@ == name
                &&& forall|j: int|
                    k < j < n ==> !(#[trigger] ast[j] matches AstNode::LayoutDef { name: d, .. }
                        && d@ == name)
            },
            None => forall|j: int|
                0 <= j < n ==> !(#[trigger] ast[j] matches AstNode::LayoutDef { name: d, .. } && d@
                    == name),
        },
    decreases n,
{
    if n > 0 {
        law_last_definition_counts(ast, name, (n - 1) as nat);
    }
}

/// A layout uses each defined layout that a widget in it is named by, once, and no other.
pub proof fn law_used_layouts_are_defined(
    ast: Seq<AstNode>,
    kinds: Seq<Seq<char>>,
    n: nat,
    name: Seq<char>,
)
    requires
        n <= kinds.len(),
    ensures
        defined_kinds(ast, kinds, n).no_duplicates(),
        defined_kinds(ast, kinds, n).contains(name) <==> is_defined(ast, name) && exists|i: int|
            0 <= i < n && #[trigger] kinds[i] == name,
    decreases n,
{
    let all = defined_kinds(ast, kinds, n);
    if n > 0 {
        let rest = defined_kinds(ast, kinds, (n - 1) as nat);
        law_used_layouts_are_defined(ast, kinds, (n - 1) as nat, name);
        law_used_layouts_are_defined(ast, kinds, (n - 1) as nat, kinds[n - 1]);
        if all.contains(name) && !rest.contains(name) {
            let k = all.index_of(name);
            if k < rest.len() {
                assert(rest[k] == name);
            }
            assert(kinds[n - 1] == name);
        }
        if rest.contains(name) {
            assert(all[rest.index_of(name)] == name);
        }
        if kinds[n - 1] == name && is_defined(ast, name) && !rest.contains(name) {
            assert(all[all.len() - 1] == name);
        }
    }
}

/// The hierarchy of a layout starts with the layout itself, and lists each layout that it
/// uses, behind an arrow.
pub proof fn law_hierarchy_lists_used_layouts(ast: Seq<AstNode>, root: Seq<char>, i: int)
    requires
        is_defined(ast, root),
        0 <= i < uses_of(ast, root).len(),
    ensures
        ({
            let all = hierarchy(ast, root);
            let used = uses_of(ast, root)[i];
            &&& all.len() > 0 && all[0] == (root, root)
            &&& all.contains((root + " > "@ + used, used))
        }),
{
    let all = hierarchy(ast, root);
    let uses = uses_of(ast, root);
    law_last_definition_counts(ast, root, ast.len());
    assert(ast.len() > 0);
    let on_path = Seq::<Seq<char>>::empty();
    assert(!on_path.contains(root));
    let below = reached_below(
        ast,
        uses,
        root,
        on_path.push(root),
        (ast.len() - 1) as nat,
        uses.len(),
    );
    assert(all == seq![(root, root)] + below);
    lemma_use_is_reached(
        ast,
        uses,
        root,
        on_path.push(root),
        (ast.len() - 1) as nat,
        uses.len(),
        i,
    );
    let x = (root + " > "@ + uses[i], uses[i]);
    assert(below.contains(x));
    assert(all[1 + below.index_of(x)] == x);
}

proof fn lemma_use_is_reached(
    ast: Seq<AstNode>,
    uses: Seq<Seq<char>>,
    path: Seq<char>,
    on_path: Seq<Seq<char>>,
    depth: nat,
    n: nat,
    i: int,
)
    requires
        0 <= i < n <= uses.len(),
    ensures
        reached_below(ast, uses, path, on_path, depth, n).contains(
            (path + " > "@ + uses[i], uses[i]),
        ),
    decreases n,
{
    let all = reached_below(ast, uses, path, on_path, depth, n);
    let rest = reached_below(ast, uses, path, on_path, depth, (n - 1) as nat);
    let x = (path + " > "@ + uses[i], uses[i]);
    if i < n - 1 {
        lemma_use_is_reached(ast, uses, path, on_path, depth, (n - 1) as nat, i);
        assert(all[rest.index_of(x)] == x);
    } else {
        let last = reached(ast, uses[n - 1], path_below(path, uses[n - 1]), on_path, depth);
        assert(all == rest + last);
        assert(last[0] == x);
        assert(all[rest.len() as int] == x);
    }
}

/// A node of the preview stands where the first entry for it says.
pub proof fn law_span_is_the_first(spans: Seq<(NodeId, Span)>, id: NodeId, i: int)
    requires
        0 <= i <= spans.len(),
    ensures
        match span_from(spans, id, i) {
            Some(s) => exists|k: int|
                i <= k < spans.len() && #[trigger] spans[k] == (id, s) && forall|j: int|
                    i <= j < k ==> (#[trigger] spans[j]).0 != id,
            None => forall|j: int| i <= j < spans.len() ==> (#[trigger] spans[j]).0 != id,
        },
    decreases spans.len() - i,
{
    if i < spans.len() {
        law_span_is_the_first(spans, id, i + 1);
        assert(spans[i] == spans[i]);
    }
}

/// The inspector shows a widget's styles in their order, then its bindings, each under its
/// key and with what stands for it in the source.
pub proof fn law_inspector_lists_styles_and_bindings(
    styles: Seq<StylePair>,
    bindings: Seq<Binding>,
    i: int,
)
    ensures
        ({
            let all = widget_fields(styles, bindings);
            let n = styles.len() as int;
            &&& all.len() == n + bindings.len()
            &&& 0 <= i < n ==> {
                &&& all[i].label == styles[i].key@ && all[i].value == styles[i].value@
                &&& all[i].span == styles[i].span && !all[i].is_binding
            }
            &&& 0 <= i < bindings.len() ==> {
                &&& all[n + i].label == bindings[i].key@
                &&& all[n + i].value == shown_value(bindings[i].value)
                &&& all[n + i].span == bindings[i].span && all[n + i].is_binding
            }
        }),
{
}

/// What is selected is found where it stands: a widget by its own place, before what is in
/// it; else in the first of the nodes that has it.
pub proof fn law_widget_is_found_where_it_stands(nodes: Vec<AstNode>, i: int, target: Span)
    requires
        0 <= i <= nodes@.len(),
    ensures
        match found_from(nodes, i, target) {
            Some(s) => exists|k: int|
                i <= k < nodes@.len() && found_in_node(#[trigger] nodes@[k], target) == Some(s)
                    && forall|j: int|
                    i <= j < k ==> found_in_node(#[trigger] nodes@[j], target) is None,
            None => forall|j: int|
                i <= j < nodes@.len() ==> found_in_node(#[trigger] nodes@[j], target) is None,
        },
        i < nodes@.len() ==> (nodes@[i] matches AstNode::Widget {
            kind,
            styles,
            bindings,
            span,
            ..
        } ==> (span == target ==> found_from(nodes, i, target) == Some(
            SelectionView { kind: kind@, fields: widget_fields(styles@, bindings@) },
        ))),
    decreases nodes@.len() - i,
{
    if i < nodes@.len() {
        law_widget_is_found_where_it_stands(nodes, i + 1, target);
        assert(nodes@[i] == nodes@[i]);
    }
}

// ---- frames ----

/// A docked preview is drawn over the window, clipped to its place; the selected node is
/// outlined over that.
pub proof fn law_preview_is_drawn_over_the_window<N: Num, M: Metrics<N>>(
    plan: FramePlan<N>,
    m: M,
)
    ensures
        ({
            let ops = plan_ops(plan, m);
            let window = frame_ops(plan.chrome, m);
            let n = window.len() as int;
            &&& stands_at(ops, window, 0)
            &&& plan.preview is None ==> ops.len() == n
            &&& plan.preview matches Some(p) ==> {
                let shown = frame_ops(p.ui, m);
                let end = n + 1 + shown.len();
                &&& ops[n] == Op::PushClip(p.slot)
                &&& stands_at(ops, shown, n + 1)
                &&& ops[end] == Op::<N>::PopClip
                &&& p.selected is None ==> ops.len() == end + 1
                &&& p.selected matches Some(id) ==> ops.len() == end + 2 && (ops[end + 1]
                    matches Op::Stroke(r, _, _, _) && r == p.ui.nodes@[id.0 as int].computed)
            }
        }),
{
    let ops = plan_ops(plan, m);
    let window = frame_ops(plan.chrome, m);
    let n = window.len() as int;
    if let Some(p) = plan.preview {
        let shown = frame_ops(p.ui, m);
        assert forall|i: int| 0 <= i < shown.len() implies #[trigger] shown[i] == ops[n + 1 + i] by {}
    }
}

// ---- folded rows ----

/// What is below a collapsed row is folded away, and below another one what is folded away
/// in one of its rows; the row itself is not.
pub proof fn law_collapsed_row_folds_what_is_below<N>(
    nodes: Seq<Node<N>>,
    rank: spec_fn(int) -> nat,
    id: int,
    to: int,
)
    requires
        ranked(nodes, rank),
        0 <= id < nodes.len(),
    ensures
        is_collapsed(nodes[id]) && to != id && reaches(nodes, rank, id, to) ==> folded(
            nodes,
            rank,
            id,
            to,
        ),
        !is_collapsed(nodes[id]) ==> forall|k: int|
            0 <= k < nodes[id].children@.len() && folded(
                nodes,
                rank,
                (#[trigger] nodes[id].children@[k]).0 as int,
                to,
            ) ==> folded(nodes, rank, id, to),
        nodes[id].children@.len() == 0 ==> !folded(nodes, rank, id, to),
{
    if !is_collapsed(nodes[id]) {
        assert forall|k: int|
            0 <= k < nodes[id].children@.len() && folded(
                nodes,
                rank,
                (#[trigger] nodes[id].children@[k]).0 as int,
                to,
            ) implies folded(nodes, rank, id, to) by {
            lemma_folded_below(nodes, rank, id, nodes[id].children@.len(), to, k);
        }
    }
}

proof fn lemma_folded_below<N>(
    nodes: Seq<Node<N>>,
    rank: spec_fn(int) -> nat,
    id: int,
    n: nat,
    to: int,
    k: int,
)
    requires
        ranked(nodes, rank),
        0 <= id < nodes.len(),
        0 <= k < n <= nodes[id].children@.len(),
        folded(nodes, rank, nodes[id].children@[k].0 as int, to),
    ensures
        folded_below(nodes, rank, id, n, to),
    decreases n,
{
    if k < n - 1 {
        lemma_folded_below(nodes, rank, id, (n - 1) as nat, to, k);
    }
}

// ---- trimming ----

/// Trimming takes white space off both ends and nothing else.
pub proof fn law_trimming_takes_off_white_space(cs: Seq<char>)
    ensures
        ({
            let t = trimmed(cs);
            &&& t.len() > 0 ==> !is_whitespace(t[0]) && !is_whitespace(t.last())
            &&& exists|a: int, b: int|
                #![trigger cs.subrange(a, b)]
                {
                    &&& 0 <= a <= b <= cs.len()
                    &&& t == cs.subrange(a, b)
                    &&& forall|i: int| 0 <= i < a ==> is_whitespace(#[trigger] cs[i])
                    &&& forall|i: int| b <= i < cs.len() ==> is_whitespace(#[trigger] cs[i])
                }
        }),
{
    let s = trimmed_start(cs);
    let a = lemma_start(cs);
    let b = lemma_end(s);
    let t = trimmed(cs);
    assert(t =~= cs.subrange(a, a + b));
    assert forall|i: int| a + b <= i < cs.len() implies is_whitespace(#[trigger] cs[i]) by {
        assert(s[i - a] == cs[i]);
    }
    if t.len() > 0 {
        assert(t[0] == s[0]);
    }
}

proof fn lemma_start(cs: Seq<char>) -> (a: int)
    ensures
        0 <= a <= cs.len(),
        trimmed_start(cs) == cs.skip(a),
        a < cs.len() ==> !is_whitespace(cs[a]),
        forall|i: int| 0 <= i < a ==> is_whitespace(#[trigger] cs[i]),
    decreases cs.len(),
{
    if cs.len() > 0 && is_whitespace(cs[0]) {
        let rest = cs.drop_first();
        let a = lemma_start(rest);
        assert(rest.skip(a) =~= cs.skip(a + 1));
        assert forall|i: int| 0 <= i < a + 1 implies is_whitespace(#[trigger] cs[i]) by {
            if i > 0 {
                assert(rest[i - 1] == cs[i]);
            }
        }
        a + 1
    } else {
        assert(cs.skip(0) =~= cs);
        0
    }
}

proof fn lemma_end(cs: Seq<char>) -> (b: int)
    ensures
        0 <= b <= cs.len(),
        trimmed_end(cs) == cs.take(b),
        b > 0 ==> !is_whitespace(cs[b - 1]),
        forall|i: int| b <= i < cs.len() ==> is_whitespace(#[trigger] cs[i]),
    decreases cs.len(),
{
    if cs.len() > 0 && is_whitespace(cs.last()) {
        let rest = cs.drop_last();
        let b = lemma_end(rest);
        assert(rest.take(b) =~= cs.take(b));
        assert forall|i: int| b <= i < cs.len() implies is_whitespace(#[trigger] cs[i]) by {
            if i < cs.len() - 1 {
                assert(rest[i] == cs[i]);
            }
        }
        b
    } else {
        assert(cs.take(cs.len() as int) =~= cs);
        cs.len() as int
    }
}

} // verus!
