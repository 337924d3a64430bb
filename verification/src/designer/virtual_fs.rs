//! A project tree: what is on disk, together with files and folders that are
//! only queued for creation.
//!
//! The disk comes in as a listing; what is to be written goes out as a list of
//! steps.

use vstd::prelude::*;
use vstd::string::*;
use crate::designer::paths::{is_under, path_join, path_text, VPath};
use crate::order::{
    in_order, is_stable_order, law_order_of_is_stable, order_of, ranks, stable_order, str_rank,
};
use crate::text::str_eq;

verus! {

/// The depth to which a project tree is shown. No real project is that deep: what
/// lies below is marked as cut off, not dropped.
pub const DEFAULT_MAX_DEPTH: usize = 32;

/// What is listed in a directory on disk. A directory that cannot be read lists
/// nothing.
#[derive(Debug)]
pub enum DiskItem {
    File { name: String },
    Dir { name: String, items: Vec<DiskItem> },
}

/// An entry of the project tree.
#[derive(Debug)]
pub enum VfsEntry {
    File { name: String, path: VPath },
    Dir { name: String, path: VPath, children: Vec<VfsEntry> },
    /// There is more below `path`, but the depth limit is reached.
    Truncated { path: VPath },
}

/// The model of an entry.
pub enum EntryTree {
    File { name: Seq<char>, path: Seq<Seq<char>> },
    Dir { name: Seq<char>, path: Seq<Seq<char>>, children: Seq<EntryTree> },
    Truncated { path: Seq<Seq<char>> },
}

pub open spec fn entry_tree(e: VfsEntry) -> EntryTree
    decreases e,
{
    match e {
        VfsEntry::File { name, path } => EntryTree::File { name: name@, path: path@ },
        VfsEntry::Dir { name, path, children } => EntryTree::Dir {
            name: name@,
            path: path@,
            children: Seq::new(
                children@.len(),
                |i: int|
                    if 0 <= i < children@.len() {
                        entry_tree(children@[i])
                    } else {
                        EntryTree::Truncated { path: Seq::empty() }
                    },
            ),
        },
        VfsEntry::Truncated { path } => EntryTree::Truncated { path: path@ },
    }
}

impl View for VfsEntry {
    type V = EntryTree;

    open spec fn view(&self) -> EntryTree {
        entry_tree(*self)
    }
}

pub open spec fn entry_trees(v: Seq<VfsEntry>) -> Seq<EntryTree> {
    v.map_values(|e: VfsEntry| e@)
}

/// The name that an entry is shown and ordered by.
pub open spec fn entry_name(e: EntryTree) -> Seq<char> {
    match e {
        EntryTree::File { name, .. } => name,
        EntryTree::Dir { name, .. } => name,
        EntryTree::Truncated { .. } => "…"@,
    }
}

impl VfsEntry {
    pub fn name(&self) -> (r: &str)
        ensures
            r@ == entry_name(self@),
    {
        match self {
            VfsEntry::File { name, .. } => name.as_str(),
            VfsEntry::Dir { name, .. } => name.as_str(),
            VfsEntry::Truncated { .. } => "…",
        }
    }
}

/// A file or folder that is queued for creation.
#[derive(Debug)]
pub enum PendingEntry {
    File { path: VPath, initial_content: String },
    Dir { path: VPath },
}

pub open spec fn pending_path(e: PendingEntry) -> Seq<Seq<char>> {
    match e {
        PendingEntry::File { path, .. } => path@,
        PendingEntry::Dir { path } => path@,
    }
}

fn entry_path(e: &PendingEntry) -> (r: &VPath)
    ensures
        r@ == pending_path(*e),
{
    match e {
        PendingEntry::File { path, .. } => path,
        PendingEntry::Dir { path } => path,
    }
}

/// One step of writing the queue to disk.
#[derive(Debug)]
pub enum DiskStep {
    /// Create a directory and its parents; one that exists already is fine.
    MakeDir(VPath),
    /// Write a file.
    WriteFile(VPath, String),
}

/// The model of a step: the path, and what is written if it is a file.
pub open spec fn step_of(s: DiskStep) -> (Seq<Seq<char>>, Option<Seq<char>>) {
    match s {
        DiskStep::MakeDir(p) => (p@, None),
        DiskStep::WriteFile(p, c) => (p@, Some(c@)),
    }
}

pub open spec fn steps_of(v: Seq<DiskStep>) -> Seq<(Seq<Seq<char>>, Option<Seq<char>>)> {
    v.map_values(|s: DiskStep| step_of(s))
}

pub open spec fn has_parent(p: Seq<Seq<char>>) -> bool {
    p.len() > 0 && p != seq!["/"@]
}

/// The steps that write one queued entry: a file's directory comes before the
/// file.
pub open spec fn write_steps(e: PendingEntry) -> Seq<(Seq<Seq<char>>, Option<Seq<char>>)> {
    match e {
        PendingEntry::Dir { path } => seq![(path@, None)],
        PendingEntry::File { path, initial_content } => if has_parent(path@) {
            seq![(path@.drop_last(), None), (path@, Some(initial_content@))]
        } else {
            seq![(path@, Some(initial_content@))]
        },
    }
}

/// The steps that write the first `n` queued entries.
pub open spec fn flush_steps(pending: Seq<PendingEntry>, n: nat) -> Seq<
    (Seq<Seq<char>>, Option<Seq<char>>),
>
    decreases n,
{
    if n == 0 {
        Seq::empty()
    } else {
        flush_steps(pending, (n - 1) as nat) + write_steps(pending[n - 1])
    }
}

/// The queued entries, among the first `n`, that do not lie in `path`.
pub open spec fn kept(pending: Seq<PendingEntry>, path: Seq<Seq<char>>, n: nat) -> Seq<PendingEntry>
    decreases n,
{
    if n == 0 {
        Seq::empty()
    } else {
        let rest = kept(pending, path, (n - 1) as nat);
        if is_under(pending_path(pending[n - 1]), path) {
            rest
        } else {
            rest.push(pending[n - 1])
        }
    }
}

pub open spec fn item_name(d: DiskItem) -> Seq<char> {
    match d {
        DiskItem::File { name } => name@,
        DiskItem::Dir { name, .. } => name@,
    }
}

/// `name` is listed.
pub open spec fn listed(items: Seq<DiskItem>, name: Seq<char>) -> bool {
    exists|i: int| 0 <= i < items.len() && item_name(#[trigger] items[i]) == name
}

/// What is listed, by name.
pub open spec fn item_order(items: Seq<DiskItem>) -> Seq<int> {
    order_of(items.map_values(|d: DiskItem| str_rank(item_name(d))), items.len())
}

/// Entries by name.
pub open spec fn sorted_entries(all: Seq<EntryTree>) -> Seq<EntryTree> {
    let ord = order_of(all.map_values(|e: EntryTree| str_rank(entry_name(e))), all.len());
    Seq::new(all.len(), |k: int| all[ord[k]])
}

/// Something is queued below `dir`.
pub open spec fn queued_below(pending: Seq<PendingEntry>, dir: Seq<Seq<char>>) -> bool {
    exists|i: int|
        0 <= i < pending.len() && is_under(pending_path(#[trigger] pending[i]), dir)
            && pending_path(pending[i]) != dir
}

/// The name a path ends in; none for a root, or where it ends in `..`.
pub open spec fn base_name(p: Seq<Seq<char>>) -> Option<Seq<char>> {
    if p.len() == 0 || p.last() == "/"@ || p.last() == ".."@ {
        None
    } else {
        Some(p.last())
    }
}

pub open spec fn name_or_empty(n: Option<Seq<char>>) -> Seq<char> {
    match n {
        Some(s) => s,
        None => Seq::empty(),
    }
}

/// A queued entry is shown in `dir` if it lies directly in it and the disk does
/// not list it already.
pub open spec fn shows_in(e: PendingEntry, dir: Seq<Seq<char>>, items: Seq<DiskItem>) -> bool {
    &&& has_parent(pending_path(e))
    &&& pending_path(e).drop_last() == dir
    &&& !listed(items, pending_path(e).last())
}

/// The tree below `dir`, which is shown as `name` and where the disk lists
/// `items`, to the given depth.
pub open spec fn scanned(
    dir: Seq<Seq<char>>,
    name: Seq<char>,
    items: Seq<DiskItem>,
    pending: Seq<PendingEntry>,
    depth: nat,
) -> EntryTree
    decreases depth, pending.len() + 1,
{
    if depth == 0 {
        if items.len() > 0 || queued_below(pending, dir) {
            EntryTree::Truncated { path: dir }
        } else {
            EntryTree::Dir { name, path: dir, children: Seq::empty() }
        }
    } else {
        EntryTree::Dir {
            name,
            path: dir,
            children: sorted_entries(
                listed_entries(dir, items, pending, depth) + queued_entries(
                    dir,
                    items,
                    pending,
                    depth,
                    pending.len(),
                ),
            ),
        }
    }
}

/// The entries for what the disk lists.
pub open spec fn listed_entries(
    dir: Seq<Seq<char>>,
    items: Seq<DiskItem>,
    pending: Seq<PendingEntry>,
    depth: nat,
) -> Seq<EntryTree>
    decreases depth, pending.len(),
{
    Seq::new(
        items.len(),
        |k: int|
            if depth == 0 {
                EntryTree::Truncated { path: dir }
            } else {
                match items[item_order(items)[k]] {
                    DiskItem::File { name } => EntryTree::File { name: name@, path: dir.push(name@) },
                    DiskItem::Dir { name, items: inner } => scanned(
                        dir.push(name@),
                        name@,
                        inner@,
                        pending,
                        (depth - 1) as nat,
                    ),
                }
            },
    )
}

/// The entries for the first `n` queued ones.
pub open spec fn queued_entries(
    dir: Seq<Seq<char>>,
    items: Seq<DiskItem>,
    pending: Seq<PendingEntry>,
    depth: nat,
    n: nat,
) -> Seq<EntryTree>
    decreases depth, n,
{
    if n == 0 || depth == 0 {
        Seq::empty()
    } else {
        let rest = queued_entries(dir, items, pending, depth, (n - 1) as nat);
        let e = pending[n - 1];
        if !shows_in(e, dir, items) {
            rest
        } else {
            rest.push(queued_entry(e, pending, depth))
        }
    }
}

/// The entry for a queued one.
pub open spec fn queued_entry(
    e: PendingEntry,
    pending: Seq<PendingEntry>,
    depth: nat,
) -> EntryTree
    decreases depth, 0nat,
{
    let name = name_or_empty(base_name(pending_path(e)));
    match e {
        PendingEntry::Dir { path } => if depth == 0 {
            EntryTree::Truncated { path: path@ }
        } else {
            scanned(path@, name, Seq::empty(), pending, (depth - 1) as nat)
        },
        PendingEntry::File { path, .. } => EntryTree::File { name, path: path@ },
    }
}

/// Whether `name` is listed.
fn is_listed(items: &Vec<DiskItem>, name: &str) -> (r: bool)
    ensures
        r == listed(items@, name@),
{
    let mut i: usize = 0;
    while i < items.len()
        invariant
            0 <= i <= items@.len(),
            forall|k: int| 0 <= k < i ==> item_name(#[trigger] items@[k]) != name@,
        decreases items@.len() - i,
    {
        let same: bool = match &items[i] {
            DiskItem::File { name: n } => str_eq(n.as_str(), name),
            DiskItem::Dir { name: n, .. } => str_eq(n.as_str(), name),
        };
        if same {
            assert(item_name(items@[i as int]) == name@);
            return true;
        }
        i = i + 1;
    }
    false
}

/// The order of what is listed, by name.
fn order_items(items: &Vec<DiskItem>) -> (r: Vec<usize>)
    ensures
        r@.len() == items@.len(),
        forall|k: int| 0 <= k < r@.len() ==> (#[trigger] r@[k]) < items@.len(),
        forall|k: int| 0 <= k < r@.len() ==> (#[trigger] r@[k]) as int == item_order(items@)[k],
{
    let mut keys: Vec<String> = Vec::new();
    let mut i: usize = 0;
    while i < items.len()
        invariant
            0 <= i <= items@.len(),
            keys@.len() == i,
            forall|k: int| 0 <= k < i ==> (#[trigger] keys@[k])@ == item_name(items@[k]),
        decreases items@.len() - i,
    {
        let key: String = match &items[i] {
            DiskItem::File { name } => name.clone(),
            DiskItem::Dir { name, .. } => name.clone(),
        };
        keys.push(key);
        i = i + 1;
    }
    let ord: Vec<usize> = stable_order(&keys);
    proof {
        let want = items@.map_values(|d: DiskItem| str_rank(item_name(d)));
        assert(ranks(keys@) =~= want);
        assert forall|k: int| 0 <= k < ord@.len() implies (#[trigger] ord@[k]) as int == item_order(
            items@,
        )[k] by {
            assert(ord@.map_values(|x: usize| x as int)[k] == ord@[k] as int);
        }
    }
    ord
}

/// Puts entries in order by name.
fn sort_entries(all: Vec<VfsEntry>) -> (r: Vec<VfsEntry>)
    ensures
        entry_trees(r@) == sorted_entries(entry_trees(all@)),
{
    let ghost trees = entry_trees(all@);
    let mut keys: Vec<String> = Vec::new();
    let mut i: usize = 0;
    while i < all.len()
        invariant
            0 <= i <= all@.len(),
            trees == entry_trees(all@),
            keys@.len() == i,
            forall|k: int| 0 <= k < i ==> (#[trigger] keys@[k])@ == entry_name(trees[k]),
        decreases all@.len() - i,
    {
        assert(trees[i as int] == all@[i as int]@);
        let key: String = all[i].name().to_owned();
        keys.push(key);
        i = i + 1;
    }
    let ord: Vec<usize> = stable_order(&keys);
    let ghost want = trees.map_values(|e: EntryTree| str_rank(entry_name(e)));
    let ghost o = order_of(want, want.len());
    proof {
        assert(ranks(keys@) =~= want);
        law_order_of_is_stable(want, want.len());
        assert forall|k: int| 0 <= k < ord@.len() implies (#[trigger] ord@[k]) as int == o[k] by {
            assert(ord@.map_values(|x: usize| x as int)[k] == ord@[k] as int);
        }
        assert forall|a: int, b: int| 0 <= a < b < ord@.len() implies (#[trigger] ord@[a]) != (
        #[trigger] ord@[b]) by {
            assert(o[a] != o[b]);
        }
    }
    let r: Vec<VfsEntry> = in_order(all, &ord);
    proof {
        let s = sorted_entries(trees);
        assert forall|k: int| 0 <= k < s.len() implies entry_trees(r@)[k] == s[k] by {
            assert(ord@[k] as int == o[k]);
        }
        assert(entry_trees(r@) =~= s);
    }
    r
}

fn is_queued_below(pending: &Vec<PendingEntry>, dir: &VPath) -> (r: bool)
    ensures
        r == queued_below(pending@, dir@),
{
    let mut i: usize = 0;
    while i < pending.len()
        invariant
            0 <= i <= pending@.len(),
            forall|k: int|
                0 <= k < i ==> !(is_under(pending_path(#[trigger] pending@[k]), dir@)
                    && pending_path(pending@[k]) != dir@),
        decreases pending@.len() - i,
    {
        let p: &VPath = entry_path(&pending[i]);
        if p.starts_with(dir) && !p.same(dir) {
            return true;
        }
        i = i + 1;
    }
    false
}

/// The tree below `dir`, which is shown as `name` and where the disk lists
/// `items`.
fn scan_dir_node(
    dir: &VPath,
    name: &str,
    items: &Vec<DiskItem>,
    pending: &Vec<PendingEntry>,
    depth_left: usize,
) -> (r: VfsEntry)
    ensures
        r@ == scanned(dir@, name@, items@, pending@, depth_left as nat),
    decreases depth_left,
{
    if depth_left == 0 {
        if items.len() > 0 || is_queued_below(pending, dir) {
            return VfsEntry::Truncated { path: dir.clone() };
        }
        let r: VfsEntry = VfsEntry::Dir {
            name: name.to_owned(),
            path: dir.clone(),
            children: Vec::new(),
        };
        proof {
            let t = r@;
            assert(t->Dir_children =~= Seq::<EntryTree>::empty());
        }
        return r;
    }
    let ghost depth = depth_left as nat;
    let mut children: Vec<VfsEntry> = Vec::new();
    let ord: Vec<usize> = order_items(items);
    let ghost first = listed_entries(dir@, items@, pending@, depth);
    let mut i: usize = 0;
    assert(entry_trees(children@) =~= first.take(0));
    while i < ord.len()
        invariant
            0 <= i <= ord@.len(),
            ord@.len() == items@.len(),
            depth == depth_left,
            depth_left > 0,
            forall|k: int| 0 <= k < ord@.len() ==> (#[trigger] ord@[k]) < items@.len(),
            forall|k: int| 0 <= k < ord@.len() ==> (#[trigger] ord@[k]) as int == item_order(items@)[k],
            first == listed_entries(dir@, items@, pending@, depth),
            first.len() == items@.len(),
            entry_trees(children@) == first.take(i as int),
        decreases ord@.len() - i,
    {
        let ghost before = entry_trees(children@);
        let at: usize = ord[i];
        let child: VfsEntry = match &items[at] {
            DiskItem::File { name: n } => VfsEntry::File {
                name: n.clone(),
                path: dir.child(n.as_str()),
            },
            DiskItem::Dir { name: n, items: inner } => {
                let below: VPath = dir.child(n.as_str());
                scan_dir_node(&below, n.as_str(), inner, pending, depth_left - 1)
            },
        };
        assert(child@ == first[i as int]);
        children.push(child);
        assert(entry_trees(children@) =~= before.push(child@));
        i = i + 1;
        assert(first.take(i as int) =~= first.take(i - 1).push(first[i - 1]));
    }
    assert(first.take(i as int) =~= first);
    let mut j: usize = 0;
    assert(first + queued_entries(dir@, items@, pending@, depth, 0) =~= first);
    while j < pending.len()
        invariant
            0 <= j <= pending@.len(),
            depth == depth_left,
            depth_left > 0,
            entry_trees(children@) == first + queued_entries(
                dir@,
                items@,
                pending@,
                depth,
                j as nat,
            ),
        decreases pending@.len() - j,
    {
        let ghost before = entry_trees(children@);
        let ghost done = queued_entries(dir@, items@, pending@, depth, j as nat);
        let p: &VPath = entry_path(&pending[j]);
        let shown: bool = match p.parent() {
            Some(parent) => {
                assert(p@.last() == p.parts@.last()@);
                parent.same(dir) && !is_listed(items, p.parts[p.parts.len() - 1].as_str())
            },
            None => false,
        };
        assert(shown == shows_in(pending@[j as int], dir@, items@));
        if shown {
            let entry_name: &str = match p.file_name() {
                Some(n) => n,
                None => "",
            };
            proof {
                reveal_strlit("");
                assert(""@ =~= Seq::<char>::empty());
                assert(entry_name@ == name_or_empty(base_name(p@)));
            }
            let child: VfsEntry = match &pending[j] {
                PendingEntry::Dir { path } => {
                    let none: Vec<DiskItem> = Vec::new();
                    assert(none@ =~= Seq::<DiskItem>::empty());
                    scan_dir_node(path, entry_name, &none, pending, depth_left - 1)
                },
                PendingEntry::File { path, .. } => VfsEntry::File {
                    name: entry_name.to_owned(),
                    path: path.clone(),
                },
            };
            assert(child@ == queued_entry(pending@[j as int], pending@, depth));
            children.push(child);
            assert(entry_trees(children@) =~= before.push(child@));
            assert(first + done.push(child@) =~= (first + done).push(child@));
        }
        j = j + 1;
    }
    let children: Vec<VfsEntry> = sort_entries(children);
    let r: VfsEntry = VfsEntry::Dir { name: name.to_owned(), path: dir.clone(), children };
    proof {
        let t = r@;
        assert(t->Dir_children =~= entry_trees(children@));
    }
    r
}

/// A project root, and the files and folders that are queued for creation in it.
#[derive(Debug)]
pub struct VirtualFs {
    pub root: VPath,
    pub pending: Vec<PendingEntry>,
}

/// The name that a project root is shown by: what its path ends in, or else the
/// whole path.
pub open spec fn root_name(root: Seq<Seq<char>>) -> Seq<char> {
    match base_name(root) {
        Some(n) => n,
        None => path_text(root),
    }
}

impl VirtualFs {
    /// The queue.
    pub open spec fn queue(&self) -> Seq<PendingEntry> {
        self.pending@
    }

    pub fn new(root: VPath) -> (r: VirtualFs)
        ensures
            r.root == root,
            r.queue() == Seq::<PendingEntry>::empty(),
    {
        VirtualFs { root, pending: Vec::new() }
    }

    /// Queues a new file under `parent`, and returns its path.
    pub fn new_file(&mut self, parent: &VPath, name: &str, initial_content: &str) -> (r: VPath)
        ensures
            r@ == path_join(parent@, name@),
            final(self).root == old(self).root,
            final(self).queue().len() == old(self).queue().len() + 1,
            final(self).queue().drop_last() == old(self).queue(),
            final(self).queue().last() matches PendingEntry::File { path, initial_content: c }
                && path@ == r@ && c@ == initial_content@,
    {
        let path: VPath = parent.join(name);
        let ghost before = self.pending@;
        self.pending.push(
            PendingEntry::File { path: path.clone(), initial_content: initial_content.to_owned() },
        );
        assert(self.pending@.drop_last() =~= before);
        path
    }

    /// Queues a new folder under `parent`, and returns its path.
    pub fn new_folder(&mut self, parent: &VPath, name: &str) -> (r: VPath)
        ensures
            r@ == path_join(parent@, name@),
            final(self).root == old(self).root,
            final(self).queue().len() == old(self).queue().len() + 1,
            final(self).queue().drop_last() == old(self).queue(),
            final(self).queue().last() matches PendingEntry::Dir { path } && path@ == r@,
    {
        let path: VPath = parent.join(name);
        let ghost before = self.pending@;
        self.pending.push(PendingEntry::Dir { path: path.clone() });
        assert(self.pending@.drop_last() =~= before);
        path
    }

    /// Empties the queue, and returns the steps that write what was queued, in
    /// order. A failed step leaves out the ones after it.
    pub fn flush(&mut self) -> (r: Vec<DiskStep>)
        ensures
            steps_of(r@) == flush_steps(old(self).queue(), old(self).queue().len()),
            final(self).queue() == Seq::<PendingEntry>::empty(),
            final(self).root == old(self).root,
    {
        let mut all: Vec<PendingEntry> = Vec::new();
        std::mem::swap(&mut all, &mut self.pending);
        let ghost queue = all@;
        let mut steps: Vec<DiskStep> = Vec::new();
        assert(steps_of(steps@) =~= flush_steps(queue, 0));
        for e in it: all
            invariant
                it.seq() == queue,
                steps_of(steps@) == flush_steps(queue, it.index() as nat),
        {
            let ghost before = steps_of(steps@);
            assert(e == queue[it.index()]);
            match e {
                PendingEntry::Dir { path } => {
                    steps.push(DiskStep::MakeDir(path));
                    assert(steps_of(steps@) =~= before + write_steps(e));
                },
                PendingEntry::File { path, initial_content } => {
                    if let Some(parent) = path.parent() {
                        steps.push(DiskStep::MakeDir(parent));
                    }
                    steps.push(DiskStep::WriteFile(path, initial_content));
                    assert(steps_of(steps@) =~= before + write_steps(e));
                },
            }
        }
        steps
    }

    /// The path that an entry on disk has once it is renamed.
    pub fn rename(&self, path: &VPath, new_name: &str) -> (r: VPath)
        ensures
            r@ == if base_name(path@) is None {
                path_join(path@, new_name@)
            } else {
                path_join(path@.drop_last(), new_name@)
            },
    {
        path.with_file_name(new_name)
    }

    /// Drops what is queued at `path` or below it.
    pub fn discard_pending(&mut self, path: &VPath)
        ensures
            final(self).queue() == kept(old(self).queue(), path@, old(self).queue().len()),
            final(self).root == old(self).root,
    {
        let mut all: Vec<PendingEntry> = Vec::new();
        std::mem::swap(&mut all, &mut self.pending);
        let ghost queue = all@;
        let mut left: Vec<PendingEntry> = Vec::new();
        assert(left@ =~= kept(queue, path@, 0));
        for e in it: all
            invariant
                it.seq() == queue,
                left@ == kept(queue, path@, it.index() as nat),
        {
            assert(e == queue[it.index()]);
            if !entry_path(&e).starts_with(path) {
                left.push(e);
            }
        }
        self.pending = left;
    }

    /// The project tree: what the disk lists under the root, and what is queued.
    pub fn scan(&self, disk: &Vec<DiskItem>, max_depth: usize) -> (r: VfsEntry)
        ensures
            r@ == scanned(self.root@, root_name(self.root@), disk@, self.queue(), max_depth as nat),
    {
        match self.root.file_name() {
            Some(name) => scan_dir_node(&self.root, name, disk, &self.pending, max_depth),
            None => {
                let name: String = self.root.text();
                scan_dir_node(&self.root, name.as_str(), disk, &self.pending, max_depth)
            },
        }
    }
}

// ---- laws ----

/// What is discarded is gone, with all that was queued below it, and nothing else
/// is.
pub proof fn law_discard_drops_subtree(
    pending: Seq<PendingEntry>,
    path: Seq<Seq<char>>,
    e: PendingEntry,
)
    ensures
        kept(pending, path, pending.len()).contains(e) <==> (pending.contains(e) && !is_under(
            pending_path(e),
            path,
        )),
{
    lemma_kept(pending, path, pending.len(), e);
    assert(pending.take(pending.len() as int) =~= pending);
}

proof fn lemma_kept(pending: Seq<PendingEntry>, path: Seq<Seq<char>>, n: nat, e: PendingEntry)
    requires
        n <= pending.len(),
    ensures
        kept(pending, path, n).contains(e) <==> (pending.take(n as int).contains(e) && !is_under(
            pending_path(e),
            path,
        )),
    decreases n,
{
    if n > 0 {
        let m = (n - 1) as nat;
        lemma_kept(pending, path, m, e);
        let a = pending.take(m as int);
        let b = pending.take(n as int);
        let x = pending[n - 1];
        assert(b =~= a.push(x));
        if a.contains(e) {
            let k = choose|k: int| 0 <= k < a.len() && a[k] == e;
            assert(b[k] == e);
        }
        if b.contains(e) {
            let k = choose|k: int| 0 <= k < b.len() && b[k] == e;
            if k < a.len() {
                assert(a[k] == e);
            }
        }
        let r = kept(pending, path, m);
        if e == x {
            assert(b[n - 1] == e);
            if !is_under(pending_path(x), path) {
                assert(r.push(x)[r.len() as int] == e);
            }
        }
        if r.contains(e) {
            let k = choose|k: int| 0 <= k < r.len() && r[k] == e;
            assert(r.push(x)[k] == e);
        }
        if r.push(x).contains(e) {
            let k = choose|k: int| 0 <= k < r.push(x).len() && r.push(x)[k] == e;
            if k < r.len() {
                assert(r[k] == e);
            }
        }
    }
}

/// Whatever the order of the queue, a file's directory is made right before the file
/// is written.
pub proof fn law_directories_come_first(pending: Seq<PendingEntry>, n: nat, k: int)
    requires
        n <= pending.len(),
        0 <= k < flush_steps(pending, n).len(),
        flush_steps(pending, n)[k].1 is Some,
        has_parent(flush_steps(pending, n)[k].0),
    ensures
        k > 0,
        flush_steps(pending, n)[k - 1] == (flush_steps(pending, n)[k].0.drop_last(), None::<
            Seq<char>,
        >),
    decreases n,
{
    if n > 0 {
        let rest = flush_steps(pending, (n - 1) as nat);
        let own = write_steps(pending[n - 1]);
        if k < rest.len() {
            law_directories_come_first(pending, (n - 1) as nat, k);
        } else {
            assert(flush_steps(pending, n)[k] == own[k - rest.len()]);
        }
    }
}

/// The levels of a tree below its top.
pub open spec fn levels(e: EntryTree, n: nat) -> bool
    decreases n,
{
    match e {
        EntryTree::Dir { children, .. } => {
            if n == 0 {
                children.len() == 0
            } else {
                forall|i: int| 0 <= i < children.len() ==> levels(#[trigger] children[i], (n - 1) as nat)
            }
        },
        _ => true,
    }
}

proof fn lemma_sorted_entries(all: Seq<EntryTree>)
    ensures
        sorted_entries(all).len() == all.len(),
        forall|k: int| 0 <= k < all.len() ==> all.contains(#[trigger] sorted_entries(all)[k]),
        forall|k: int| 0 <= k < all.len() ==> sorted_entries(all).contains(#[trigger] all[k]),
{
    let keys = all.map_values(|e: EntryTree| str_rank(entry_name(e)));
    let o = order_of(keys, all.len());
    law_order_of_is_stable(keys, all.len());
    assert forall|k: int| 0 <= k < all.len() implies all.contains(
        #[trigger] sorted_entries(all)[k],
    ) by {
        assert(0 <= o[k] < all.len());
        assert(all[o[k]] == sorted_entries(all)[k]);
    }
    assert forall|k: int| 0 <= k < all.len() implies sorted_entries(all).contains(
        #[trigger] all[k],
    ) by {
        assert(o.contains(k));
        let j = choose|j: int| 0 <= j < o.len() && o[j] == k;
        assert(sorted_entries(all)[j] == all[k]);
    }
}

/// A scanned tree is no deeper than it was asked to be.
pub proof fn law_scan_depth_is_capped(
    dir: Seq<Seq<char>>,
    name: Seq<char>,
    items: Seq<DiskItem>,
    pending: Seq<PendingEntry>,
    depth: nat,
)
    ensures
        levels(scanned(dir, name, items, pending, depth), depth),
    decreases depth,
{
    if depth > 0 {
        let below = (depth - 1) as nat;
        let first = listed_entries(dir, items, pending, depth);
        let more = queued_entries(dir, items, pending, depth, pending.len());
        assert forall|k: int| 0 <= k < first.len() implies levels(#[trigger] first[k], below) by {
            match items[item_order(items)[k]] {
                DiskItem::File { name: n } => {},
                DiskItem::Dir { name: n, items: inner } => {
                    law_scan_depth_is_capped(dir.push(n@), n@, inner@, pending, below);
                },
            }
        }
        lemma_queued_levels(dir, items, pending, depth, pending.len());
        let all = first + more;
        lemma_sorted_entries(all);
        let s = sorted_entries(all);
        assert forall|i: int| 0 <= i < s.len() implies levels(#[trigger] s[i], below) by {
            assert(all.contains(s[i]));
            let k = choose|k: int| 0 <= k < all.len() && all[k] == s[i];
            if k < first.len() {
                assert(first[k] == s[i]);
            } else {
                assert(more[k - first.len()] == s[i]);
            }
        }
    }
}

proof fn lemma_queued_levels(
    dir: Seq<Seq<char>>,
    items: Seq<DiskItem>,
    pending: Seq<PendingEntry>,
    depth: nat,
    n: nat,
)
    requires
        depth > 0,
        n <= pending.len(),
    ensures
        forall|k: int|
            0 <= k < queued_entries(dir, items, pending, depth, n).len() ==> levels(
                #[trigger] queued_entries(dir, items, pending, depth, n)[k],
                (depth - 1) as nat,
            ),
    decreases depth, n,
{
    if n > 0 {
        lemma_queued_levels(dir, items, pending, depth, (n - 1) as nat);
        let e = pending[n - 1];
        let rest = queued_entries(dir, items, pending, depth, (n - 1) as nat);
        let q = queued_entries(dir, items, pending, depth, n);
        if shows_in(e, dir, items) {
            assert(q == rest.push(queued_entry(e, pending, depth)));
            match e {
                PendingEntry::Dir { path } => {
                    let name = name_or_empty(base_name(pending_path(e)));
                    law_scan_depth_is_capped(
                        path@,
                        name,
                        Seq::empty(),
                        pending,
                        (depth - 1) as nat,
                    );
                },
                _ => {},
            }
            assert forall|k: int| 0 <= k < q.len() implies levels(
                #[trigger] q[k],
                (depth - 1) as nat,
            ) by {
                if k < rest.len() {
                    assert(q[k] == rest[k]);
                }
            }
        }
    }
}

/// The path of an entry.
pub open spec fn tree_path(e: EntryTree) -> Seq<Seq<char>> {
    match e {
        EntryTree::File { path, .. } => path,
        EntryTree::Dir { path, .. } => path,
        EntryTree::Truncated { path } => path,
    }
}

/// What is queued directly in a scanned directory is shown there at once, unless
/// the disk lists it already.
pub proof fn law_queued_entries_are_shown(
    dir: Seq<Seq<char>>,
    name: Seq<char>,
    items: Seq<DiskItem>,
    pending: Seq<PendingEntry>,
    depth: nat,
    i: int,
)
    requires
        depth > 0,
        0 <= i < pending.len(),
        shows_in(pending[i], dir, items),
    ensures
        ({
            let t = scanned(dir, name, items, pending, depth);
            &&& t is Dir
            &&& exists|k: int|
                0 <= k < t->Dir_children.len() && tree_path(#[trigger] t->Dir_children[k])
                    == pending_path(pending[i])
        }),
{
    lemma_queued_shown(dir, items, pending, depth, pending.len(), i);
    let more = queued_entries(dir, items, pending, depth, pending.len());
    let k = choose|k: int|
        0 <= k < more.len() && tree_path(#[trigger] more[k]) == pending_path(pending[i]);
    let first = listed_entries(dir, items, pending, depth);
    let all = first + more;
    lemma_sorted_entries(all);
    assert(all[first.len() + k] == more[k]);
    let s = sorted_entries(all);
    assert(s.contains(all[first.len() + k]));
    let j = choose|j: int| 0 <= j < s.len() && s[j] == more[k];
    let t = scanned(dir, name, items, pending, depth);
    assert(t->Dir_children == s);
    assert(tree_path(t->Dir_children[j]) == pending_path(pending[i]));
}

proof fn lemma_queued_shown(
    dir: Seq<Seq<char>>,
    items: Seq<DiskItem>,
    pending: Seq<PendingEntry>,
    depth: nat,
    n: nat,
    i: int,
)
    requires
        depth > 0,
        0 <= i < n <= pending.len(),
        shows_in(pending[i], dir, items),
    ensures
        exists|k: int|
            0 <= k < queued_entries(dir, items, pending, depth, n).len() && tree_path(
                #[trigger] queued_entries(dir, items, pending, depth, n)[k],
            ) == pending_path(pending[i]),
    decreases n,
{
    let m = (n - 1) as nat;
    let q = queued_entries(dir, items, pending, depth, n);
    let rest = queued_entries(dir, items, pending, depth, m);
    if i < n - 1 {
        lemma_queued_shown(dir, items, pending, depth, m, i);
        let k = choose|k: int|
            0 <= k < rest.len() && tree_path(#[trigger] rest[k]) == pending_path(pending[i]);
        assert(q[k] == rest[k]);
    } else {
        let e = pending[i];
        assert(q == rest.push(queued_entry(e, pending, depth)));
        let name = name_or_empty(base_name(pending_path(e)));
        assert(tree_path(
            scanned(pending_path(e), name, Seq::empty(), pending, (depth - 1) as nat),
        ) == pending_path(e));
        assert(tree_path(q[rest.len() as int]) == pending_path(pending[i]));
    }
}

/// A scanned directory lists its entries by name.
pub proof fn law_scan_is_sorted(all: Seq<EntryTree>, i: int, j: int)
    requires
        0 <= i < j < all.len(),
    ensures
        crate::order::lex_le(
            str_rank(entry_name(sorted_entries(all)[i])),
            str_rank(entry_name(sorted_entries(all)[j])),
        ),
{
    let keys = all.map_values(|e: EntryTree| str_rank(entry_name(e)));
    law_order_of_is_stable(keys, all.len());
    let o = order_of(keys, all.len());
    assert(is_stable_order(keys, all.len(), o));
    assert(o[i] != o[j]);
    assert(lex_le_at(keys, o[i], o[j]));
}

spec fn lex_le_at(keys: Seq<Seq<int>>, a: int, b: int) -> bool {
    crate::order::lex_le(keys[a], keys[b])
}

} // verus!
