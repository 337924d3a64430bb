//! Open-tab bookkeeping: an ordered list of tabs, and which one is active.

use vstd::prelude::*;
use vstd::string::*;
use crate::designer::paths::{is_under, VPath};

verus! {

/// An open file.
#[derive(Debug)]
pub struct OpenTab {
    pub path: VPath,
    /// The editor's buffer for this tab, with unsaved edits.
    pub buffer: String,
    pub dirty: bool,
    pub cursor: usize,
    pub selection_anchor: Option<usize>,
    /// The layout selected for this tab's preview; `None` until the file has
    /// been loaded once.
    pub selected_layout: Option<String>,
}

/// The model of an open file.
pub struct TabView {
    pub path: Seq<Seq<char>>,
    pub buffer: Seq<char>,
    pub dirty: bool,
    pub cursor: usize,
    pub anchor: Option<usize>,
    pub layout: Option<Seq<char>>,
}

pub open spec fn text_of(s: Option<String>) -> Option<Seq<char>> {
    match s {
        Some(s) => Some(s@),
        None => None,
    }
}

impl View for OpenTab {
    type V = TabView;

    open spec fn view(&self) -> TabView {
        TabView {
            path: self.path@,
            buffer: self.buffer@,
            dirty: self.dirty,
            cursor: self.cursor,
            anchor: self.selection_anchor,
            layout: text_of(self.selected_layout),
        }
    }
}

/// A file that has just been opened.
pub open spec fn fresh_tab(path: Seq<Seq<char>>, buffer: Seq<char>) -> TabView {
    TabView { path, buffer, dirty: false, cursor: 0, anchor: None, layout: None }
}

/// Where `path` is open, from `i` on.
pub open spec fn tab_index(tabs: Seq<TabView>, path: Seq<Seq<char>>, i: int) -> Option<usize>
    decreases tabs.len() - i,
{
    if 0 <= i < tabs.len() {
        if tabs[i].path == path {
            Some(i as usize)
        } else {
            tab_index(tabs, path, i + 1)
        }
    } else {
        None
    }
}

/// No path is open twice.
pub open spec fn distinct_paths(tabs: Seq<TabView>) -> bool {
    forall|i: int, j: int|
        0 <= i < j < tabs.len() ==> (#[trigger] tabs[i]).path != (#[trigger] tabs[j]).path
}

/// The tab that is active once the one at `index` is closed, and `left` tabs are
/// left: the one that then stands there, or the last one.
pub open spec fn next_active(index: int, left: int) -> Option<usize> {
    if left == 0 {
        None
    } else if index < left {
        Some(index as usize)
    } else {
        Some((left - 1) as usize)
    }
}

/// The tabs, and which is active, once those of the first `n` that lie in `path`
/// are closed, the last one first.
pub open spec fn closed_under(
    tabs: Seq<TabView>,
    active: Option<usize>,
    path: Seq<Seq<char>>,
    n: nat,
) -> (Seq<TabView>, Option<usize>)
    decreases n,
{
    if n == 0 {
        (tabs, active)
    } else if is_under(tabs[n - 1].path, path) {
        let left = tabs.remove(n - 1);
        closed_under(left, next_active(n - 1, left.len() as int), path, (n - 1) as nat)
    } else {
        closed_under(tabs, active, path, (n - 1) as nat)
    }
}

/// Those of the first `n` tabs that do not lie in `path`.
pub open spec fn left_tabs(tabs: Seq<TabView>, path: Seq<Seq<char>>, n: nat) -> Seq<TabView>
    decreases n,
{
    if n == 0 {
        Seq::empty()
    } else if is_under(tabs[n - 1].path, path) {
        left_tabs(tabs, path, (n - 1) as nat)
    } else {
        left_tabs(tabs, path, (n - 1) as nat).push(tabs[n - 1])
    }
}

/// Which tab is active once those that lie in `path` are closed: the same as before,
/// unless it was one of them.
pub open spec fn active_after(
    tabs: Seq<TabView>,
    active: Option<usize>,
    path: Seq<Seq<char>>,
) -> Option<usize> {
    match active {
        Some(i) => if is_under(tabs[i as int].path, path) {
            closed_under(tabs, active, path, tabs.len()).1
        } else {
            Some(left_tabs(tabs, path, i as nat).len() as usize)
        },
        None => closed_under(tabs, active, path, tabs.len()).1,
    }
}

proof fn lemma_same_left(a: Seq<TabView>, b: Seq<TabView>, path: Seq<Seq<char>>, n: nat)
    requires
        n <= a.len(),
        n <= b.len(),
        forall|k: int| 0 <= k < n ==> #[trigger] a[k] == b[k],
    ensures
        left_tabs(a, path, n) == left_tabs(b, path, n),
    decreases n,
{
    if n > 0 {
        lemma_same_left(a, b, path, (n - 1) as nat);
    }
}

/// Closing leaves the tabs that do not lie in the path, in order.
proof fn lemma_closed_is_left(
    tabs: Seq<TabView>,
    active: Option<usize>,
    path: Seq<Seq<char>>,
    n: nat,
)
    requires
        n <= tabs.len(),
    ensures
        closed_under(tabs, active, path, n).0 == left_tabs(tabs, path, n) + tabs.skip(n as int),
    decreases n,
{
    if n == 0 {
        assert(left_tabs(tabs, path, 0) + tabs.skip(0) =~= tabs);
    } else {
        let m = (n - 1) as nat;
        if is_under(tabs[n - 1].path, path) {
            let left = tabs.remove(n - 1);
            lemma_closed_is_left(left, next_active(n - 1, left.len() as int), path, m);
            lemma_same_left(left, tabs, path, m);
            assert(left.skip(n - 1) =~= tabs.skip(n as int));
        } else {
            lemma_closed_is_left(tabs, active, path, m);
            let a = left_tabs(tabs, path, m);
            assert(a + tabs.skip(n - 1) =~= a.push(tabs[n - 1]) + tabs.skip(n as int));
        }
    }
}

/// A tab that is left stands behind those that are left before it.
proof fn lemma_left_place(tabs: Seq<TabView>, path: Seq<Seq<char>>, i: int, n: nat)
    requires
        0 <= i < n <= tabs.len(),
        !is_under(tabs[i].path, path),
    ensures
        left_tabs(tabs, path, i as nat).len() < left_tabs(tabs, path, n).len(),
        left_tabs(tabs, path, n)[left_tabs(tabs, path, i as nat).len() as int] == tabs[i],
    decreases n,
{
    if n - 1 > i {
        lemma_left_place(tabs, path, i, (n - 1) as nat);
    }
}

/// `p` with what leads to it moved from `from` to `to`.
pub open spec fn moved(
    p: Seq<Seq<char>>,
    from: Seq<Seq<char>>,
    to: Seq<Seq<char>>,
) -> Seq<Seq<char>> {
    if is_under(p, from) {
        to + p.skip(from.len() as int)
    } else {
        p
    }
}

/// The tabs with each file that lies in `from` moved along to `to`.
pub open spec fn retargeted(
    tabs: Seq<TabView>,
    from: Seq<Seq<char>>,
    to: Seq<Seq<char>>,
) -> Seq<TabView> {
    tabs.map_values(|t: TabView| TabView { path: moved(t.path, from, to), ..t })
}

/// The open tabs, and which one is active.
#[derive(Debug)]
pub struct Tabs {
    open: Vec<OpenTab>,
    active: Option<usize>,
}

pub open spec fn tab_views(v: Seq<OpenTab>) -> Seq<TabView> {
    v.map_values(|t: OpenTab| t@)
}

/// This path with what leads to it moved from `from` to `to`.
pub fn move_path(p: &VPath, from: &VPath, to: &VPath) -> (r: VPath)
    ensures
        r@ == moved(p@, from@, to@),
{
    if !p.starts_with(from) {
        return p.clone();
    }
    let ghost want = moved(p@, from@, to@);
    let mut r: VPath = to.clone();
    let mut i: usize = from.parts.len();
    assert(r@ =~= to@ + p@.skip(from@.len() as int).take(0));
    while i < p.parts.len()
        invariant
            from@.len() <= i <= p@.len(),
            p@.len() == p.parts@.len(),
            r@ == to@ + p@.skip(from@.len() as int).take(i - from@.len()),
        decreases p.parts@.len() - i,
    {
        let ghost rest = p@.skip(from@.len() as int);
        assert(p@[i as int] == p.parts@[i as int]@);
        r = r.child(p.parts[i].as_str());
        i = i + 1;
        assert(rest.take(i - from@.len()) =~= rest.take(i - 1 - from@.len()).push(p@[i - 1]));
        assert(r@ =~= to@ + rest.take(i - from@.len()));
    }
    assert(r@ =~= want);
    r
}

impl Tabs {
    /// The open tabs, in order.
    pub closed spec fn tabs(&self) -> Seq<TabView> {
        tab_views(self.open@)
    }

    /// The active tab's index.
    pub closed spec fn current(&self) -> Option<usize> {
        self.active
    }

    /// The active tab is one of the open ones, and there is one exactly if any tab
    /// is open.
    pub open spec fn wf(&self) -> bool {
        &&& self.current() matches Some(i) ==> i < self.tabs().len()
        &&& self.current() is None <==> self.tabs().len() == 0
        &&& self.tabs().len() <= usize::MAX
    }

    /// Where `path` is open.
    pub fn find(&self, path: &VPath) -> (r: Option<usize>)
        ensures
            r == tab_index(self.tabs(), path@, 0),
            r matches Some(i) ==> i < self.tabs().len(),
            r is None ==> forall|k: int|
                0 <= k < self.tabs().len() ==> (#[trigger] self.tabs()[k]).path != path@,
    {
        let n: usize = self.open.len();
        let ghost views = self.tabs();
        let mut i: usize = 0;
        while i < n
            invariant
                0 <= i <= n,
                n == self.open@.len(),
                views == tab_views(self.open@),
                tab_index(views, path@, i as int) == tab_index(views, path@, 0),
                forall|k: int| 0 <= k < i ==> (#[trigger] views[k]).path != path@,
            decreases n - i,
        {
            assert(views[i as int] == self.open@[i as int]@);
            if self.open[i].path.same(path) {
                return Some(i);
            }
            i = i + 1;
        }
        None
    }

    /// If `path` is already open, switches to it, and returns its index and
    /// `false`; else opens a tab for it at the end, with the buffer that
    /// `initial_buffer` gives, and returns its index and `true`.
    pub fn open_or_focus<F: FnOnce() -> String>(&mut self, path: &VPath, initial_buffer: F) -> (r: (
        usize,
        bool,
    ))
        requires
            old(self).wf(),
            initial_buffer.requires(()),
        ensures
            final(self).wf(),
            final(self).current() == Some(r.0),
            distinct_paths(old(self).tabs()) ==> distinct_paths(final(self).tabs()),
            match tab_index(old(self).tabs(), path@, 0) {
                Some(i) => r == (i, false) && final(self).tabs() == old(self).tabs(),
                None => {
                    &&& r.1
                    &&& r.0 == old(self).tabs().len()
                    &&& exists|s: String| #[trigger]
                        initial_buffer.ensures((), s) && final(self).tabs() == old(
                            self,
                        ).tabs().push(fresh_tab(path@, s@))
                },
            },
    {
        match self.find(path) {
            Some(i) => {
                self.active = Some(i);
                (i, false)
            },
            None => {
                let buffer: String = initial_buffer();
                let ghost before = self.tabs();
                let n: usize = self.open_new(path, buffer);
                assert(self.tabs() == before.push(fresh_tab(path@, buffer@)));
                (n, true)
            },
        }
    }

    /// Opens a tab for `path`, which is not open, at the end; it becomes the active
    /// one.
    pub fn open_new(&mut self, path: &VPath, buffer: String) -> (r: usize)
        requires
            old(self).wf(),
        ensures
            final(self).wf(),
            r == old(self).tabs().len(),
            final(self).current() == Some(r),
            final(self).tabs() == old(self).tabs().push(fresh_tab(path@, buffer@)),
    {
        let n: usize = self.open.len();
        let path: VPath = path.clone();
        let ghost before = self.tabs();
        self.open.push(
            OpenTab {
                path,
                buffer,
                dirty: false,
                cursor: 0,
                selection_anchor: None,
                selected_layout: None,
            },
        );
        self.active = Some(n);
        let _ = self.open.len();
        assert(self.tabs() =~= before.push(fresh_tab(path@, buffer@)));
        n
    }

    pub fn active_index(&self) -> (r: Option<usize>)
        ensures
            r == self.current(),
    {
        self.active
    }

    /// The active tab.
    pub fn active(&self) -> (r: Option<&OpenTab>)
        requires
            self.wf(),
        ensures
            match r {
                Some(t) => self.current() matches Some(i) && t@ == self.tabs()[i as int],
                None => self.current() is None,
            },
    {
        match self.active {
            Some(i) => Some(&self.open[i]),
            None => None,
        }
    }

    /// The active tab, to be changed.
    pub fn active_mut(&mut self) -> (r: Option<&mut OpenTab>)
        requires
            old(self).wf(),
        ensures
            match r {
                Some(t) => {
                    &&& old(self).current() matches Some(i)
                    &&& t@ == old(self).tabs()[i as int]
                    &&& final(self).tabs() == old(self).tabs().update(i as int, final(t)@)
                    &&& final(self).current() == old(self).current()
                },
                None => old(self).current() is None && *final(self) == *old(self),
            },
    {
        match self.active {
            Some(i) => {
                let ghost before = self.open@;
                let t: &mut OpenTab = &mut self.open[i];
                assert(tab_views(before.update(i as int, *final(t))) =~= tab_views(before).update(
                    i as int,
                    final(t)@,
                ));
                Some(t)
            },
            None => None,
        }
    }

    pub fn len(&self) -> (r: usize)
        ensures
            r == self.tabs().len(),
    {
        self.open.len()
    }

    pub fn is_empty(&self) -> (r: bool)
        ensures
            r == (self.tabs().len() == 0),
    {
        self.open.len() == 0
    }

    /// The open tabs, in order.
    pub fn iter(&self) -> (r: &[OpenTab])
        ensures
            tab_views(r@) == self.tabs(),
    {
        self.open.as_slice()
    }

    /// Switches to the tab at `index`. Returns `false`, and does nothing, if there
    /// is none.
    pub fn switch_to(&mut self, index: usize) -> (r: bool)
        requires
            old(self).wf(),
        ensures
            final(self).wf(),
            r == (index < old(self).tabs().len()),
            final(self).tabs() == old(self).tabs(),
            final(self).current() == if r {
                Some(index)
            } else {
                old(self).current()
            },
    {
        if index < self.open.len() {
            self.active = Some(index);
            true
        } else {
            false
        }
    }

    /// Closes the tab at `index`, if there is one. The tab that then stands there,
    /// or the last one, becomes the active one.
    pub fn close(&mut self, index: usize)
        requires
            old(self).wf(),
        ensures
            final(self).wf(),
            distinct_paths(old(self).tabs()) ==> distinct_paths(final(self).tabs()),
            index >= old(self).tabs().len() ==> *final(self) == *old(self),
            index < old(self).tabs().len() ==> {
                let left = old(self).tabs().remove(index as int);
                &&& final(self).tabs() == left
                &&& final(self).current() == next_active(index as int, left.len() as int)
            },
    {
        if index >= self.open.len() {
            return ;
        }
        let ghost before = self.tabs();
        let _ = self.open.remove(index);
        let n: usize = self.open.len();
        self.active = if n == 0 {
            None
        } else if index < n {
            Some(index)
        } else {
            Some(n - 1)
        };
        proof {
            let left = before.remove(index as int);
            assert(self.tabs() =~= left);
            if distinct_paths(before) {
                assert forall|a: int, b: int| 0 <= a < b < left.len() implies (
                #[trigger] left[a]).path != (#[trigger] left[b]).path by {
                    let a2 = if a < index {
                        a
                    } else {
                        a + 1
                    };
                    let b2 = if b < index {
                        b
                    } else {
                        b + 1
                    };
                    assert(before[a2].path != before[b2].path);
                }
            }
        }
    }

    /// Closes every tab whose file is `path` or lies in it. Returns whether the
    /// active one was among them; if it was not, it stays the active one.
    pub fn close_under(&mut self, path: &VPath) -> (r: bool)
        requires
            old(self).wf(),
        ensures
            final(self).wf(),
            final(self).tabs() == left_tabs(old(self).tabs(), path@, old(self).tabs().len()),
            final(self).current() == active_after(old(self).tabs(), old(self).current(), path@),
            r == (old(self).current() matches Some(i) && is_under(
                old(self).tabs()[i as int].path,
                path@,
            )),
    {
        let ghost before = self.tabs();
        let affected: bool = match self.active() {
            Some(t) => t.path.starts_with(path),
            None => false,
        };
        let mut kept: Option<usize> = None;
        if let Some(i) = self.active {
            if !affected {
                let mut count: usize = 0;
                let mut k: usize = 0;
                while k < i
                    invariant
                        0 <= k <= i,
                        i < self.open@.len(),
                        before == tab_views(self.open@),
                        count == left_tabs(before, path@, k as nat).len(),
                        count <= k,
                    decreases i - k,
                {
                    assert(before[k as int] == self.open@[k as int]@);
                    if !self.open[k].path.starts_with(path) {
                        count = count + 1;
                    }
                    k = k + 1;
                }
                kept = Some(count);
            }
        }
        let mut n: usize = self.open.len();
        while n > 0
            invariant
                self.wf(),
                0 <= n <= self.open@.len(),
                closed_under(self.tabs(), self.current(), path@, n as nat) == closed_under(
                    old(self).tabs(),
                    old(self).current(),
                    path@,
                    old(self).tabs().len(),
                ),
            decreases n,
        {
            assert(self.tabs()[n - 1] == self.open@[n - 1]@);
            if self.open[n - 1].path.starts_with(path) {
                self.close(n - 1);
                let left: usize = self.open.len();
                assert(self.tabs().len() == left);
            }
            n = n - 1;
        }
        proof {
            lemma_closed_is_left(before, old(self).current(), path@, before.len());
            assert(left_tabs(before, path@, before.len()) + before.skip(before.len() as int)
                =~= left_tabs(before, path@, before.len()));
        }
        if let Some(count) = kept {
            proof {
                lemma_left_place(before, path@, old(self).current()->0 as int, before.len());
            }
            self.active = Some(count);
        }
        affected
    }

    /// Moves each open file that is `from` or lies in it along to `to`. Returns
    /// whether the active one was among them.
    pub fn retarget_paths(&mut self, from: &VPath, to: &VPath) -> (r: bool)
        requires
            old(self).wf(),
        ensures
            final(self).wf(),
            final(self).current() == old(self).current(),
            final(self).tabs() == retargeted(old(self).tabs(), from@, to@),
            r == (old(self).current() matches Some(i) && is_under(
                old(self).tabs()[i as int].path,
                from@,
            )),
    {
        let affected: bool = match self.active() {
            Some(t) => t.path.starts_with(from),
            None => false,
        };
        let ghost before = self.tabs();
        let ghost want = retargeted(before, from@, to@);
        let mut i: usize = 0;
        while i < self.open.len()
            invariant
                0 <= i <= self.open@.len(),
                before.len() == self.open@.len(),
                want == retargeted(before, from@, to@),
                self.active == old(self).active,
                forall|k: int| 0 <= k < i ==> (#[trigger] self.open@[k])@ == want[k],
                forall|k: int| i <= k < before.len() ==> (#[trigger] self.open@[k])@ == before[k],
            decreases self.open@.len() - i,
        {
            let path: VPath = move_path(&self.open[i].path, from, to);
            let ghost t = self.open@[i as int];
            self.open[i].path = path;
            assert(self.open@[i as int]@ == want[i as int]);
            i = i + 1;
        }
        assert(self.tabs() =~= want);
        affected
    }
}

impl Default for Tabs {
    /// No tab is open.
    fn default() -> (r: Self)
        ensures
            r.tabs() == Seq::<TabView>::empty(),
            r.current() is None,
            r.wf(),
    {
        let r: Tabs = Tabs { open: Vec::new(), active: None };
        assert(r.tabs() =~= Seq::<TabView>::empty());
        r
    }
}

// ---- laws ----

/// Once the tabs in `path` are closed, those are left that do not lie in it, and no
/// others.
pub proof fn law_close_under_leaves_the_others(
    tabs: Seq<TabView>,
    path: Seq<Seq<char>>,
    n: nat,
    t: TabView,
)
    requires
        n <= tabs.len(),
    ensures
        left_tabs(tabs, path, n).contains(t) <==> (tabs.take(n as int).contains(t) && !is_under(
            t.path,
            path,
        )),
    decreases n,
{
    if n > 0 {
        let m = (n - 1) as nat;
        law_close_under_leaves_the_others(tabs, path, m, t);
        let x = tabs[n - 1];
        let a = left_tabs(tabs, path, m);
        assert(tabs.take(n as int) =~= tabs.take(m as int).push(x));
        lemma_push_contains(tabs.take(m as int), x, t);
        lemma_push_contains(a, x, t);
    }
}

proof fn lemma_push_contains(s: Seq<TabView>, x: TabView, t: TabView)
    ensures
        s.push(x).contains(t) <==> (s.contains(t) || t == x),
{
    if s.contains(t) {
        let k = choose|k: int| 0 <= k < s.len() && s[k] == t;
        assert(s.push(x)[k] == t);
    }
    if t == x {
        assert(s.push(x)[s.len() as int] == t);
    }
    if s.push(x).contains(t) {
        let k = choose|k: int| 0 <= k < s.push(x).len() && s.push(x)[k] == t;
        if k < s.len() {
            assert(s[k] == t);
        }
    }
}

/// Closing other tabs leaves the active one active.
pub proof fn law_closing_others_keeps_the_active_tab(
    tabs: Seq<TabView>,
    active: usize,
    path: Seq<Seq<char>>,
)
    requires
        active < tabs.len() <= usize::MAX,
        !is_under(tabs[active as int].path, path),
    ensures
        active_after(tabs, Some(active), path) matches Some(i) && left_tabs(
            tabs,
            path,
            tabs.len(),
        )[i as int] == tabs[active as int],
{
    lemma_left_place(tabs, path, active as int, tabs.len());
    lemma_left_len(tabs, path, tabs.len());
}

/// The tab that is active after closing is one of those that are left.
pub proof fn lemma_active_after_in_range(
    tabs: Seq<TabView>,
    active: Option<usize>,
    path: Seq<Seq<char>>,
)
    requires
        tabs.len() <= usize::MAX,
        active matches Some(i) ==> i < tabs.len(),
        active is None <==> tabs.len() == 0,
    ensures
        left_tabs(tabs, path, tabs.len()).len() <= tabs.len(),
        active_after(tabs, active, path) matches Some(i) ==> i < left_tabs(
            tabs,
            path,
            tabs.len(),
        ).len(),
        active_after(tabs, active, path) is None <==> left_tabs(tabs, path, tabs.len()).len() == 0,
{
    lemma_left_len(tabs, path, tabs.len());
    lemma_closed_is_left(tabs, active, path, tabs.len());
    assert(left_tabs(tabs, path, tabs.len()) + tabs.skip(tabs.len() as int) =~= left_tabs(
        tabs,
        path,
        tabs.len(),
    ));
    lemma_closed_active(tabs, active, path, tabs.len());
    match active {
        Some(i) => {
            if !is_under(tabs[i as int].path, path) {
                law_closing_others_keeps_the_active_tab(tabs, i, path);
                lemma_left_place(tabs, path, i as int, tabs.len());
            }
        },
        None => {},
    }
}

proof fn lemma_closed_active(
    tabs: Seq<TabView>,
    active: Option<usize>,
    path: Seq<Seq<char>>,
    n: nat,
)
    requires
        n <= tabs.len() <= usize::MAX,
        active matches Some(i) ==> i < tabs.len(),
        active is None <==> tabs.len() == 0,
    ensures
        closed_under(tabs, active, path, n).1 matches Some(i) ==> i < closed_under(
            tabs,
            active,
            path,
            n,
        ).0.len(),
        closed_under(tabs, active, path, n).1 is None <==> closed_under(
            tabs,
            active,
            path,
            n,
        ).0.len() == 0,
    decreases n,
{
    if n > 0 {
        let m = (n - 1) as nat;
        if is_under(tabs[n - 1].path, path) {
            let left = tabs.remove(n - 1);
            lemma_closed_active(left, next_active(n - 1, left.len() as int), path, m);
        } else {
            lemma_closed_active(tabs, active, path, m);
        }
    }
}

proof fn lemma_left_len(tabs: Seq<TabView>, path: Seq<Seq<char>>, n: nat)
    requires
        n <= tabs.len(),
    ensures
        left_tabs(tabs, path, n).len() <= n,
    decreases n,
{
    if n > 0 {
        lemma_left_len(tabs, path, (n - 1) as nat);
    }
}

/// Moving what lies in a directory moves it into the directory's new place, and
/// moving it back gives the old path.
pub proof fn law_moving_back_restores(
    p: Seq<Seq<char>>,
    from: Seq<Seq<char>>,
    to: Seq<Seq<char>>,
)
    requires
        is_under(p, from),
    ensures
        is_under(moved(p, from, to), to),
        moved(moved(p, from, to), to, from) == p,
{
    let q = moved(p, from, to);
    assert(q.take(to.len() as int) =~= to);
    assert(q.skip(to.len() as int) =~= p.skip(from.len() as int));
    assert(from + p.skip(from.len() as int) =~= p);
}

} // verus!
