//! Which files are watched for changes.

use vstd::prelude::*;
use crate::designer::paths::VPath;

verus! {

pub open spec fn path_views(v: Seq<VPath>) -> Seq<Seq<Seq<char>>> {
    v.map_values(|p: VPath| p@)
}

/// The paths among the first `n` of `a` that `b` lacks.
pub open spec fn missing_from(
    a: Seq<Seq<Seq<char>>>,
    b: Seq<Seq<Seq<char>>>,
    n: nat,
) -> Seq<Seq<Seq<char>>>
    decreases n,
{
    if n == 0 {
        Seq::empty()
    } else {
        let rest = missing_from(a, b, (n - 1) as nat);
        if b.contains(a[n - 1]) {
            rest
        } else {
            rest.push(a[n - 1])
        }
    }
}

/// What to stop and what to start watching.
#[derive(Debug)]
pub struct WatchChange {
    pub unwatch: Vec<VPath>,
    pub watch: Vec<VPath>,
}

/// The watched files.
#[derive(Debug)]
pub struct FileWatcher {
    pub watched: Vec<VPath>,
}

fn is_among(paths: &Vec<VPath>, p: &VPath) -> (r: bool)
    ensures
        r == path_views(paths@).contains(p@),
{
    let ghost views = path_views(paths@);
    let mut i: usize = 0;
    while i < paths.len()
        invariant
            0 <= i <= paths@.len(),
            views == path_views(paths@),
            forall|k: int| 0 <= k < i ==> #[trigger] views[k] != p@,
        decreases paths@.len() - i,
    {
        assert(views[i as int] == paths@[i as int]@);
        if paths[i].same(p) {
            return true;
        }
        i = i + 1;
    }
    false
}

fn difference(a: &Vec<VPath>, b: &Vec<VPath>) -> (r: Vec<VPath>)
    ensures
        path_views(r@) == missing_from(path_views(a@), path_views(b@), a@.len()),
{
    let ghost xs = path_views(a@);
    let ghost ys = path_views(b@);
    let mut out: Vec<VPath> = Vec::new();
    let mut i: usize = 0;
    assert(path_views(out@) =~= missing_from(xs, ys, 0));
    while i < a.len()
        invariant
            0 <= i <= a@.len(),
            xs == path_views(a@),
            ys == path_views(b@),
            path_views(out@) == missing_from(xs, ys, i as nat),
        decreases a@.len() - i,
    {
        assert(xs[i as int] == a@[i as int]@);
        if !is_among(b, &a[i]) {
            let ghost before = path_views(out@);
            let p: VPath = a[i].clone();
            out.push(p);
            assert(path_views(out@) =~= before.push(p@));
        }
        i = i + 1;
    }
    out
}

impl FileWatcher {
    /// Nothing is watched.
    pub fn new() -> (r: FileWatcher)
        ensures
            r.watched@.len() == 0,
    {
        FileWatcher { watched: Vec::new() }
    }

    /// Makes `paths` the watched set. Returns what is watched no longer, and what
    /// is watched from now on.
    pub fn set_watched(&mut self, paths: &Vec<VPath>) -> (r: WatchChange)
        ensures
            path_views(final(self).watched@) == path_views(paths@),
            path_views(r.unwatch@) == missing_from(
                path_views(old(self).watched@),
                path_views(paths@),
                old(self).watched@.len(),
            ),
            path_views(r.watch@) == missing_from(
                path_views(paths@),
                path_views(old(self).watched@),
                paths@.len(),
            ),
    {
        let unwatch: Vec<VPath> = difference(&self.watched, paths);
        let watch: Vec<VPath> = difference(paths, &self.watched);
        let mut watched: Vec<VPath> = Vec::new();
        let mut i: usize = 0;
        let ghost want = path_views(paths@);
        assert(path_views(watched@) =~= want.take(0));
        while i < paths.len()
            invariant
                0 <= i <= paths@.len(),
                want == path_views(paths@),
                path_views(watched@) == want.take(i as int),
            decreases paths@.len() - i,
        {
            let ghost before = path_views(watched@);
            let p: VPath = paths[i].clone();
            watched.push(p);
            assert(path_views(watched@) =~= before.push(want[i as int]));
            i = i + 1;
            assert(want.take(i as int) =~= want.take(i - 1).push(want[i - 1]));
        }
        assert(want.take(i as int) =~= want);
        self.watched = watched;
        WatchChange { unwatch, watch }
    }
}

// ---- laws ----

proof fn lemma_missing(a: Seq<Seq<Seq<char>>>, b: Seq<Seq<Seq<char>>>, n: nat, p: Seq<Seq<char>>)
    requires
        n <= a.len(),
    ensures
        missing_from(a, b, n).contains(p) <==> (a.take(n as int).contains(p) && !b.contains(p)),
    decreases n,
{
    if n > 0 {
        let m = (n - 1) as nat;
        lemma_missing(a, b, m, p);
        let x = a.take(m as int);
        let y = a.take(n as int);
        assert(y =~= x.push(a[n - 1]));
        let r = missing_from(a, b, m);
        lemma_push_contains(x, a[n - 1], p);
        lemma_push_contains(r, a[n - 1], p);
    }
}

proof fn lemma_push_contains(s: Seq<Seq<Seq<char>>>, x: Seq<Seq<char>>, p: Seq<Seq<char>>)
    ensures
        s.push(x).contains(p) <==> (s.contains(p) || p == x),
{
    if s.contains(p) {
        let k = choose|k: int| 0 <= k < s.len() && s[k] == p;
        assert(s.push(x)[k] == p);
    }
    if p == x {
        assert(s.push(x)[s.len() as int] == p);
    }
    if s.push(x).contains(p) {
        let k = choose|k: int| 0 <= k < s.push(x).len() && s.push(x)[k] == p;
        if k < s.len() {
            assert(s[k] == p);
        }
    }
}

/// Exactly the paths of one list that the other lacks are missing from it: what is
/// watched never drifts from what was asked for.
pub proof fn law_watch_change_is_the_difference(
    a: Seq<Seq<Seq<char>>>,
    b: Seq<Seq<Seq<char>>>,
    p: Seq<Seq<char>>,
)
    ensures
        missing_from(a, b, a.len()).contains(p) <==> (a.contains(p) && !b.contains(p)),
{
    lemma_missing(a, b, a.len(), p);
    assert(a.take(a.len() as int) =~= a);
}

} // verus!
