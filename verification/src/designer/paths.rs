//! Paths as lists of components.
//!
//! An absolute path starts with the component `/`. Repeated separators and `.`
//! components are not kept, except for a leading `.`, which a path that is joined
//! to another does not keep either.

use vstd::prelude::*;
use vstd::string::*;
use crate::text::{pieces, split, str_eq};

verus! {

/// A path.
#[derive(Debug)]
pub struct VPath {
    pub parts: Vec<String>,
}

pub open spec fn parts_of(v: Seq<String>) -> Seq<Seq<char>> {
    v.map_values(|s: String| s@)
}

/// The components among the first `n` pieces of a path text: a piece is none if
/// it is empty, or if it is `.` and not the first.
pub open spec fn kept_pieces(ps: Seq<Seq<char>>, n: nat) -> Seq<Seq<char>>
    decreases n,
{
    if n == 0 {
        Seq::empty()
    } else {
        let rest = kept_pieces(ps, (n - 1) as nat);
        if ps[n - 1].len() == 0 || (ps[n - 1] == "."@ && n > 1) {
            rest
        } else {
            rest.push(ps[n - 1])
        }
    }
}

pub open spec fn is_rooted(text: Seq<char>) -> bool {
    text.len() > 0 && text[0] == '/'
}

/// The components of a path text.
pub open spec fn path_of(text: Seq<char>) -> Seq<Seq<char>> {
    let ps = pieces(text, '/');
    let kept = kept_pieces(ps, ps.len());
    if is_rooted(text) {
        seq!["/"@] + kept
    } else {
        kept
    }
}

/// The components from `i` on, with separators between them.
pub open spec fn joined_from(parts: Seq<Seq<char>>, i: int) -> Seq<char>
    decreases parts.len() - i,
{
    if 0 <= i < parts.len() {
        if i + 1 == parts.len() {
            parts[i]
        } else {
            parts[i] + seq!['/'] + joined_from(parts, i + 1)
        }
    } else {
        Seq::empty()
    }
}

/// A path as text.
pub open spec fn path_text(parts: Seq<Seq<char>>) -> Seq<char> {
    if parts.len() > 0 && parts[0] == "/"@ {
        seq!['/'] + joined_from(parts, 1)
    } else {
        joined_from(parts, 0)
    }
}

/// `p` lies in `dir`, or is `dir`.
pub open spec fn is_under(p: Seq<Seq<char>>, dir: Seq<Seq<char>>) -> bool {
    dir.len() <= p.len() && p.take(dir.len() as int) == dir
}

/// `p` lies directly in `dir`.
pub open spec fn is_child(p: Seq<Seq<char>>, dir: Seq<Seq<char>>) -> bool {
    p.len() == dir.len() + 1 && p.drop_last() == dir
}

/// `dir` with the path text `name` below it; a rooted `name` stands for itself,
/// and a leading `.` of `name` counts for nothing below a directory.
pub open spec fn path_join(dir: Seq<Seq<char>>, name: Seq<char>) -> Seq<Seq<char>> {
    let more = path_of(name);
    if is_rooted(name) {
        more
    } else if dir.len() > 0 && more.len() > 0 && more[0] == "."@ {
        dir + more.skip(1)
    } else {
        dir + more
    }
}

impl View for VPath {
    type V = Seq<Seq<char>>;

    open spec fn view(&self) -> Seq<Seq<char>> {
        parts_of(self.parts@)
    }
}

impl Clone for VPath {
    fn clone(&self) -> (r: Self)
        ensures
            r@ == self@,
    {
        let mut parts: Vec<String> = Vec::new();
        push_parts(&mut parts, &self.parts);
        assert(parts_of(parts@) =~= self@);
        VPath { parts }
    }
}

fn push_parts(out: &mut Vec<String>, parts: &Vec<String>)
    ensures
        parts_of(final(out)@) == parts_of(old(out)@) + parts_of(parts@),
{
    let ghost start = parts_of(out@);
    let ghost want = parts_of(parts@);
    let mut i: usize = 0;
    assert(start + want.take(0) =~= start);
    while i < parts.len()
        invariant
            0 <= i <= parts@.len(),
            want == parts_of(parts@),
            parts_of(out@) == start + want.take(i as int),
        decreases parts@.len() - i,
    {
        let s: String = parts[i].clone();
        let ghost before = parts_of(out@);
        out.push(s);
        assert(parts_of(out@) =~= before.push(parts@[i as int]@));
        i = i + 1;
        assert(parts_of(out@) =~= start + want.take(i as int));
    }
    assert(want.take(i as int) =~= want);
}

impl VPath {
    /// The path that a text gives.
    pub fn parse(text: &str) -> (r: VPath)
        ensures
            r@ == path_of(text@),
    {
        let ps: Vec<&str> = split(text, '/');
        let ghost model = ps@.map_values(|p: &str| p@);
        let mut parts: Vec<String> = Vec::new();
        let rooted: bool = text.unicode_len() > 0 && text.get_char(0) == '/';
        if rooted {
            parts.push("/".to_owned());
        }
        let ghost head = parts_of(parts@);
        proof {
            assert(head =~= if is_rooted(text@) {
                seq!["/"@]
            } else {
                Seq::empty()
            });
        }
        let mut i: usize = 0;
        assert(parts_of(parts@) =~= head + kept_pieces(model, 0));
        while i < ps.len()
            invariant
                0 <= i <= ps@.len(),
                model == ps@.map_values(|p: &str| p@),
                model.len() == ps@.len(),
                parts_of(parts@) == head + kept_pieces(model, i as nat),
            decreases ps@.len() - i,
        {
            let piece: &str = ps[i];
            assert(model[i as int] == piece@);
            if !piece.is_empty() && !(str_eq(piece, ".") && i > 0) {
                let ghost before = parts_of(parts@);
                parts.push(piece.to_owned());
                assert(parts_of(parts@) =~= before.push(piece@));
            }
            i = i + 1;
            assert(parts_of(parts@) =~= head + kept_pieces(model, i as nat));
        }
        assert(parts_of(parts@) =~= path_of(text@));
        VPath { parts }
    }

    /// The path as text.
    pub fn text(&self) -> (r: String)
        ensures
            r@ == path_text(self@),
    {
        let ghost model = self@;
        let n: usize = self.parts.len();
        let mut out: String = String::new();
        let mut i: usize = 0;
        if n > 0 {
            assert(model[0] == self.parts@[0]@);
        }
        if n > 0 && str_eq(self.parts[0].as_str(), "/") {
            out.push('/');
            i = 1;
        }
        let ghost want = path_text(model);
        assert(out@ + joined_from(model, i as int) =~= want);
        while i < n
            invariant
                0 <= i <= n,
                n == self.parts@.len(),
                model == self@,
                model.len() == n,
                out@ + joined_from(model, i as int) == want,
            decreases n - i,
        {
            let ghost before = out@;
            assert(model[i as int] == self.parts@[i as int]@);
            out.append(self.parts[i].as_str());
            if i + 1 < n {
                out.push('/');
            }
            i = i + 1;
            proof {
                if i < n {
                    let p = model[i - 1];
                    let rest = joined_from(model, i as int);
                    assert(before + (p + seq!['/'] + rest) =~= (before + p).push('/') + rest);
                } else {
                    assert(joined_from(model, i as int) =~= Seq::<char>::empty());
                    assert(out@ + Seq::<char>::empty() =~= out@);
                }
            }
        }
        assert(out@ + Seq::<char>::empty() =~= out@);
        out
    }

    /// Whether two paths are the same.
    pub fn same(&self, other: &VPath) -> (r: bool)
        ensures
            r == (self@ == other@),
    {
        assert(self@.len() == self.parts@.len() && other@.len() == other.parts@.len());
        self.parts.len() == other.parts.len() && self.starts_with(other)
    }

    /// Whether this path lies in `dir`, or is `dir`.
    pub fn starts_with(&self, dir: &VPath) -> (r: bool)
        ensures
            r == is_under(self@, dir@),
            r && self@.len() == dir@.len() ==> self@ == dir@,
            self@ == dir@ ==> r,
    {
        let ghost a = self@;
        let ghost b = dir@;
        if self.parts.len() < dir.parts.len() {
            return false;
        }
        let mut i: usize = 0;
        while i < dir.parts.len()
            invariant
                0 <= i <= dir.parts@.len(),
                dir.parts@.len() <= self.parts@.len(),
                a == self@,
                b == dir@,
                a.len() == self.parts@.len(),
                b.len() == dir.parts@.len(),
                forall|k: int| 0 <= k < i ==> a[k] == b[k],
            decreases dir.parts@.len() - i,
        {
            assert(a[i as int] == self.parts@[i as int]@);
            assert(b[i as int] == dir.parts@[i as int]@);
            if !str_eq(self.parts[i].as_str(), dir.parts[i].as_str()) {
                assert(a.take(b.len() as int)[i as int] != b[i as int]);
                return false;
            }
            i = i + 1;
        }
        proof {
            assert(a.take(b.len() as int) =~= b);
            if a.len() == b.len() {
                assert(a =~= b);
            }
        }
        true
    }

    /// Whether this path lies directly in `dir`.
    pub fn is_child_of(&self, dir: &VPath) -> (r: bool)
        ensures
            r == is_child(self@, dir@),
    {
        let r: bool = self.parts.len() > 0 && self.parts.len() - 1 == dir.parts.len()
            && self.starts_with(dir);
        proof {
            if self@.len() == dir@.len() + 1 {
                assert(self@.drop_last() =~= self@.take(dir@.len() as int));
            }
        }
        r
    }

    /// This path with the path text `name` below it.
    pub fn join(&self, name: &str) -> (r: VPath)
        ensures
            r@ == path_join(self@, name@),
    {
        let mut more: VPath = VPath::parse(name);
        if name.unicode_len() > 0 && name.get_char(0) == '/' {
            return more;
        }
        let ghost all = more@;
        if self.parts.len() > 0 && more.parts.len() > 0 {
            assert(all[0] == more.parts@[0]@);
            if str_eq(more.parts[0].as_str(), ".") {
                let _ = more.parts.remove(0);
                assert(more@ =~= all.skip(1));
            }
        }
        let mut parts: Vec<String> = Vec::new();
        push_parts(&mut parts, &self.parts);
        push_parts(&mut parts, &more.parts);
        assert(parts_of(parts@) =~= self@ + more@);
        VPath { parts }
    }

    /// What is left of this path below `dir`, if it lies in `dir`.
    pub fn strip_prefix(&self, dir: &VPath) -> (r: Option<VPath>)
        ensures
            match r {
                Some(rest) => is_under(self@, dir@) && rest@ == self@.skip(dir@.len() as int),
                None => !is_under(self@, dir@),
            },
    {
        if !self.starts_with(dir) {
            return None;
        }
        let ghost want = self@.skip(dir@.len() as int);
        let mut parts: Vec<String> = Vec::new();
        let mut i: usize = dir.parts.len();
        assert(parts_of(parts@) =~= want.take(0));
        while i < self.parts.len()
            invariant
                dir@.len() <= i <= self@.len(),
                self@.len() == self.parts@.len(),
                want == self@.skip(dir@.len() as int),
                parts_of(parts@) == want.take(i - dir@.len()),
            decreases self.parts@.len() - i,
        {
            let ghost before = parts_of(parts@);
            let s: String = self.parts[i].clone();
            parts.push(s);
            assert(parts_of(parts@) =~= before.push(self@[i as int]));
            i = i + 1;
            assert(want.take(i - dir@.len()) =~= before.push(self@[i - 1]));
        }
        assert(parts_of(parts@) =~= want);
        Some(VPath { parts })
    }

    /// This path with one component more.
    pub fn child(&self, name: &str) -> (r: VPath)
        ensures
            r@ == self@.push(name@),
    {
        let mut parts: Vec<String> = Vec::new();
        push_parts(&mut parts, &self.parts);
        let ghost before = parts_of(parts@);
        parts.push(name.to_owned());
        assert(parts_of(parts@) =~= before.push(name@));
        assert(before =~= self@);
        VPath { parts }
    }

    /// The path of the directory that this path lies in; `None` for a root or an
    /// empty path.
    pub fn parent(&self) -> (r: Option<VPath>)
        ensures
            match r {
                Some(p) => self@.len() > 0 && self@ != seq!["/"@] && p@ == self@.drop_last(),
                None => self@.len() == 0 || self@ == seq!["/"@],
            },
    {
        let n: usize = self.parts.len();
        if n == 0 {
            return None;
        }
        assert(self@[0] == self.parts@[0]@);
        if n == 1 && str_eq(self.parts[0].as_str(), "/") {
            assert(self@ =~= seq!["/"@]);
            return None;
        }
        let mut parts: Vec<String> = Vec::new();
        let mut i: usize = 0;
        while i + 1 < n
            invariant
                0 <= i < n,
                n == self.parts@.len(),
                parts_of(parts@) =~= self@.take(i as int),
            decreases n - i,
        {
            let s: String = self.parts[i].clone();
            let ghost before = parts_of(parts@);
            parts.push(s);
            assert(parts_of(parts@) =~= before.push(self@[i as int]));
            i = i + 1;
        }
        assert(parts_of(parts@) =~= self@.drop_last());
        Some(VPath { parts })
    }

    /// The last component; none for a root, an empty path, or one that ends in
    /// `..`.
    pub fn file_name(&self) -> (r: Option<&str>)
        ensures
            match r {
                Some(n) => self@.len() > 0 && n@ == self@.last() && n@ != "/"@ && n@ != ".."@,
                None => self@.len() == 0 || self@.last() == "/"@ || self@.last() == ".."@,
            },
    {
        let n: usize = self.parts.len();
        if n == 0 {
            return None;
        }
        let last: &str = self.parts[n - 1].as_str();
        assert(self@.last() == last@);
        if str_eq(last, "/") || str_eq(last, "..") {
            None
        } else {
            Some(last)
        }
    }

    /// This path with another last component.
    pub fn with_file_name(&self, name: &str) -> (r: VPath)
        ensures
            r@ == if self@.len() == 0 || self@.last() == "/"@ || self@.last() == ".."@ {
                path_join(self@, name@)
            } else {
                path_join(self@.drop_last(), name@)
            },
    {
        if self.file_name().is_none() {
            return self.join(name);
        }
        match self.parent() {
            Some(p) => p.join(name),
            None => self.join(name),
        }
    }
}

// ---- laws ----

/// Every path lies in itself, and what lies in a path that lies in a third lies
/// in the third.
pub proof fn law_under_is_a_preorder(a: Seq<Seq<char>>, b: Seq<Seq<char>>, c: Seq<Seq<char>>)
    ensures
        is_under(a, a),
        is_under(a, b) && is_under(b, c) ==> is_under(a, c),
{
    assert(a.take(a.len() as int) =~= a);
    if is_under(a, b) && is_under(b, c) {
        assert(a.take(c.len() as int) =~= b.take(c.len() as int));
    }
}

/// A child lies in its directory, and is not its directory.
pub proof fn law_child_is_under(p: Seq<Seq<char>>, dir: Seq<Seq<char>>)
    requires
        is_child(p, dir),
    ensures
        is_under(p, dir),
        p != dir,
{
    assert(p.take(dir.len() as int) =~= p.drop_last());
}

} // verus!
