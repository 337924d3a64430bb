//! Planning an asset bundle: which files go into it, and under which keys.
//!
//! An entry is keyed by its file's own name, whatever directory it lies in. Two
//! files of one name would collide, so a bundle with such files is refused.

use vstd::prelude::*;
use crate::order::{order_of, ranks, stable_order, str_rank};
use crate::text::str_eq;

verus! {

/// What to do with a list of files.
pub enum BundlePlan {
    /// Pack these files, by index, in this order.
    Pack(Vec<usize>),
    /// Refuse: each group of files, by index, shares one name.
    Refuse(Vec<Vec<usize>>),
}

/// The model of the files' names: a path without a file name has none.
pub open spec fn names_of(names: Seq<Option<String>>) -> Seq<Option<Seq<char>>> {
    names.map_values(
        |n: Option<String>|
            match n {
                Some(s) => Some(s@),
                None => None::<Seq<char>>,
            },
    )
}

/// The files below `n` that have a name.
pub open spec fn named(names: Seq<Option<Seq<char>>>, n: nat) -> Seq<int>
    decreases n,
{
    if n == 0 {
        Seq::empty()
    } else if names[n - 1] is Some {
        named(names, (n - 1) as nat).push(n - 1)
    } else {
        named(names, (n - 1) as nat)
    }
}

/// The files below `n` of name `key`.
pub open spec fn holders(names: Seq<Option<Seq<char>>>, key: Seq<char>, n: nat) -> Seq<int>
    decreases n,
{
    if n == 0 {
        Seq::empty()
    } else if names[n - 1] == Some(key) {
        holders(names, key, (n - 1) as nat).push(n - 1)
    } else {
        holders(names, key, (n - 1) as nat)
    }
}

/// Whether a name is shared by two files.
pub open spec fn ambiguous(names: Seq<Option<Seq<char>>>) -> bool {
    exists|i: int, j: int|
        0 <= i < j < names.len() && names[i] is Some && #[trigger] names[i] == #[trigger] names[j]
}

/// What files are ordered by: their names.
pub open spec fn file_ranks(names: Seq<Option<Seq<char>>>, files: Seq<int>) -> Seq<Seq<int>> {
    Seq::new(files.len(), |k: int| str_rank(names[files[k]]->0))
}

/// The named files in the order of their names.
pub open spec fn pack_order(names: Seq<Option<Seq<char>>>) -> Seq<int> {
    let files = named(names, names.len());
    let ord = order_of(file_ranks(names, files), files.len());
    Seq::new(files.len(), |k: int| files[ord[k]])
}

pub open spec fn as_ints(v: Seq<usize>) -> Seq<int> {
    v.map_values(|x: usize| x as int)
}

/// `groups` lists the shared names, each once: a group holds all the files of one
/// name, two or more, and every file whose name is shared is in one.
pub open spec fn lists_collisions(names: Seq<Option<Seq<char>>>, groups: Seq<Seq<int>>) -> bool {
    &&& forall|g: int|
        0 <= g < groups.len() ==> (#[trigger] groups[g]).len() > 1 && names[groups[g][0]] is Some
            && groups[g] == holders(names, names[groups[g][0]]->0, names.len())
    &&& forall|g: int, h: int|
        0 <= g < h < groups.len() ==> names[(#[trigger] groups[g])[0]] != names[(
        #[trigger] groups[h])[0]]
    &&& forall|i: int, j: int|
        0 <= i < j < names.len() && names[i] is Some && #[trigger] names[i] == #[trigger] names[j]
            ==> exists|g: int| 0 <= g < groups.len() && (#[trigger] groups[g]).contains(i)
}

proof fn lemma_holders(names: Seq<Option<Seq<char>>>, key: Seq<char>, n: nat)
    requires
        n <= names.len(),
    ensures
        forall|k: int|
            0 <= k < holders(names, key, n).len() ==> 0 <= #[trigger] holders(names, key, n)[k] < n
                && names[holders(names, key, n)[k]] == Some(key),
        forall|i: int| 0 <= i < n && names[i] == Some(key) ==> holders(names, key, n).contains(i),
        forall|a: int, b: int|
            0 <= a < b < holders(names, key, n).len() ==> #[trigger] holders(names, key, n)[a]
                < #[trigger] holders(names, key, n)[b],
    decreases n,
{
    if n > 0 {
        lemma_holders(names, key, (n - 1) as nat);
        let p = holders(names, key, (n - 1) as nat);
        let h = holders(names, key, n);
        assert forall|i: int| 0 <= i < n && names[i] == Some(key) implies h.contains(i) by {
            if i < n - 1 {
                assert(p.contains(i));
                let k = choose|k: int| 0 <= k < p.len() && p[k] == i;
                assert(h[k] == i);
            } else {
                assert(h[h.len() - 1] == i);
            }
        }
    }
}

/// The files of name `key`.
fn holders_of(names: &Vec<Option<String>>, key: &str) -> (r: Vec<usize>)
    ensures
        as_ints(r@) == holders(names_of(names@), key@, names@.len()),
{
    let mut out: Vec<usize> = Vec::new();
    let ghost ns = names_of(names@);
    let mut i: usize = 0;
    assert(as_ints(out@) =~= holders(ns, key@, 0));
    while i < names.len()
        invariant
            0 <= i <= names@.len(),
            ns == names_of(names@),
            as_ints(out@) == holders(ns, key@, i as nat),
        decreases names@.len() - i,
    {
        let ghost before = as_ints(out@);
        if let Some(s) = &names[i] {
            assert(ns[i as int] == Some(s@));
            if str_eq(s.as_str(), key) {
                out.push(i);
                assert(as_ints(out@) =~= before.push(i as int));
            }
        }
        i = i + 1;
    }
    out
}

/// Plans a bundle of the files with these names (`None` for a path without a
/// file name, which is left out). If no name is shared, the files are packed in
/// the order of their names; else the bundle is refused.
pub fn plan_bundle(names: &Vec<Option<String>>) -> (r: BundlePlan)
    ensures
        match r {
            BundlePlan::Pack(files) => !ambiguous(names_of(names@)) && as_ints(files@)
                == pack_order(names_of(names@)),
            BundlePlan::Refuse(groups) => ambiguous(names_of(names@)) && lists_collisions(
                names_of(names@),
                groups@.map_values(|g: Vec<usize>| as_ints(g@)),
            ),
        },
{
    let ghost ns = names_of(names@);
    let mut groups: Vec<Vec<usize>> = Vec::new();
    let mut files: Vec<usize> = Vec::new();
    let mut keys: Vec<String> = Vec::new();
    let mut i: usize = 0;
    assert(as_ints(files@) =~= named(ns, 0));
    while i < names.len()
        invariant
            0 <= i <= names@.len(),
            ns == names_of(names@),
            as_ints(files@) == named(ns, i as nat),
            keys@.len() == files@.len(),
            forall|k: int| 0 <= k < files@.len() ==> (#[trigger] files@[k]) < i,
            forall|k: int|
                0 <= k < keys@.len() ==> ns[files@[k] as int] == Some((#[trigger] keys@[k])@),
            forall|g: int|
                0 <= g < groups@.len() ==> ({
                    let h = as_ints((#[trigger] groups@[g])@);
                    &&& h.len() > 1
                    &&& 0 <= h[0] < i
                    &&& ns[h[0]] is Some
                    &&& h == holders(ns, ns[h[0]]->0, ns.len())
                }),
            forall|g: int, h: int|
                0 <= g < h < groups@.len() ==> ns[as_ints((#[trigger] groups@[g])@)[0]]
                    != ns[as_ints((#[trigger] groups@[h])@)[0]],
            forall|a: int, b: int|
                0 <= a < i && a < b < ns.len() && ns[a] is Some && #[trigger] ns[a]
                    == #[trigger] ns[b] ==> exists|g: int|
                    0 <= g < groups@.len() && as_ints((#[trigger] groups@[g])@).contains(a),
        decreases names@.len() - i,
    {
        let ghost old_files = as_ints(files@);
        let ghost old_groups = groups@;
        if let Some(s) = &names[i] {
            assert(ns[i as int] == Some(s@));
            let h: Vec<usize> = holders_of(names, s.as_str());
            let ghost hv = as_ints(h@);
            proof {
                lemma_holders(ns, s@, ns.len());
                assert(hv.contains(i as int));
            }
            let owned: String = s.clone();
            keys.push(owned);
            files.push(i);
            assert(as_ints(files@) =~= old_files.push(i as int));
            if h.len() > 1 && h[0] == i {
                assert(hv[0] == h@[0] as int);
                groups.push(h);
                proof {
                    assert(groups@[groups@.len() - 1]@ == h@);
                    assert(groups@ =~= old_groups.push(h));
                    assert forall|g: int| 0 <= g < old_groups.len() implies ns[as_ints(
                        (#[trigger] old_groups[g])@,
                    )[0]] != ns[hv[0]] by {
                        let og = as_ints(old_groups[g]@);
                        assert(og[0] < i);
                        assert(og == holders(ns, ns[og[0]]->0, ns.len()));
                    }
                }
            }
            proof {
                assert forall|a: int, b: int|
                    0 <= a < i + 1 && a < b < ns.len() && ns[a] is Some && #[trigger] ns[a]
                        == #[trigger] ns[b] implies exists|g: int|
                    0 <= g < groups@.len() && as_ints((#[trigger] groups@[g])@).contains(a) by {
                    if a < i {
                        let g = choose|g: int|
                            0 <= g < old_groups.len() && as_ints(
                                (#[trigger] old_groups[g])@,
                            ).contains(a);
                        assert(groups@[g] == old_groups[g]);
                    } else {
                        // The name of file `a` is also that of file `b`, and of `hv[0]`.
                        assert(hv.contains(a) && hv.contains(b));
                        let first = hv[0];
                        if first < a {
                            assert(ns[first] == ns[a]);
                            let g = choose|g: int|
                                0 <= g < old_groups.len() && as_ints(
                                    (#[trigger] old_groups[g])@,
                                ).contains(first);
                            let og = as_ints(old_groups[g]@);
                            let key = ns[og[0]]->0;
                            lemma_holders(ns, key, ns.len());
                            assert(ns[first] == Some(key));
                            assert(og.contains(a));
                            assert(groups@[g] == old_groups[g]);
                        } else {
                            assert(hv.len() > 1) by {
                                let ka = choose|k: int| 0 <= k < hv.len() && hv[k] == a;
                                let kb = choose|k: int| 0 <= k < hv.len() && hv[k] == b;
                                assert(ka != kb);
                            }
                            assert(first == a) by {
                                let ka = choose|k: int| 0 <= k < hv.len() && hv[k] == a;
                                if ka > 0 {
                                    assert(hv[0] < hv[ka]);
                                }
                            }
                            assert(h@[0] as int == hv[0]);
                            let last = groups@.len() - 1;
                            assert(as_ints(groups@[last]@).contains(a));
                        }
                    }
                }
            }
        } else {
            assert(ns[i as int] is None);
        }
        i = i + 1;
    }
    if groups.len() > 0 {
        proof {
            let h = as_ints(groups@[0]@);
            lemma_holders(ns, ns[h[0]]->0, ns.len());
            assert(h[0] < h[1]);
            assert(ns[h[0]] == ns[h[1]]);
            let gs = groups@.map_values(|g: Vec<usize>| as_ints(g@));
            assert forall|a: int, b: int|
                0 <= a < b < ns.len() && ns[a] is Some && #[trigger] ns[a] == #[trigger] ns[b]
                implies exists|g: int| 0 <= g < gs.len() && (#[trigger] gs[g]).contains(a) by {
                let g = choose|g: int|
                    0 <= g < groups@.len() && as_ints((#[trigger] groups@[g])@).contains(a);
                assert(gs[g].contains(a));
            }
        }
        return BundlePlan::Refuse(groups);
    }
    let ord: Vec<usize> = stable_order(&keys);
    let ghost fs = named(ns, ns.len());
    proof {
        assert(ranks(keys@) =~= file_ranks(ns, fs)) by {
            assert forall|k: int| 0 <= k < keys@.len() implies ranks(keys@)[k] == str_rank(
                ns[fs[k]]->0,
            ) by {
                assert(as_ints(files@)[k] == files@[k] as int);
                assert(ns[files@[k] as int] == Some(keys@[k]@));
            }
        }
    }
    let mut out: Vec<usize> = Vec::new();
    let mut k: usize = 0;
    let ghost want = pack_order(ns);
    assert(as_ints(out@) =~= want.take(0));
    while k < ord.len()
        invariant
            0 <= k <= ord@.len(),
            ord@.len() == files@.len(),
            fs == as_ints(files@),
            fs.len() == files@.len(),
            fs == named(ns, ns.len()),
            want == pack_order(ns),
            forall|j: int| 0 <= j < ord@.len() ==> (#[trigger] ord@[j]) < files@.len(),
            ord@.map_values(|x: usize| x as int) == order_of(
                file_ranks(ns, fs),
                fs.len(),
            ),
            as_ints(out@) == want.take(k as int),
        decreases ord@.len() - k,
    {
        let at: usize = ord[k];
        assert(ord@.map_values(|x: usize| x as int)[k as int] == at as int);
        assert(fs[at as int] == files@[at as int] as int);
        assert(want[k as int] == files@[at as int] as int);
        let ghost before = as_ints(out@);
        out.push(files[at]);
        assert(as_ints(out@) =~= before.push(files@[at as int] as int));
        k = k + 1;
        assert(as_ints(out@) =~= want.take(k as int));
    }
    assert(want.take(k as int) =~= want);
    BundlePlan::Pack(out)
}

} // verus!
