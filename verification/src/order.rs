//! Stable ordering of a list by key.
//!
//! [`stable_order`] hands back the indices of a list in the order of their
//! keys, indices of equal keys in their original order.

use vstd::prelude::*;
use crate::text::chars_of;

verus! {

/// The lexicographic order on sequences of numbers.
pub open spec fn lex_le(a: Seq<int>, b: Seq<int>) -> bool
    decreases a.len(),
{
    if a.len() == 0 {
        true
    } else if b.len() == 0 {
        false
    } else if a[0] == b[0] {
        lex_le(a.drop_first(), b.drop_first())
    } else {
        a[0] < b[0]
    }
}

proof fn lemma_lex_total(a: Seq<int>, b: Seq<int>)
    ensures
        lex_le(a, b) || lex_le(b, a),
    decreases a.len(),
{
    if a.len() > 0 && b.len() > 0 && a[0] == b[0] {
        lemma_lex_total(a.drop_first(), b.drop_first());
    }
}

proof fn lemma_lex_trans(a: Seq<int>, b: Seq<int>, c: Seq<int>)
    requires
        lex_le(a, b),
        lex_le(b, c),
    ensures
        lex_le(a, c),
    decreases a.len(),
{
    if a.len() > 0 && b.len() > 0 && c.len() > 0 && a[0] == b[0] && b[0] == c[0] {
        lemma_lex_trans(a.drop_first(), b.drop_first(), c.drop_first());
    }
}

/// The order of single numbers and of pairs.
pub proof fn lemma_lex_small(a: int, b: int, c: int, d: int)
    ensures
        lex_le(seq![a], seq![b]) == (a <= b),
        lex_le(seq![a, c], seq![b, d]) == (a < b || (a == b && c <= d)),
{
    assert(seq![a, c].drop_first() =~= seq![c]);
    assert(seq![b, d].drop_first() =~= seq![d]);
    assert(seq![c].drop_first() =~= Seq::<int>::empty());
    assert(seq![a].drop_first() =~= Seq::<int>::empty());
    assert(lex_le(seq![c], seq![d]) == (c <= d)) by {
        if c == d {
            assert(lex_le(seq![c].drop_first(), seq![d].drop_first()));
        }
    }
    if a == b {
        assert(lex_le(seq![a].drop_first(), seq![b].drop_first()));
    }
}

/// A key that lists are ordered by: its rank is compared lexicographically.
pub trait SortKey: Sized {
    spec fn rank(&self) -> Seq<int>;

    fn at_most(&self, other: &Self) -> (r: bool)
        ensures
            r == lex_le(self.rank(), other.rank()),
    ;
}

impl SortKey for i64 {
    open spec fn rank(&self) -> Seq<int> {
        seq![*self as int]
    }

    fn at_most(&self, other: &i64) -> (r: bool) {
        proof {
            lemma_lex_small(*self as int, *other as int, 0, 0);
        }
        *self <= *other
    }
}

/// A pair of numbers is ordered by its first, then by its second number.
impl SortKey for (u32, u32) {
    open spec fn rank(&self) -> Seq<int> {
        seq![self.0 as int, self.1 as int]
    }

    fn at_most(&self, other: &(u32, u32)) -> (r: bool) {
        proof {
            lemma_lex_small(self.0 as int, other.0 as int, self.1 as int, other.1 as int);
        }
        self.0 < other.0 || (self.0 == other.0 && self.1 <= other.1)
    }
}

/// The rank of a string: its code points.
pub open spec fn str_rank(s: Seq<char>) -> Seq<int> {
    s.map_values(|c: char| c as int)
}

impl SortKey for String {
    open spec fn rank(&self) -> Seq<int> {
        str_rank(self@)
    }

    fn at_most(&self, other: &String) -> (r: bool) {
        let x: Vec<char> = chars_of(self.as_str());
        let y: Vec<char> = chars_of(other.as_str());
        let ghost a = str_rank(x@);
        let ghost b = str_rank(y@);
        let mut i: usize = 0;
        assert(a.skip(0) =~= a && b.skip(0) =~= b);
        loop
            invariant
                a == str_rank(x@),
                b == str_rank(y@),
                a == self.rank(),
                b == other.rank(),
                0 <= i <= a.len(),
                i <= b.len(),
                lex_le(a.skip(i as int), b.skip(i as int)) == lex_le(a, b),
            decreases a.len() - i,
        {
            if i >= x.len() {
                return true;
            }
            if i >= y.len() {
                return false;
            }
            assert(a.skip(i as int)[0] == x@[i as int] as int);
            assert(b.skip(i as int)[0] == y@[i as int] as int);
            if x[i] != y[i] {
                return x[i] < y[i];
            }
            assert(a.skip(i as int).drop_first() =~= a.skip(i + 1));
            assert(b.skip(i as int).drop_first() =~= b.skip(i + 1));
            i = i + 1;
        }
    }
}

/// The place for index `x` in the ordered list `ord`: right after the last
/// index whose key does not exceed its key.
pub open spec fn insert_place(keys: Seq<Seq<int>>, ord: Seq<int>, x: int) -> int
    decreases ord.len(),
{
    if ord.len() == 0 {
        0
    } else if lex_le(keys[ord.last()], keys[x]) {
        ord.len() as int
    } else {
        insert_place(keys, ord.drop_last(), x)
    }
}

/// The indices `0..n` in the stable order of their keys.
pub open spec fn order_of(keys: Seq<Seq<int>>, n: nat) -> Seq<int>
    decreases n,
{
    if n == 0 {
        Seq::empty()
    } else {
        let o = order_of(keys, (n - 1) as nat);
        o.insert(insert_place(keys, o, n - 1), n - 1)
    }
}

/// `r` lists each index below `n` once, by key, equal keys by index. At most
/// one list does.
pub open spec fn is_stable_order(keys: Seq<Seq<int>>, n: nat, r: Seq<int>) -> bool {
    &&& r.len() == n
    &&& forall|i: int| 0 <= i < n ==> 0 <= #[trigger] r[i] < n
    &&& forall|i: int| 0 <= i < n ==> r.contains(i)
    &&& forall|i: int, j: int|
        0 <= i < j < n ==> {
            &&& #[trigger] r[i] != #[trigger] r[j]
            &&& lex_le(keys[r[i]], keys[r[j]])
            &&& lex_le(keys[r[j]], keys[r[i]]) ==> r[i] < r[j]
        }
}

proof fn lemma_insert_place(keys: Seq<Seq<int>>, ord: Seq<int>, x: int)
    ensures
        0 <= insert_place(keys, ord, x) <= ord.len(),
        forall|i: int|
            insert_place(keys, ord, x) <= i < ord.len() ==> !lex_le(
                keys[#[trigger] ord[i]],
                keys[x],
            ),
        insert_place(keys, ord, x) > 0 ==> lex_le(
            keys[ord[insert_place(keys, ord, x) - 1]],
            keys[x],
        ),
    decreases ord.len(),
{
    if ord.len() > 0 && !lex_le(keys[ord.last()], keys[x]) {
        lemma_insert_place(keys, ord.drop_last(), x);
        let p = insert_place(keys, ord, x);
        assert forall|i: int| p <= i < ord.len() implies !lex_le(
            keys[#[trigger] ord[i]],
            keys[x],
        ) by {
            if i < ord.len() - 1 {
                assert(ord[i] == ord.drop_last()[i]);
            }
        }
    }
}

/// `order_of` is the stable order.
pub proof fn law_order_of_is_stable(keys: Seq<Seq<int>>, n: nat)
    requires
        n <= keys.len(),
    ensures
        is_stable_order(keys, n, order_of(keys, n)),
    decreases n,
{
    if n > 0 {
        let m = (n - 1) as nat;
        let x = n - 1;
        let o = order_of(keys, m);
        law_order_of_is_stable(keys, m);
        lemma_insert_place(keys, o, x);
        let p = insert_place(keys, o, x);
        let r = o.insert(p, x);
        assert forall|i: int| 0 <= i < n implies r.contains(i) by {
            if i == x {
                assert(r[p] == x);
            } else {
                assert(o.contains(i));
                let k = choose|k: int| 0 <= k < o.len() && o[k] == i;
                if k < p {
                    assert(r[k] == i);
                } else {
                    assert(r[k + 1] == i);
                }
            }
        }
        assert forall|i: int| 0 <= i < p implies lex_le(keys[#[trigger] o[i]], keys[x]) by {
            if i < p - 1 {
                lemma_lex_trans(keys[o[i]], keys[o[p - 1]], keys[x]);
            }
        }
        assert forall|i: int| p <= i < o.len() implies lex_le(keys[x], keys[#[trigger] o[i]]) by {
            lemma_lex_total(keys[x], keys[o[i]]);
        }
        assert forall|i: int, j: int| 0 <= i < j < n implies ({
            &&& #[trigger] r[i] != #[trigger] r[j]
            &&& lex_le(keys[r[i]], keys[r[j]])
            &&& lex_le(keys[r[j]], keys[r[i]]) ==> r[i] < r[j]
        }) by {
            if i < p {
                assert(r[i] == o[i]);
            } else if i > p {
                assert(r[i] == o[i - 1]);
            }
            if j < p {
                assert(r[j] == o[j]);
            } else if j > p {
                assert(r[j] == o[j - 1]);
            }
        }
        assert forall|i: int| 0 <= i < n implies 0 <= #[trigger] r[i] < n by {
            if i < p {
                assert(r[i] == o[i]);
            } else if i > p {
                assert(r[i] == o[i - 1]);
            }
        }
    }
}

/// A list that is already in order keeps its order.
pub proof fn law_sorted_list_keeps_order(keys: Seq<Seq<int>>, n: nat)
    requires
        n <= keys.len(),
        forall|i: int, j: int|
            0 <= i < j < n ==> lex_le(#[trigger] keys[i], #[trigger] keys[j]),
    ensures
        order_of(keys, n) == Seq::new(n, |i: int| i),
    decreases n,
{
    if n > 0 {
        let m = (n - 1) as nat;
        law_sorted_list_keeps_order(keys, m);
        let o = order_of(keys, m);
        if m > 0 {
            assert(o.last() == m - 1);
            assert(lex_le(keys[m - 1], keys[n - 1]));
        }
        assert(insert_place(keys, o, n - 1) == m);
    }
    assert(order_of(keys, n) =~= Seq::new(n, |i: int| i));
}

/// The ranks of a list of keys.
pub open spec fn ranks<K: SortKey>(keys: Seq<K>) -> Seq<Seq<int>> {
    keys.map_values(|k: K| k.rank())
}

/// The indices of `keys` in the stable order of their keys.
pub fn stable_order<K: SortKey>(keys: &Vec<K>) -> (r: Vec<usize>)
    ensures
        r@.len() == keys@.len(),
        r@.map_values(|x: usize| x as int) == order_of(ranks(keys@), keys@.len()),
        forall|i: int| 0 <= i < r@.len() ==> (#[trigger] r@[i]) < keys@.len(),
{
    let mut ord: Vec<usize> = Vec::new();
    let mut n: usize = 0;
    assert(ord@.map_values(|x: usize| x as int) =~= Seq::<int>::empty());
    while n < keys.len()
        invariant
            0 <= n <= keys@.len(),
            ord@.len() == n,
            ord@.map_values(|x: usize| x as int) == order_of(ranks(keys@), n as nat),
            forall|i: int| 0 <= i < ord@.len() ==> (#[trigger] ord@[i]) < n,
        decreases keys@.len() - n,
    {
        let ghost o = ord@.map_values(|x: usize| x as int);
        let mut j: usize = ord.len();
        assert(o.take(j as int) =~= o);
        while j > 0 && !keys[ord[j - 1]].at_most(&keys[n])
            invariant
                0 <= j <= ord@.len(),
                n < keys@.len(),
                o == ord@.map_values(|x: usize| x as int),
                forall|i: int| 0 <= i < ord@.len() ==> (#[trigger] ord@[i]) < n,
                insert_place(ranks(keys@), o, n as int) == insert_place(ranks(keys@), o.take(j as int), n as int),
            decreases j,
        {
            assert(o.take(j as int).drop_last() =~= o.take(j - 1));
            assert(o.take(j as int).last() == ord@[j - 1] as int);
            j = j - 1;
        }
        proof {
            if j > 0 {
                assert(o.take(j as int).last() == ord@[j - 1] as int);
            }
        }
        let ghost before = ord@;
        ord.insert(j, n);
        proof {
            assert(ord@ =~= before.insert(j as int, n));
            assert(ord@.map_values(|x: usize| x as int) =~= o.insert(j as int, n as int));
            assert forall|i: int| 0 <= i < ord@.len() implies (#[trigger] ord@[i]) < n + 1 by {
                if i < j {
                    assert(ord@[i] == before[i]);
                } else if i > j {
                    assert(ord@[i] == before[i - 1]);
                }
            }
        }
        n = n + 1;
    }
    ord
}

/// The items of `v` in the order that `ord` lists them.
pub fn in_order<T>(v: Vec<T>, ord: &Vec<usize>) -> (r: Vec<T>)
    requires
        ord@.len() == v@.len(),
        forall|i: int| 0 <= i < ord@.len() ==> (#[trigger] ord@[i]) < v@.len(),
        forall|i: int, j: int|
            0 <= i < j < ord@.len() ==> (#[trigger] ord@[i]) != (#[trigger] ord@[j]),
    ensures
        r@ == Seq::new(v@.len(), |k: int| v@[ord@[k] as int]),
{
    let ghost all = v@;
    let mut slots: Vec<Option<T>> = Vec::new();
    for x in it: v
        invariant
            it.seq() == all,
            slots@.len() == it.index(),
            forall|k: int| 0 <= k < slots@.len() ==> #[trigger] slots@[k] == Some(all[k]),
    {
        slots.push(Some(x));
    }
    let mut r: Vec<T> = Vec::new();
    let mut i: usize = 0;
    while i < ord.len()
        invariant
            0 <= i <= ord@.len(),
            ord@.len() == all.len(),
            slots@.len() == all.len(),
            forall|k: int| 0 <= k < ord@.len() ==> (#[trigger] ord@[k]) < all.len(),
            forall|k: int, j: int|
                0 <= k < j < ord@.len() ==> (#[trigger] ord@[k]) != (#[trigger] ord@[j]),
            forall|k: int| i <= k < ord@.len() ==> slots@[(#[trigger] ord@[k]) as int] == Some(
                all[ord@[k] as int],
            ),
            r@ == Seq::new(i as nat, |k: int| all[ord@[k] as int]),
        decreases ord@.len() - i,
    {
        let at: usize = ord[i];
        let x: Option<T> = slots[at].take();
        match x {
            Some(x) => {
                r.push(x);
            },
            None => {
                assert(false);
            },
        }
        i = i + 1;
        assert(r@ =~= Seq::new(i as nat, |k: int| all[ord@[k] as int]));
    }
    r
}

} // verus!
