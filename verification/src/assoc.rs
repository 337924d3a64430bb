//! A map from strings to values.

use vstd::prelude::*;
use crate::text::str_eq;

verus! {

/// A map keyed by strings that remembers the order in which its keys first came.
pub struct AssocMap<V> {
    keys: Vec<String>,
    values: Vec<V>,
}

/// The map that pairs each key with the value at the same index.
pub open spec fn zip_map<V>(keys: Seq<String>, values: Seq<V>) -> Map<Seq<char>, V>
    decreases keys.len(),
{
    if keys.len() == 0 || keys.len() != values.len() {
        Map::empty()
    } else {
        zip_map(keys.drop_last(), values.drop_last()).insert(keys.last()@, values.last())
    }
}

/// No key occurs twice.
pub open spec fn distinct_keys(keys: Seq<String>) -> bool {
    forall|i: int, j: int|
        0 <= i < j < keys.len() ==> (#[trigger] keys[i])@ != (#[trigger] keys[j])@
}

proof fn lemma_zip_map<V>(keys: Seq<String>, values: Seq<V>)
    requires
        distinct_keys(keys),
        keys.len() == values.len(),
    ensures
        forall|i: int|
            0 <= i < keys.len() ==> zip_map(keys, values).dom().contains((#[trigger] keys[i])@)
                && zip_map(keys, values)[keys[i]@] == values[i],
        forall|k: Seq<char>|
            zip_map(keys, values).dom().contains(k) ==> exists|i: int|
                0 <= i < keys.len() && (#[trigger] keys[i])@ == k,
        zip_map(keys, values).dom().finite(),
        zip_map(keys, values).dom().len() == keys.len(),
    decreases keys.len(),
{
    if keys.len() > 0 {
        let pk = keys.drop_last();
        let pv = values.drop_last();
        let m = zip_map(pk, pv);
        assert(distinct_keys(pk)) by {
            assert forall|i: int, j: int| 0 <= i < j < pk.len() implies (#[trigger] pk[i])@ != (
            #[trigger] pk[j])@ by {
                assert(keys[i]@ != keys[j]@);
            }
        }
        lemma_zip_map(pk, pv);
        let last = keys.last()@;
        assert(!m.dom().contains(last)) by {
            if m.dom().contains(last) {
                let i = choose|i: int| 0 <= i < pk.len() && (#[trigger] pk[i])@ == last;
                assert(keys[i]@ != keys[keys.len() - 1]@);
            }
        }
        assert forall|i: int| 0 <= i < keys.len() implies zip_map(keys, values).dom().contains(
            (#[trigger] keys[i])@,
        ) && zip_map(keys, values)[keys[i]@] == values[i] by {
            if i < pk.len() {
                assert(pk[i]@ == keys[i]@);
                assert(keys[i]@ != keys[keys.len() - 1]@);
            }
        }
        assert forall|k: Seq<char>| zip_map(keys, values).dom().contains(k) implies exists|i: int|
            0 <= i < keys.len() && (#[trigger] keys[i])@ == k by {
            if k == last {
                assert(keys[keys.len() - 1]@ == k);
            } else {
                let i = choose|i: int| 0 <= i < pk.len() && (#[trigger] pk[i])@ == k;
                assert(keys[i]@ == k);
            }
        }
    }
}

impl<V> AssocMap<V> {
    /// The mapping.
    pub closed spec fn view(&self) -> Map<Seq<char>, V> {
        zip_map(self.keys@, self.values@)
    }

    /// The keys, in the order in which they first came.
    pub closed spec fn key_order(&self) -> Seq<Seq<char>> {
        self.keys@.map_values(|k: String| k@)
    }

    #[verifier::type_invariant]
    spec fn inv(&self) -> bool {
        &&& self.keys@.len() == self.values@.len()
        &&& distinct_keys(self.keys@)
    }

    /// The empty map.
    pub fn new() -> (r: Self)
        ensures
            r.view() == Map::<Seq<char>, V>::empty(),
            r.key_order() == Seq::<Seq<char>>::empty(),
    {
        let r = AssocMap { keys: Vec::new(), values: Vec::new() };
        assert(r.key_order() =~= Seq::<Seq<char>>::empty());
        r
    }

    /// Where `key` stands.
    fn find(&self, key: &str) -> (r: Option<usize>)
        ensures
            match r {
                Some(i) => i < self.keys@.len() && self.keys@[i as int]@ == key@,
                None => forall|i: int|
                    0 <= i < self.keys@.len() ==> (#[trigger] self.keys@[i])@ != key@,
            },
    {
        let mut i: usize = 0;
        while i < self.keys.len()
            invariant
                0 <= i <= self.keys@.len(),
                forall|k: int| 0 <= k < i ==> (#[trigger] self.keys@[k])@ != key@,
            decreases self.keys@.len() - i,
        {
            if str_eq(self.keys[i].as_str(), key) {
                return Some(i);
            }
            i = i + 1;
        }
        None
    }

    /// The value of `key`.
    pub fn get(&self, key: &str) -> (r: Option<&V>)
        ensures
            r is Some <==> self.view().dom().contains(key@),
            r matches Some(v) ==> *v == self.view()[key@],
    {
        proof {
            use_type_invariant(self);
            lemma_zip_map(self.keys@, self.values@);
        }
        match self.find(key) {
            Some(i) => Some(&self.values[i]),
            None => None,
        }
    }

    /// How many keys there are. The key order lists the mapped keys, each once.
    pub fn len(&self) -> (r: usize)
        ensures
            r == self.view().dom().len(),
            self.view().dom().finite(),
            r == self.key_order().len(),
            forall|i: int|
                0 <= i < self.key_order().len() ==> self.view().dom().contains(
                    #[trigger] self.key_order()[i],
                ),
            forall|k: Seq<char>| #[trigger]
                self.view().dom().contains(k) ==> exists|i: int|
                    0 <= i < self.key_order().len() && #[trigger] self.key_order()[i] == k,
            forall|i: int, j: int|
                0 <= i < j < self.key_order().len() ==> #[trigger] self.key_order()[i]
                    != #[trigger] self.key_order()[j],
    {
        proof {
            use_type_invariant(self);
            lemma_zip_map(self.keys@, self.values@);
            assert forall|k: Seq<char>| #[trigger]
                self.view().dom().contains(k) implies exists|i: int|
                0 <= i < self.key_order().len() && #[trigger] self.key_order()[i] == k by {
                let i = choose|i: int|
                    0 <= i < self.keys@.len() && (#[trigger] self.keys@[i])@ == k;
                assert(self.key_order()[i] == k);
            }
            assert forall|i: int, j: int| 0 <= i < j < self.key_order().len() implies
                #[trigger] self.key_order()[i] != #[trigger] self.key_order()[j] by {
                assert(self.keys@[i]@ != self.keys@[j]@);
            }
        }
        self.keys.len()
    }

    /// The `i`th key.
    pub fn key_at(&self, i: usize) -> (r: &str)
        requires
            i < self.key_order().len(),
        ensures
            r@ == self.key_order()[i as int],
    {
        self.keys[i].as_str()
    }

    /// Maps `key` to `value`, in place of its former value if it had one.
    pub fn insert(&mut self, key: &str, value: V)
        ensures
            final(self).view() == old(self).view().insert(key@, value),
            final(self).key_order() == if old(self).view().dom().contains(key@) {
                old(self).key_order()
            } else {
                old(self).key_order().push(key@)
            },
    {
        proof {
            use_type_invariant(&*self);
            lemma_zip_map(self.keys@, self.values@);
        }
        let found = self.find(key);
        let ghost okeys = self.keys@;
        let ghost ovalues = self.values@;
        let mut taken: AssocMap<V> = AssocMap::new();
        std::mem::swap(&mut taken, self);
        let AssocMap { mut keys, mut values } = taken;
        match found {
            Some(i) => {
                values[i] = value;
                proof {
                    lemma_zip_map(keys@, values@);
                    assert(values@ == ovalues.update(i as int, value));
                    assert(zip_map(keys@, values@) =~= zip_map(okeys, ovalues).insert(key@, value))
                        by {
                        let a = zip_map(keys@, values@);
                        let b = zip_map(okeys, ovalues).insert(key@, value);
                        assert forall|k: Seq<char>| a.dom().contains(k) implies b.dom().contains(k)
                            && a[k] == b[k] by {
                            let j = choose|j: int|
                                0 <= j < keys@.len() && (#[trigger] keys@[j])@ == k;
                            if j < i {
                                assert(keys@[j]@ != keys@[i as int]@);
                            } else if j > i {
                                assert(keys@[i as int]@ != keys@[j]@);
                            }
                        }
                        assert forall|k: Seq<char>| b.dom().contains(k) implies a.dom().contains(
                            k,
                        ) by {
                            if k != key@ {
                                let j = choose|j: int|
                                    0 <= j < okeys.len() && (#[trigger] okeys[j])@ == k;
                                assert(keys@[j]@ == k);
                            }
                        }
                    }
                }
            },
            None => {
                let owned: String = key.to_owned();
                keys.push(owned);
                values.push(value);
                proof {
                    assert(keys@.drop_last() =~= okeys);
                    assert(values@.drop_last() =~= ovalues);
                    assert(keys@.map_values(|k: String| k@) =~= okeys.map_values(
                        |k: String| k@,
                    ).push(key@));
                }
            },
        }
        *self = AssocMap { keys, values };
    }

    /// Forgets `key`; the other keys keep their order.
    pub fn remove(&mut self, key: &str)
        ensures
            final(self).view() == old(self).view().remove(key@),
    {
        proof {
            use_type_invariant(&*self);
            lemma_zip_map(self.keys@, self.values@);
        }
        let found = self.find(key);
        if let Some(i) = found {
            let ghost okeys = self.keys@;
            let ghost ovalues = self.values@;
            let mut taken: AssocMap<V> = AssocMap::new();
            std::mem::swap(&mut taken, self);
            let AssocMap { mut keys, mut values } = taken;
            let _ = keys.remove(i);
            let _ = values.remove(i);
            proof {
                assert(keys@ == okeys.remove(i as int));
                assert(values@ == ovalues.remove(i as int));
                assert forall|a: int, b: int| 0 <= a < b < keys@.len() implies (
                #[trigger] keys@[a])@ != (#[trigger] keys@[b])@ by {
                    let a2 = if a < i {
                        a
                    } else {
                        a + 1
                    };
                    let b2 = if b < i {
                        b
                    } else {
                        b + 1
                    };
                    assert(okeys[a2]@ != okeys[b2]@);
                }
                lemma_zip_map(keys@, values@);
                let m = zip_map(keys@, values@);
                let o = zip_map(okeys, ovalues).remove(key@);
                assert forall|k: Seq<char>| m.dom().contains(k) implies o.dom().contains(k) && m[k]
                    == o[k] by {
                    let j = choose|j: int| 0 <= j < keys@.len() && (#[trigger] keys@[j])@ == k;
                    let j2 = if j < i {
                        j
                    } else {
                        j + 1
                    };
                    assert(okeys[j2]@ == k);
                    if j2 < i {
                        assert(okeys[j2]@ != okeys[i as int]@);
                    } else {
                        assert(okeys[i as int]@ != okeys[j2]@);
                    }
                }
                assert forall|k: Seq<char>| o.dom().contains(k) implies m.dom().contains(k) by {
                    let j = choose|j: int| 0 <= j < okeys.len() && (#[trigger] okeys[j])@ == k;
                    if j < i {
                        assert(keys@[j]@ == k);
                    } else {
                        assert(keys@[j - 1]@ == k);
                    }
                }
                assert(m =~= o);
            }
            *self = AssocMap { keys, values };
        } else {
            proof {
                let o = zip_map(self.keys@, self.values@);
                assert(!o.dom().contains(key@));
                assert(o.remove(key@) =~= o);
            }
        }
    }
}

} // verus!
