//! What the order of keys is.

use vstd::prelude::*;
use crate::order::{law_order_of_is_stable, lex_le, order_of};

verus! {

/// `a` and `b` agree up to `k`.
pub open spec fn agree_upto(a: Seq<int>, b: Seq<int>, k: int) -> bool {
    &&& 0 <= k <= a.len()
    &&& k <= b.len()
    &&& forall|i: int| 0 <= i < k ==> #[trigger] a[i] == b[i]
}

/// `a` comes before `b` in a dictionary, or is `b`: at the first place where they differ `a`
/// is smaller, or `a` ends there.
pub open spec fn dictionary_le(a: Seq<int>, b: Seq<int>) -> bool {
    exists|k: int| #[trigger]
        agree_upto(a, b, k) && (k == a.len() || (k < b.len() && a[k] < b[k]))
}

/// Keys are ordered as in a dictionary.
pub proof fn law_keys_are_in_dictionary_order(a: Seq<int>, b: Seq<int>)
    ensures
        lex_le(a, b) <==> dictionary_le(a, b),
    decreases a.len(),
{
    if a.len() == 0 {
        assert(agree_upto(a, b, 0));
    } else if b.len() > 0 {
        let (c, d) = (a.drop_first(), b.drop_first());
        law_keys_are_in_dictionary_order(c, d);
        if a[0] == b[0] {
            if dictionary_le(c, d) {
                let k = choose|k: int| #[trigger]
                    agree_upto(c, d, k) && (k == c.len() || (k < d.len() && c[k] < d[k]));
                assert forall|i: int| 0 <= i < k + 1 implies #[trigger] a[i] == b[i] by {
                    if i > 0 {
                        assert(c[i - 1] == d[i - 1]);
                    }
                }
                assert(agree_upto(a, b, k + 1));
            }
            if dictionary_le(a, b) {
                let k = choose|k: int| #[trigger]
                    agree_upto(a, b, k) && (k == a.len() || (k < b.len() && a[k] < b[k]));
                assert forall|i: int| 0 <= i < k - 1 implies #[trigger] c[i] == d[i] by {
                    assert(a[i + 1] == b[i + 1]);
                }
                assert(agree_upto(c, d, k - 1));
            }
        } else {
            assert(agree_upto(a, b, 0));
            if dictionary_le(a, b) {
                let k = choose|k: int| #[trigger]
                    agree_upto(a, b, k) && (k == a.len() || (k < b.len() && a[k] < b[k]));
                if k > 0 {
                    assert(a[0] == b[0]);
                }
            }
        }
    } else if dictionary_le(a, b) {
        let k = choose|k: int| #[trigger]
            agree_upto(a, b, k) && (k == a.len() || (k < b.len() && a[k] < b[k]));
        assert(k == 0);
    }
}

/// Sorting lists every key once, smaller ones first, and equal ones as they stood.
pub proof fn law_sorting_orders_the_keys(keys: Seq<Seq<int>>, i: int, j: int)
    requires
        0 <= i < j < keys.len(),
    ensures
        ({
            let r = order_of(keys, keys.len());
            &&& r.len() == keys.len()
            &&& 0 <= r[i] < keys.len() && 0 <= r[j] < keys.len() && r[i] != r[j]
            &&& r.contains(i)
            &&& dictionary_le(keys[r[i]], keys[r[j]])
            &&& keys[r[i]] == keys[r[j]] ==> r[i] < r[j]
        }),
{
    law_order_of_is_stable(keys, keys.len());
    let r = order_of(keys, keys.len());
    law_keys_are_in_dictionary_order(keys[r[i]], keys[r[j]]);
    law_keys_are_in_dictionary_order(keys[r[j]], keys[r[i]]);
    if keys[r[i]] == keys[r[j]] {
        let k = keys[r[i]].len() as int;
        assert(agree_upto(keys[r[j]], keys[r[i]], k));
    }
}

} // verus!
