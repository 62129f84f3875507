//! A stable insertion sort that orders items by a `u64` key, largest key first.
//!
//! The order it produces is pinned down completely: the keys end up in non-increasing
//! order, and items with equal keys keep the order they had before.
use vstd::prelude::*;

verus! {

broadcast use vstd::seq_lib::group_to_multiset_ensures;

/// `p` is a permutation of `0..n`: every position holds a distinct index below `n`.
pub open spec fn is_permutation(p: Seq<int>, n: nat) -> bool {
    &&& p.len() == n
    &&& forall|i: int| 0 <= i < n ==> 0 <= #[trigger] p[i] < n
    &&& forall|i: int, j: int| 0 <= i < j < n ==> p[i] != p[j]
}

/// `new` is `old` rearranged by the permutation `p`, keys sorted largest first,
/// and items with equal keys in their former relative order.
pub open spec fn stable_desc_by(old_keys: Seq<u64>, new_keys: Seq<u64>, p: Seq<int>) -> bool {
    &&& is_permutation(p, old_keys.len())
    &&& new_keys.len() == old_keys.len()
    &&& forall|i: int| 0 <= i < new_keys.len() ==> #[trigger] new_keys[i] == old_keys[p[i]]
    &&& forall|i: int, j: int|
        #![trigger new_keys[i], new_keys[j]]
        0 <= i < j < new_keys.len() ==> new_keys[i] > new_keys[j] || (new_keys[i] == new_keys[j]
            && p[i] < p[j])
}

proof fn lemma_insert_multiset<A>(s: Seq<A>, j: int, x: A)
    requires
        0 <= j <= s.len(),
    ensures
        s.insert(j, x).to_multiset() =~= s.to_multiset().insert(x),
{
    let t = s.insert(j, x);
    assert(t.remove(j) =~= s);
    assert(t[j] == x);
    assert(t.remove(j).to_multiset() =~= t.to_multiset().remove(x));
    assert(t.to_multiset().count(x) > 0) by {
        assert(t.contains(x));
    }
}

/// Sorts `items` together with their `keys`, largest key first; equal keys keep their order.
pub fn sort_desc_stable<T>(items: &mut Vec<T>, keys: &mut Vec<u64>)
    requires
        old(items).len() == old(keys).len(),
    ensures
        final(items).len() == old(items).len(),
        final(items)@.to_multiset() == old(items)@.to_multiset(),
        exists|p: Seq<int>|
            #![trigger is_permutation(p, old(items)@.len())]
            stable_desc_by(old(keys)@, final(keys)@, p) && forall|i: int|
                0 <= i < old(items)@.len() ==> #[trigger] final(items)@[i] == old(items)@[p[i]],
{
    let n = items.len();
    let ghost items0 = items@;
    let ghost keys0 = keys@;
    let ghost mut p: Seq<int> = Seq::new(n as nat, |i: int| i);
    let mut i: usize = 0;
    while i < n
        invariant
            0 <= i <= n,
            n == items.len(),
            n == keys.len(),
            n == items0.len(),
            n == keys0.len(),
            items@.to_multiset() == items0.to_multiset(),
            is_permutation(p, n as nat),
            forall|q: int| 0 <= q < n ==> #[trigger] items@[q] == items0[p[q]],
            forall|q: int| 0 <= q < n ==> #[trigger] keys@[q] == keys0[p[q]],
            forall|q: int| i <= q < n ==> #[trigger] p[q] == q,
            forall|q: int| 0 <= q < i ==> #[trigger] p[q] < i,
            forall|a: int, b: int|
                #![trigger keys@[a], keys@[b]]
                0 <= a < b < i ==> keys@[a] > keys@[b] || (keys@[a] == keys@[b] && p[a] < p[b]),
        decreases n - i,
    {
        let k = keys[i];
        let mut j: usize = i;
        while j > 0 && keys[j - 1] < k
            invariant
                0 <= j <= i < n,
                n == keys.len(),
                forall|q: int| j <= q < i ==> #[trigger] keys@[q] < k,
            decreases j,
        {
            j = j - 1;
        }
        let ghost items_before = items@;
        let ghost keys_before = keys@;
        let ghost p_before = p;
        let x = items.remove(i);
        items.insert(j, x);
        let kx = keys.remove(i);
        keys.insert(j, kx);
        proof {
            lemma_insert_multiset(items_before.remove(i as int), j as int, x);
            p = p_before.remove(i as int).insert(j as int, i as int);
            assert forall|q: int| 0 <= q < n implies #[trigger] items@[q] == items0[p[q]] by {
                if q < j {
                } else if q == j {
                } else if q <= i {
                    assert(items@[q] == items_before[q - 1]);
                } else {
                }
            }
            assert forall|q: int| 0 <= q < n implies #[trigger] keys@[q] == keys0[p[q]] by {
                if q < j {
                } else if q == j {
                } else if q <= i {
                    assert(keys@[q] == keys_before[q - 1]);
                } else {
                }
            }
            assert forall|a: int, b: int| 0 <= a < b < n implies p[a] != p[b] by {
                let oa = if a < j { a } else if a == j { i as int } else if a <= i { a - 1 } else { a };
                let ob = if b < j { b } else if b == j { i as int } else if b <= i { b - 1 } else { b };
                assert(p[a] == p_before[oa]);
                assert(p[b] == p_before[ob]);
            }
            assert forall|q: int| 0 <= q < n implies 0 <= #[trigger] p[q] < n by {
                let oq = if q < j { q } else if q == j { i as int } else if q <= i { q - 1 } else { q };
                assert(p[q] == p_before[oq]);
            }
            assert forall|a: int, b: int|
                #![trigger keys@[a], keys@[b]]
                0 <= a < b < i + 1 implies keys@[a] > keys@[b] || (keys@[a] == keys@[b] && p[a]
                    < p[b]) by {
                let oa = if a < j { a } else if a == j { i as int } else { a - 1 };
                let ob = if b < j { b } else if b == j { i as int } else { b - 1 };
                assert(keys@[a] == keys_before[oa]);
                assert(keys@[b] == keys_before[ob]);
                assert(p[a] == p_before[oa]);
                assert(p[b] == p_before[ob]);
                if a == j {
                    // keys_before[b - 1] for b in (j, i] is below k
                    assert(keys_before[ob] < k);
                } else if b == j {
                    if j > 0 {
                        assert(keys_before[j - 1] >= k);
                        if a < j - 1 {
                            assert(keys_before[a] > keys_before[j - 1] || keys_before[a]
                                == keys_before[j - 1]);
                        }
                    }
                }
            }
        }
        i = i + 1;
    }
    proof {
        assert(stable_desc_by(keys0, keys@, p));
        assert(is_permutation(p, items0.len()));
    }
}

} // verus!
