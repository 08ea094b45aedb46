//! Small sorted-vector dictionaries keyed by raw type ids.
//!
//! Per-chunk and per-archetype type tables hold a handful of entries, so they
//! are kept as vectors sorted by key and searched by binary search rather
//! than hashed.

use vstd::prelude::*;

verus! {

/// Keys strictly increase along the vector.
pub open spec fn dict_sorted<V>(s: Seq<(u64, V)>) -> bool {
    forall|i: int, j: int| 0 <= i < j < s.len() ==> (#[trigger] s[i]).0 < (#[trigger] s[j]).0
}

/// Some entry carries key `k`.
pub open spec fn dict_has<V>(s: Seq<(u64, V)>, k: u64) -> bool {
    exists|i: int| 0 <= i < s.len() && (#[trigger] s[i]).0 == k
}

/// The position of the entry carrying key `k` (unique when sorted).
pub open spec fn dict_idx<V>(s: Seq<(u64, V)>, k: u64) -> int {
    choose|i: int| 0 <= i < s.len() && (#[trigger] s[i]).0 == k
}

/// The value stored under key `k`.
pub open spec fn dict_val<V>(s: Seq<(u64, V)>, k: u64) -> V {
    s[dict_idx(s, k)].1
}

/// In a sorted dictionary any position holding key `k` is `dict_idx(s, k)`.
pub proof fn lemma_dict_idx<V>(s: Seq<(u64, V)>, k: u64, i: int)
    requires
        dict_sorted(s),
        0 <= i < s.len(),
        s[i].0 == k,
    ensures
        dict_has(s, k),
        dict_idx(s, k) == i,
{
    assert(dict_has(s, k));
    let j = dict_idx(s, k);
    if i < j {
        assert(s[i].0 < s[j].0);
    } else if j < i {
        assert(s[j].0 < s[i].0);
    }
}

/// Binary search for key `k`.
pub fn dict_find<V>(v: &Vec<(u64, V)>, k: u64) -> (r: Option<usize>)
    requires
        dict_sorted(v@),
    ensures
        match r {
            Some(i) => i < v@.len() && v@[i as int].0 == k && dict_has(v@, k)
                && dict_idx(v@, k) == i,
            None => !dict_has(v@, k),
        },
{
    let mut lo: usize = 0;
    let mut hi: usize = v.len();
    while lo < hi
        invariant
            dict_sorted(v@),
            lo <= hi <= v@.len(),
            forall|i: int| 0 <= i < lo ==> (#[trigger] v@[i]).0 < k,
            forall|i: int| hi <= i < v@.len() ==> (#[trigger] v@[i]).0 > k,
        decreases hi - lo,
    {
        let mid = lo + (hi - lo) / 2;
        let key = v[mid].0;
        if key == k {
            proof {
                lemma_dict_idx(v@, k, mid as int);
            }
            return Some(mid);
        } else if key < k {
            lo = mid + 1;
        } else {
            hi = mid;
        }
    }
    proof {
        if dict_has(v@, k) {
            let i = dict_idx(v@, k);
        }
    }
    None
}

/// Inserts a new key at its sorted position.
pub fn dict_insert<V>(v: &mut Vec<(u64, V)>, k: u64, val: V)
    requires
        dict_sorted(old(v)@),
        !dict_has(old(v)@, k),
    ensures
        dict_sorted(final(v)@),
        final(v)@.len() == old(v)@.len() + 1,
        forall|k2: u64| #[trigger] dict_has(final(v)@, k2)
            == (dict_has(old(v)@, k2) || k2 == k),
        forall|k2: u64| k2 != k && dict_has(old(v)@, k2)
            ==> #[trigger] dict_val(final(v)@, k2) == dict_val(old(v)@, k2),
        dict_has(final(v)@, k),
        dict_val(final(v)@, k) == val,
        forall|p: int| 0 <= p < final(v)@.len()
            ==> #[trigger] final(v)@[p] == (k, val) || old(v)@.contains(final(v)@[p]),
{
    let ghost pre = v@;
    let n = v.len();
    let mut p: usize = 0;
    while p < n && v[p].0 < k
        invariant
            dict_sorted(pre),
            !dict_has(pre, k),
            n == v@.len(),
            v@ == pre,
            p <= n,
            forall|i: int| 0 <= i < p ==> (#[trigger] v@[i]).0 < k,
        decreases n - p,
    {
        p += 1;
    }
    proof {
        assert forall|i: int| p <= i < n implies (#[trigger] pre[i]).0 > k by {
            if pre[i].0 == k {
                lemma_dict_idx(pre, k, i);
            }
            assert(pre[p as int].0 >= k);
            if i > p {
                assert(pre[p as int].0 < pre[i].0);
            }
        }
    }
    v.insert(p, (k, val));
    proof {
        let post = v@;
        assert(post.len() == pre.len() + 1);
        assert forall|i: int, j: int| 0 <= i < j < post.len() implies
            (#[trigger] post[i]).0 < (#[trigger] post[j]).0 by {
            if i < p && j < p {
            } else if i < p && j == p {
                assert(post[i] == pre[i]);
            } else if i < p && j > p {
                assert(post[i] == pre[i] && post[j] == pre[j - 1]);
                assert(pre[i].0 < k && pre[j - 1].0 > k);
            } else if i == p {
                assert(post[j] == pre[j - 1]);
            } else {
                assert(post[i] == pre[i - 1] && post[j] == pre[j - 1]);
            }
        }
        lemma_dict_idx(post, k, p as int);
        assert forall|k2: u64| #[trigger] dict_has(post, k2)
            == (dict_has(pre, k2) || k2 == k) by {
            if dict_has(pre, k2) {
                let i = dict_idx(pre, k2);
                if i < p {
                    assert(post[i] == pre[i]);
                    assert(dict_has(post, k2));
                } else {
                    assert(post[i + 1] == pre[i]);
                    assert(dict_has(post, k2));
                }
            }
            if dict_has(post, k2) && k2 != k {
                let i = dict_idx(post, k2);
                if i < p {
                    assert(pre[i] == post[i]);
                    assert(dict_has(pre, k2));
                } else {
                    assert(i != p);
                    assert(pre[i - 1] == post[i]);
                    assert(dict_has(pre, k2));
                }
            }
        }
        assert forall|q: int| 0 <= q < post.len() implies
            #[trigger] post[q] == (k, val) || pre.contains(post[q]) by {
            if q < p {
                assert(post[q] == pre[q]);
                assert(pre.contains(post[q]));
            } else if q > p {
                assert(post[q] == pre[q - 1]);
                assert(pre.contains(post[q]));
            }
        }
        assert forall|k2: u64| k2 != k && dict_has(pre, k2) implies
            #[trigger] dict_val(post, k2) == dict_val(pre, k2) by {
            let i = dict_idx(pre, k2);
            lemma_dict_idx(pre, k2, i);
            if i < p {
                assert(post[i] == pre[i]);
                lemma_dict_idx(post, k2, i);
            } else {
                assert(post[i + 1] == pre[i]);
                lemma_dict_idx(post, k2, i + 1);
            }
        }
    }
}

/// Two dictionaries with pointwise-equal keys, the first sorted, resolve
/// every key identically.
pub proof fn lemma_dict_resolve<V1, V2>(s1: Seq<(u64, V1)>, s2: Seq<(u64, V2)>)
    requires
        dict_sorted(s1),
        s2.len() == s1.len(),
        forall|k: int| 0 <= k < s1.len() ==> (#[trigger] s2[k]).0 == s1[k].0,
    ensures
        dict_sorted(s2),
        forall|t: u64| #[trigger] dict_has(s2, t) == dict_has(s1, t),
        forall|t: u64| dict_has(s1, t)
            ==> #[trigger] dict_idx(s2, t) == dict_idx(s1, t),
{
    assert(dict_sorted(s2)) by {
        assert forall|i: int, j: int| 0 <= i < j < s2.len() implies
            (#[trigger] s2[i]).0 < (#[trigger] s2[j]).0 by {
            assert(s1[i].0 < s1[j].0);
        }
    }
    assert forall|t: u64| #[trigger] dict_has(s2, t) == dict_has(s1, t) by {
        if dict_has(s1, t) {
            let i = dict_idx(s1, t);
            lemma_dict_idx(s1, t, i);
            assert(s2[i].0 == t);
            assert(dict_has(s2, t));
        }
        if dict_has(s2, t) {
            let i = dict_idx(s2, t);
            lemma_dict_idx(s2, t, i);
            assert(s1[i].0 == t);
            assert(dict_has(s1, t));
        }
    }
    assert forall|t: u64| dict_has(s1, t) implies
        #[trigger] dict_idx(s2, t) == dict_idx(s1, t) by {
        let i = dict_idx(s1, t);
        lemma_dict_idx(s1, t, i);
        assert(s2[i].0 == t);
        lemma_dict_idx(s2, t, i);
    }
}

/// Two duplicate-free id sequences of equal length, the first covered by the
/// second, contain exactly the same ids.
pub proof fn lemma_ids_set_equal(s1: Seq<u64>, s2: Seq<u64>)
    requires
        s1.no_duplicates(),
        s2.no_duplicates(),
        s1.len() == s2.len(),
        forall|k: int| 0 <= k < s1.len() ==> s2.contains(#[trigger] s1[k]),
    ensures
        forall|t: u64| #[trigger] s1.contains(t) == s2.contains(t),
{
    broadcast use vstd::seq_lib::seq_to_set_is_finite;

    s1.unique_seq_to_set();
    s2.unique_seq_to_set();
    assert(s1.to_set().subset_of(s2.to_set())) by {
        assert forall|t: u64| s1.to_set().contains(t) implies s2.to_set().contains(t) by {
            let k = choose|k: int| 0 <= k < s1.len() && s1[k] == t;
            assert(s2.contains(s1[k]));
        }
    }
    vstd::set_lib::lemma_len_subset(s1.to_set(), s2.to_set());
    if exists|x: u64| s2.to_set().contains(x) && !s1.to_set().contains(x) {
        let x = choose|x: u64| s2.to_set().contains(x) && !s1.to_set().contains(x);
        assert(s1.to_set().subset_of(s2.to_set().remove(x)));
        vstd::set_lib::lemma_len_subset(s1.to_set(), s2.to_set().remove(x));
        assert(s2.to_set().remove(x).len() == s2.to_set().len() - 1);
    }
    assert(s1.to_set() =~= s2.to_set());
    assert forall|t: u64| #[trigger] s1.contains(t) == s2.contains(t) by {
        assert(s1.to_set().contains(t) == s1.contains(t));
        assert(s2.to_set().contains(t) == s2.contains(t));
    }
}

/// A mutable borrow of the value at position `i`.
pub fn dict_val_mut<V>(v: &mut Vec<(u64, V)>, i: usize) -> (r: &mut V)
    requires
        i < old(v)@.len(),
    ensures
        *r == old(v)@[i as int].1,
        final(v)@ == old(v)@.update(i as int, (old(v)@[i as int].0, *final(r))),
{
    let entry: &mut (u64, V) = &mut v[i];
    &mut entry.1
}

} // verus!
