//! Stable sorting of item ids by integer keys.
//!
//! Items are indices into a key table; equal keys keep their input order,
//! which is what a stable sort (such as `sort_by_key`) guarantees.
use vstd::prelude::*;

verus! {

/// Inserts `x` after every trailing element whose key is not greater than
/// the key of `x`: scanning from the back, elements with a larger key are
/// passed over.
pub open spec fn spec_insert_by_key(s: Seq<usize>, x: usize, keys: Seq<u64>) -> Seq<usize>
    decreases s.len(),
{
    if s.len() == 0 {
        seq![x]
    } else if keys[s.last() as int] <= keys[x as int] {
        s.push(x)
    } else {
        spec_insert_by_key(s.drop_last(), x, keys).push(s.last())
    }
}

/// Stable insertion sort of `items` by `keys[item]`.
pub open spec fn spec_sort_by_key(items: Seq<usize>, keys: Seq<u64>) -> Seq<usize>
    decreases items.len(),
{
    if items.len() == 0 {
        items
    } else {
        spec_insert_by_key(spec_sort_by_key(items.drop_last(), keys), items.last(), keys)
    }
}

/// The ids `0, 1, ..., n - 1`.
pub open spec fn spec_range(n: nat) -> Seq<usize> {
    Seq::new(n, |i: int| i as usize)
}

/// `0..n` stably sorted by `keys`.
pub open spec fn spec_sorted_range(keys: Seq<u64>) -> Seq<usize> {
    spec_sort_by_key(spec_range(keys.len()), keys)
}

/// Inserting at the position found by scanning back over larger keys is
/// the spec insertion.
proof fn lemma_insert_at(s: Seq<usize>, x: usize, keys: Seq<u64>, j: int)
    requires
        0 <= j <= s.len(),
        forall|k: int| j <= k < s.len() ==> keys[#[trigger] s[k] as int] > keys[x as int],
        j == 0 || keys[s[j - 1] as int] <= keys[x as int],
    ensures
        spec_insert_by_key(s, x, keys) == s.insert(j, x),
    decreases s.len(),
{
    if s.len() == 0 {
        assert(s.insert(j, x) =~= seq![x]);
    } else if keys[s.last() as int] <= keys[x as int] {
        assert(j == s.len());
        assert(s.insert(j, x) =~= s.push(x));
    } else {
        lemma_insert_at(s.drop_last(), x, keys, j);
        assert(s.drop_last().insert(j, x).push(s.last()) =~= s.insert(j, x));
    }
}

/// Insertion keeps the multiset of items and adds `x`.
pub proof fn lemma_insert_multiset(s: Seq<usize>, x: usize, keys: Seq<u64>)
    ensures
        spec_insert_by_key(s, x, keys).to_multiset() =~= s.to_multiset().insert(x),
        spec_insert_by_key(s, x, keys).len() == s.len() + 1,
    decreases s.len(),
{
    broadcast use vstd::seq_lib::group_to_multiset_ensures;
    if s.len() == 0 {
        assert(seq![x] =~= Seq::<usize>::empty().push(x));
    } else if keys[s.last() as int] <= keys[x as int] {
    } else {
        lemma_insert_multiset(s.drop_last(), x, keys);
        assert(s.drop_last().push(s.last()) =~= s);
    }
}

/// Sorting is a permutation.
pub proof fn lemma_sort_multiset(items: Seq<usize>, keys: Seq<u64>)
    ensures
        spec_sort_by_key(items, keys).to_multiset() =~= items.to_multiset(),
        spec_sort_by_key(items, keys).len() == items.len(),
    decreases items.len(),
{
    broadcast use vstd::seq_lib::group_to_multiset_ensures;
    if items.len() > 0 {
        lemma_sort_multiset(items.drop_last(), keys);
        lemma_insert_multiset(spec_sort_by_key(items.drop_last(), keys), items.last(), keys);
        assert(items.drop_last().push(items.last()) =~= items);
    }
}

/// Sorting keeps exactly the items that were there.
pub proof fn lemma_sort_contains(items: Seq<usize>, keys: Seq<u64>)
    ensures
        forall|x: usize| #[trigger] spec_sort_by_key(items, keys).contains(x) <==> items.contains(x),
        spec_sort_by_key(items, keys).len() == items.len(),
{
    broadcast use vstd::seq_lib::group_to_multiset_ensures;
    lemma_sort_multiset(items, keys);
    assert forall|x: usize| #[trigger] spec_sort_by_key(items, keys).contains(x) <==> items.contains(x) by {
        assert(spec_sort_by_key(items, keys).to_multiset().count(x) == items.to_multiset().count(x));
    }
}

/// Stable sort of `items` by `keys[item]`.
pub fn sort_items_by_key(items: &Vec<usize>, keys: &Vec<u64>) -> (out: Vec<usize>)
    requires
        forall|k: int| 0 <= k < items.len() ==> #[trigger] items[k] < keys.len(),
    ensures
        out@ == spec_sort_by_key(items@, keys@),
{
    let mut out: Vec<usize> = Vec::new();
    let mut i: usize = 0;
    while i < items.len()
        invariant
            i <= items.len(),
            forall|k: int| 0 <= k < items.len() ==> #[trigger] items[k] < keys.len(),
            out@ == spec_sort_by_key(items@.subrange(0, i as int), keys@),
            forall|k: int| 0 <= k < out.len() ==> #[trigger] out[k] < keys.len(),
        decreases items.len() - i,
    {
        let x = items[i];
        let kx = keys[x];
        let mut j = out.len();
        while j > 0 && keys[out[j - 1]] > kx
            invariant
                j <= out.len(),
                x < keys.len(),
                kx == keys[x as int],
                forall|k: int| 0 <= k < out.len() ==> #[trigger] out[k] < keys.len(),
                forall|k: int| j <= k < out.len() ==> keys@[#[trigger] out@[k] as int] > kx,
            decreases j,
        {
            j = j - 1;
        }
        proof {
            let s = items@.subrange(0, i as int + 1);
            assert(s.drop_last() =~= items@.subrange(0, i as int));
            lemma_insert_at(out@, x, keys@, j as int);
        }
        let ghost before = out@;
        out.insert(j, x);
        proof {
            before.insert_ensures(j as int, x);
            assert forall|k: int| 0 <= k < out.len() implies #[trigger] out[k] < keys.len() by {
                if k < j {
                } else if k == j {
                } else {
                    assert(out@[k] == before[k - 1]);
                }
            }
        }
        i = i + 1;
    }
    assert(items@.subrange(0, items.len() as int) =~= items@);
    out
}

/// `0..keys.len()` stably sorted by `keys`.
pub fn sorted_range_by_key(keys: &Vec<u64>) -> (out: Vec<usize>)
    ensures
        out@ == spec_sorted_range(keys@),
{
    let mut items: Vec<usize> = Vec::new();
    let mut i: usize = 0;
    while i < keys.len()
        invariant
            i <= keys.len(),
            items@ == spec_range(i as nat),
        decreases keys.len() - i,
    {
        items.push(i);
        i = i + 1;
        assert(items@ =~= spec_range(i as nat));
    }
    sort_items_by_key(&items, keys)
}

/// `s` lists every id below `n` exactly once.
pub open spec fn spec_is_permutation(s: Seq<usize>, n: nat) -> bool {
    &&& s.len() == n
    &&& s.no_duplicates()
    &&& forall|k: int| 0 <= k < s.len() ==> #[trigger] s[k] < n
}

pub proof fn lemma_range_no_duplicates(n: nat)
    requires
        n <= usize::MAX,
    ensures
        spec_range(n).no_duplicates(),
        forall|x: usize| #[trigger] spec_range(n).contains(x) <==> x < n,
{
    assert forall|x: usize| #[trigger] spec_range(n).contains(x) <==> x < n by {
        if x < n {
            assert(spec_range(n)[x as int] == x);
        }
    }
    assert forall|i: int, j: int|
        0 <= i < spec_range(n).len() && 0 <= j < spec_range(n).len() && i != j implies spec_range(
        n,
    )[i] != spec_range(n)[j] by {}
}

/// A sequence with the multiset of `0..n` is a permutation of it.
pub proof fn lemma_permutation_from_multiset(s: Seq<usize>, n: nat)
    requires
        s.to_multiset() =~= spec_range(n).to_multiset(),
        n <= usize::MAX,
    ensures
        spec_is_permutation(s, n),
{
    broadcast use vstd::seq_lib::group_to_multiset_ensures;
    lemma_range_no_duplicates(n);
    spec_range(n).lemma_multiset_has_no_duplicates();
    assert forall|x: usize| s.to_multiset().contains(x) implies s.to_multiset().count(x) == 1 by {
        assert(spec_range(n).to_multiset().contains(x));
    }
    s.lemma_multiset_has_no_duplicates_conv();
    assert(s.len() == s.to_multiset().len());
    assert(spec_range(n).len() == spec_range(n).to_multiset().len());
    assert forall|k: int| 0 <= k < s.len() implies #[trigger] s[k] < n by {
        assert(s.contains(s[k]));
        assert(s.to_multiset().count(s[k]) > 0);
        assert(spec_range(n).contains(s[k]));
    }
}

/// Sorting `0..keys.len()` gives a permutation of it.
pub proof fn lemma_sorted_range_permutation(keys: Seq<u64>)
    requires
        keys.len() <= usize::MAX,
    ensures
        spec_is_permutation(spec_sorted_range(keys), keys.len()),
{
    lemma_sort_multiset(spec_range(keys.len()), keys);
    lemma_permutation_from_multiset(spec_sorted_range(keys), keys.len());
}

/// `s` is in ascending order of `keys[item]`.
pub open spec fn spec_sorted_by(s: Seq<usize>, keys: Seq<u64>) -> bool {
    forall|i: int, j: int| 0 <= i < j < s.len() ==> keys[#[trigger] s[i] as int] <= keys[#[trigger] s[j] as int]
}

proof fn lemma_insert_sorted(s: Seq<usize>, x: usize, keys: Seq<u64>)
    requires
        spec_sorted_by(s, keys),
    ensures
        spec_sorted_by(spec_insert_by_key(s, x, keys), keys),
    decreases s.len(),
{
    broadcast use vstd::seq_lib::group_to_multiset_ensures;
    let r = spec_insert_by_key(s, x, keys);
    if s.len() == 0 {
    } else if keys[s.last() as int] <= keys[x as int] {
        assert forall|i: int, j: int| 0 <= i < j < r.len() implies keys[#[trigger] r[i] as int] <= keys[#[trigger] r[j] as int] by {
            if j < s.len() {
                assert(r[i] == s[i] && r[j] == s[j]);
            } else {
                assert(r[i] == s[i]);
                if i < s.len() - 1 {
                    assert(keys[s[i] as int] <= keys[s[s.len() - 1] as int]);
                }
            }
        }
    } else {
        let pre = s.drop_last();
        let l = s.last();
        assert forall|i: int, j: int| 0 <= i < j < pre.len() implies keys[#[trigger] pre[i] as int] <= keys[#[trigger] pre[j] as int] by {
            assert(pre[i] == s[i] && pre[j] == s[j]);
        }
        lemma_insert_sorted(pre, x, keys);
        lemma_insert_multiset(pre, x, keys);
        let q = spec_insert_by_key(pre, x, keys);
        assert(r == q.push(l));
        assert forall|i: int| 0 <= i < q.len() implies keys[#[trigger] q[i] as int] <= keys[l as int] by {
            let y = q[i];
            assert(q.to_multiset().count(y) > 0);
            assert(pre.to_multiset().insert(x).count(y) > 0);
            if y != x {
                assert(pre.to_multiset().count(y) > 0);
                assert(pre.contains(y));
                let t = choose|t: int| 0 <= t < pre.len() && pre[t] == y;
                assert(s[t] == y);
                assert(keys[s[t] as int] <= keys[s[s.len() - 1] as int]);
            }
        }
        assert forall|i: int, j: int| 0 <= i < j < r.len() implies keys[#[trigger] r[i] as int] <= keys[#[trigger] r[j] as int] by {
            assert(r[i] == q[i]);
            if j < q.len() {
                assert(r[j] == q[j]);
            }
        }
    }
}

/// Sorting puts the items in ascending order of their keys.
pub proof fn lemma_sort_sorted(items: Seq<usize>, keys: Seq<u64>)
    ensures
        spec_sorted_by(spec_sort_by_key(items, keys), keys),
    decreases items.len(),
{
    if items.len() > 0 {
        lemma_sort_sorted(items.drop_last(), keys);
        lemma_insert_sorted(spec_sort_by_key(items.drop_last(), keys), items.last(), keys);
    }
}

/// Items with equal keys stay in increasing order of the items themselves.
pub open spec fn spec_ties_increasing(s: Seq<usize>, keys: Seq<u64>) -> bool {
    forall|i: int, j: int|
        0 <= i < j < s.len() && keys[#[trigger] s[i] as int] == keys[#[trigger] s[j] as int] ==> s[i] < s[j]
}

proof fn lemma_insert_stable(s: Seq<usize>, x: usize, keys: Seq<u64>)
    requires
        spec_ties_increasing(s, keys),
        forall|k: int| 0 <= k < s.len() ==> #[trigger] s[k] < x,
    ensures
        spec_ties_increasing(spec_insert_by_key(s, x, keys), keys),
    decreases s.len(),
{
    broadcast use vstd::seq_lib::group_to_multiset_ensures;
    let r = spec_insert_by_key(s, x, keys);
    if s.len() == 0 {
    } else if keys[s.last() as int] <= keys[x as int] {
        assert forall|i: int, j: int|
            0 <= i < j < r.len() && keys[#[trigger] r[i] as int] == keys[#[trigger] r[j] as int] implies r[i] < r[j] by {
            assert(r[i] == s[i]);
            if j < s.len() {
                assert(r[j] == s[j]);
            }
        }
    } else {
        let pre = s.drop_last();
        let l = s.last();
        assert forall|i: int, j: int|
            0 <= i < j < pre.len() && keys[#[trigger] pre[i] as int] == keys[#[trigger] pre[j] as int] implies pre[i] < pre[j] by {
            assert(pre[i] == s[i] && pre[j] == s[j]);
        }
        assert forall|k: int| 0 <= k < pre.len() implies #[trigger] pre[k] < x by {
            assert(pre[k] == s[k]);
        }
        lemma_insert_stable(pre, x, keys);
        lemma_insert_multiset(pre, x, keys);
        let q = spec_insert_by_key(pre, x, keys);
        assert(r == q.push(l));
        assert forall|i: int, j: int|
            0 <= i < j < r.len() && keys[#[trigger] r[i] as int] == keys[#[trigger] r[j] as int] implies r[i] < r[j] by {
            assert(r[i] == q[i]);
            if j < q.len() {
                assert(r[j] == q[j]);
            } else {
                let y = q[i];
                assert(q.to_multiset().count(y) > 0);
                assert(pre.to_multiset().insert(x).count(y) > 0);
                if y != x {
                    assert(pre.to_multiset().count(y) > 0);
                    assert(pre.contains(y));
                    let t = choose|t: int| 0 <= t < pre.len() && pre[t] == y;
                    assert(s[t] == y);
                    assert(s[s.len() - 1] == l);
                }
            }
        }
    }
}

/// The sort is stable: of two items with equal keys, the one that came
/// first in a strictly increasing input comes first in the output.
pub proof fn lemma_sort_stable(items: Seq<usize>, keys: Seq<u64>)
    requires
        forall|i: int, j: int| 0 <= i < j < items.len() ==> items[i] < items[j],
    ensures
        spec_ties_increasing(spec_sort_by_key(items, keys), keys),
    decreases items.len(),
{
    if items.len() > 0 {
        let pre = items.drop_last();
        assert forall|i: int, j: int| 0 <= i < j < pre.len() implies pre[i] < pre[j] by {
            assert(pre[i] == items[i] && pre[j] == items[j]);
        }
        lemma_sort_stable(pre, keys);
        lemma_sort_contains(pre, keys);
        let so = spec_sort_by_key(pre, keys);
        assert forall|k: int| 0 <= k < so.len() implies #[trigger] so[k] < items.last() by {
            assert(so.contains(so[k]));
            assert(pre.contains(so[k]));
            let t = choose|t: int| 0 <= t < pre.len() && pre[t] == so[k];
            assert(items[t] == pre[t]);
        }
        lemma_insert_stable(so, items.last(), keys);
    }
}

} // verus!
