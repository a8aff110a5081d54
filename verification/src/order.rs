//! Index orders: the indices of a list of keys, arranged by ascending key.
//!
//! Equal keys are told apart by the index itself, so that every list of keys
//! has exactly one ascending order.

use vstd::prelude::*;
use vstd::relations::{sorted_by, total_ordering};
use vstd::seq_lib::lemma_sorted_unique;

verus! {

/// The key that belongs to index `i`; zero past the end of `keys`.
pub open spec fn key_at(keys: Seq<u32>, i: usize) -> int {
    if i < keys.len() {
        keys[i as int] as int
    } else {
        0
    }
}

/// Whether index `a` stands at or before index `b`: the smaller key comes
/// first, and of two equal keys the smaller index.
pub open spec fn comes_before(keys: Seq<u32>, a: usize, b: usize) -> bool {
    key_at(keys, a) < key_at(keys, b) || (key_at(keys, a) == key_at(keys, b) && a <= b)
}

/// The indices `0, 1, .., n - 1`.
pub open spec fn indices(n: nat) -> Seq<usize> {
    Seq::new(n, |i: int| i as usize)
}

/// The indices of `keys` in ascending order of their keys.
pub open spec fn ascending(keys: Seq<u32>) -> Seq<usize> {
    indices(keys.len()).sort_by(|a: usize, b: usize| comes_before(keys, a, b))
}

/// Whether `order` lists every index of `keys` once, in ascending order.
pub open spec fn is_ascending(order: Seq<usize>, keys: Seq<u32>) -> bool {
    &&& order.len() == keys.len()
    &&& order.no_duplicates()
    &&& forall|k: int| 0 <= k < order.len() ==> #[trigger] order[k] < keys.len()
    &&& forall|i: usize| i < keys.len() ==> #[trigger] order.contains(i)
    &&& forall|a: int, b: int|
        0 <= a < b < order.len() ==> comes_before(keys, #[trigger] order[a], #[trigger] order[b])
}

/// How two entries `(key, index)` compare: by key, then by index.
pub open spec fn entry_le(a: (u32, usize), b: (u32, usize)) -> bool {
    a.0 < b.0 || (a.0 == b.0 && a.1 <= b.1)
}

/// The entry `(keys[i], i)` for every index `i`.
pub open spec fn entries_of(keys: Seq<u32>) -> Seq<(u32, usize)> {
    Seq::new(keys.len(), |i: int| (keys[i], i as usize))
}

/// Standing at or before is a total order of the indices.
proof fn lemma_comes_before_total(keys: Seq<u32>)
    ensures
        total_ordering(|a: usize, b: usize| comes_before(keys, a, b)),
{
}

/// Two lists without repetition that hold the same values hold them equally often.
proof fn lemma_same_values_same_multiset(s: Seq<usize>, t: Seq<usize>)
    requires
        s.no_duplicates(),
        t.no_duplicates(),
        forall|x: usize| s.contains(x) <==> t.contains(x),
    ensures
        s.to_multiset() == t.to_multiset(),
{
    broadcast use vstd::seq_lib::group_to_multiset_ensures;

    s.lemma_multiset_has_no_duplicates();
    t.lemma_multiset_has_no_duplicates();
    assert forall|x: usize| s.to_multiset().count(x) == t.to_multiset().count(x) by {
        if s.contains(x) {
            assert(t.contains(x));
            assert(s.to_multiset().contains(x));
            assert(t.to_multiset().contains(x));
        } else {
            assert(!t.contains(x));
        }
    }
    assert(s.to_multiset() =~= t.to_multiset());
}

/// An ascending order of `keys` is the ascending order of `keys`: there is only one.
pub proof fn lemma_ascending_unique(order: Seq<usize>, keys: Seq<u32>)
    requires
        keys.len() <= usize::MAX,
        is_ascending(order, keys),
    ensures
        order == ascending(keys),
{
    let leq = |a: usize, b: usize| comes_before(keys, a, b);
    let all = indices(keys.len());
    lemma_comes_before_total(keys);
    all.lemma_sort_by_ensures(leq);
    assert(all.no_duplicates());
    assert forall|x: usize| order.contains(x) <==> all.contains(x) by {
        if order.contains(x) {
            assert(x < keys.len());
            assert(all[x as int] == x);
        }
        if all.contains(x) {
            assert(x < keys.len());
        }
    }
    lemma_same_values_same_multiset(order, all);
    assert(sorted_by(order, leq));
    lemma_sorted_unique(order, ascending(keys), leq);
}

/// The ascending order of `keys` lists every index once, by ascending key.
pub proof fn lemma_ascending_is_ascending(keys: Seq<u32>)
    requires
        keys.len() <= usize::MAX,
    ensures
        is_ascending(ascending(keys), keys),
{
    broadcast use vstd::seq_lib::group_to_multiset_ensures;

    let leq = |a: usize, b: usize| comes_before(keys, a, b);
    let all = indices(keys.len());
    let order = ascending(keys);
    lemma_comes_before_total(keys);
    all.lemma_sort_by_ensures(leq);
    assert(all.no_duplicates());
    all.lemma_multiset_has_no_duplicates();
    order.lemma_multiset_has_no_duplicates_conv();
    assert(order.len() == keys.len()) by {
        assert(order.to_multiset().len() == all.to_multiset().len());
    }
    assert forall|k: int| 0 <= k < order.len() implies #[trigger] order[k] < keys.len() by {
        assert(order.contains(order[k]));
        assert(all.contains(order[k]));
    }
    assert forall|i: usize| i < keys.len() implies #[trigger] order.contains(i) by {
        assert(all[i as int] == i);
        assert(all.contains(i));
        assert(all.to_multiset().count(i) > 0);
    }
    assert forall|a: int, b: int| 0 <= a < b < order.len() implies comes_before(
        keys,
        #[trigger] order[a],
        #[trigger] order[b],
    ) by {
        assert(leq(order[a], order[b]));
    }
}

/// `<[(u32, usize)]>::sort_unstable`: rearranges the entries in place into
/// ascending order, comparing first components and then second components.
/// The entries after the call are those before it, each as often as before.
#[verifier::external_body]
fn sort_entries(entries: &mut Vec<(u32, usize)>)
    ensures
        final(entries)@.to_multiset() == old(entries)@.to_multiset(),
        forall|i: int, j: int|
            0 <= i < j < final(entries)@.len() ==> entry_le(
                #[trigger] final(entries)@[i],
                #[trigger] final(entries)@[j],
            ),
{
    entries.sort_unstable();
}

/// Arranges the indices of `keys` by ascending key, indices of equal keys
/// by ascending index.
pub fn ascending_indices(keys: &Vec<u32>) -> (order: Vec<usize>)
    ensures
        order@ == ascending(keys@),
        is_ascending(order@, keys@),
{
    let n: usize = keys.len();
    let mut entries: Vec<(u32, usize)> = Vec::new();
    let mut i: usize = 0;
    while i < n
        invariant
            n == keys@.len(),
            i <= n,
            entries@ == entries_of(keys@).subrange(0, i as int),
        decreases n - i,
    {
        entries.push((keys[i], i));
        assert(entries@ =~= entries_of(keys@).subrange(0, i + 1));
        i += 1;
    }
    assert(entries@ =~= entries_of(keys@));
    let ghost given = entries@;
    sort_entries(&mut entries);
    let ghost sorted = entries@;
    proof {
        broadcast use vstd::seq_lib::group_to_multiset_ensures;

        assert(given.no_duplicates());
        given.lemma_multiset_has_no_duplicates();
        sorted.lemma_multiset_has_no_duplicates_conv();
        assert(sorted.len() == n) by {
            assert(sorted.to_multiset().len() == given.to_multiset().len());
        }
        assert forall|k: int| 0 <= k < sorted.len() implies (#[trigger] sorted[k]).1 < n
            && sorted[k].0 == keys@[sorted[k].1 as int] by {
            assert(sorted.contains(sorted[k]));
            assert(sorted.to_multiset().count(sorted[k]) > 0);
            assert(given.contains(sorted[k]));
        }
    }
    let mut order: Vec<usize> = Vec::new();
    let mut k: usize = 0;
    while k < n
        invariant
            n == entries@.len(),
            k <= n,
            order@.len() == k,
            forall|j: int| 0 <= j < k ==> #[trigger] order@[j] == entries@[j].1,
        decreases n - k,
    {
        order.push(entries[k].1);
        k += 1;
    }
    proof {
        broadcast use vstd::seq_lib::group_to_multiset_ensures;

        assert forall|a: int, b: int| 0 <= a < order@.len() && 0 <= b < order@.len() && a
            != b implies order@[a] != order@[b] by {
            if order@[a] == order@[b] {
                assert(sorted[a] == sorted[b]);
            }
        }
        assert forall|x: usize| x < n implies #[trigger] order@.contains(x) by {
            let e = given[x as int];
            assert(given.contains(e));
            assert(given.to_multiset().count(e) > 0);
            assert(sorted.contains(e));
            let at = choose|at: int| 0 <= at < sorted.len() && sorted[at] == e;
            assert(order@[at] == x);
        }
        assert forall|a: int, b: int| 0 <= a < b < order@.len() implies comes_before(
            keys@,
            #[trigger] order@[a],
            #[trigger] order@[b],
        ) by {
            assert(entry_le(sorted[a], sorted[b]));
        }
        lemma_ascending_unique(order@, keys@);
    }
    order
}

} // verus!
