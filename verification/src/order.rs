//! Stable descending orderings by an integer key.
//!
//! Several listings are shown largest-first (files by size, duplicate groups by
//! wasted space, directories by subtree size, recovery entries by deletion time).
//! They all rely on the same stable ordering: larger keys first, and on equal keys
//! the element that came first stays first.
use vstd::prelude::*;
use vstd::multiset::Multiset;

verus! {

broadcast use vstd::seq_lib::group_to_multiset_ensures, vstd::multiset::group_multiset_axioms;

/// `a` is placed before `b`: its key is larger, or the keys tie and `a` came first.
pub open spec fn precedes_desc(keys: Seq<u64>, a: usize, b: usize) -> bool {
    keys[a as int] > keys[b as int] || (keys[a as int] == keys[b as int] && a < b)
}

/// The indices `lo, lo + 1, ..., hi - 1`.
pub open spec fn index_range(lo: int, hi: int) -> Seq<usize> {
    Seq::new((hi - lo) as nat, |i: int| (lo + i) as usize)
}

/// Every pair of positions is in `precedes_desc` order.
pub open spec fn strictly_desc(keys: Seq<u64>, order: Seq<usize>) -> bool {
    forall|i: int, j: int| 0 <= i < j < order.len() ==> precedes_desc(keys, #[trigger] order[i], #[trigger] order[j])
}

/// `order` lists each index of `keys` exactly once, in stable descending key order.
pub open spec fn is_desc_order(keys: Seq<u64>, order: Seq<usize>) -> bool {
    &&& order.to_multiset() == index_range(0, keys.len() as int).to_multiset()
    &&& forall|i: int| 0 <= i < order.len() ==> #[trigger] order[i] < keys.len()
    &&& strictly_desc(keys, order)
}

/// `out` is `input` rearranged by a stable descending order of `keys`.
pub open spec fn is_stable_desc_sort<T>(input: Seq<T>, keys: Seq<u64>, out: Seq<T>) -> bool {
    &&& keys.len() == input.len()
    &&& exists|order: Seq<usize>| #[trigger] is_desc_order(keys, order)
        && out.len() == order.len()
        && forall|i: int| 0 <= i < out.len() ==> #[trigger] out[i] == input[order[i] as int]
}

proof fn lemma_range_split(lo: int, mid: int, hi: int)
    requires
        0 <= lo <= mid <= hi <= usize::MAX + 1,
    ensures
        index_range(lo, hi) =~= index_range(lo, mid) + index_range(mid, hi),
{
}

/// The positions of an order are all valid and cover the whole key list.
pub proof fn lemma_desc_order_len(keys: Seq<u64>, order: Seq<usize>)
    requires
        is_desc_order(keys, order),
    ensures
        order.len() == keys.len(),
{
    assert(order.to_multiset().len() == order.len());
    assert(index_range(0, keys.len() as int).to_multiset().len() == keys.len());
}

fn merge_runs(keys: &Vec<u64>, a: Vec<usize>, b: Vec<usize>, Ghost(lo): Ghost<int>, Ghost(mid): Ghost<int>, Ghost(hi): Ghost<int>) -> (c: Vec<usize>)
    requires
        0 <= lo <= mid <= hi <= keys.len(),
        forall|i: int| 0 <= i < a.len() ==> lo <= #[trigger] a@[i] < mid,
        forall|i: int| 0 <= i < b.len() ==> mid <= #[trigger] b@[i] < hi,
        strictly_desc(keys@, a@),
        strictly_desc(keys@, b@),
    ensures
        c@.to_multiset() == a@.to_multiset().add(b@.to_multiset()),
        c.len() == a.len() + b.len(),
        forall|i: int| 0 <= i < c.len() ==> lo <= #[trigger] c@[i] < hi,
        strictly_desc(keys@, c@),
{
    let mut c: Vec<usize> = Vec::new();
    let mut i: usize = 0;
    let mut j: usize = 0;
    assert(a@.take(0) =~= Seq::<usize>::empty());
    assert(b@.take(0) =~= Seq::<usize>::empty());
    while i < a.len() || j < b.len()
        invariant
            0 <= lo <= mid <= hi <= keys.len(),
            forall|k: int| 0 <= k < a.len() ==> lo <= #[trigger] a@[k] < mid,
            forall|k: int| 0 <= k < b.len() ==> mid <= #[trigger] b@[k] < hi,
            strictly_desc(keys@, a@),
            strictly_desc(keys@, b@),
            i <= a.len(),
            j <= b.len(),
            c.len() == i + j,
            c@.to_multiset() == a@.take(i as int).to_multiset().add(b@.take(j as int).to_multiset()),
            forall|k: int| 0 <= k < c.len() ==> lo <= #[trigger] c@[k] < hi,
            strictly_desc(keys@, c@),
            c.len() > 0 && i < a.len() ==> precedes_desc(keys@, c@[c.len() - 1], a@[i as int]),
            c.len() > 0 && j < b.len() ==> precedes_desc(keys@, c@[c.len() - 1], b@[j as int]),
        decreases a.len() + b.len() - i - j,
    {
        let take_a = if j >= b.len() {
            true
        } else if i >= a.len() {
            false
        } else {
            let ka = keys[a[i]];
            let kb = keys[b[j]];
            ka > kb || (ka == kb && a[i] < b[j])
        };
        let ghost old_c = c@;
        if take_a {
            let x = a[i];
            c.push(x);
            proof {
                assert(a@.take(i + 1) =~= a@.take(i as int).push(x));
                assert forall|p: int, q: int| 0 <= p < q < c@.len() implies precedes_desc(keys@, #[trigger] c@[p], #[trigger] c@[q]) by {
                    if q == c@.len() - 1 && p < q {
                        if p < old_c.len() - 1 {
                            assert(precedes_desc(keys@, old_c[p], old_c[old_c.len() - 1]));
                        }
                    }
                }
                if i + 1 < a.len() {
                    assert(precedes_desc(keys@, a@[i as int], a@[i + 1]));
                }
            }
            i = i + 1;
        } else {
            let y = b[j];
            c.push(y);
            proof {
                assert(b@.take(j + 1) =~= b@.take(j as int).push(y));
                assert forall|p: int, q: int| 0 <= p < q < c@.len() implies precedes_desc(keys@, #[trigger] c@[p], #[trigger] c@[q]) by {
                    if q == c@.len() - 1 && p < q {
                        if p < old_c.len() - 1 {
                            assert(precedes_desc(keys@, old_c[p], old_c[old_c.len() - 1]));
                        }
                    }
                }
                if j + 1 < b.len() {
                    assert(precedes_desc(keys@, b@[j as int], b@[j + 1]));
                }
                if i < a.len() {
                    assert(a@[i as int] < b@[j as int]);
                }
            }
            j = j + 1;
        }
    }
    assert(a@.take(a.len() as int) =~= a@);
    assert(b@.take(b.len() as int) =~= b@);
    c
}

fn sort_range(keys: &Vec<u64>, lo: usize, hi: usize) -> (r: Vec<usize>)
    requires
        lo <= hi <= keys.len(),
    ensures
        r@.to_multiset() == index_range(lo as int, hi as int).to_multiset(),
        r.len() == hi - lo,
        forall|i: int| 0 <= i < r.len() ==> lo <= #[trigger] r@[i] < hi,
        strictly_desc(keys@, r@),
    decreases hi - lo,
{
    if hi - lo == 0 {
        let r: Vec<usize> = Vec::new();
        assert(index_range(lo as int, hi as int) =~= r@);
        r
    } else if hi - lo == 1 {
        let mut r: Vec<usize> = Vec::new();
        r.push(lo);
        assert(index_range(lo as int, hi as int) =~= r@);
        r
    } else {
        let mid = lo + (hi - lo) / 2;
        let a = sort_range(keys, lo, mid);
        let b = sort_range(keys, mid, hi);
        proof {
            lemma_range_split(lo as int, mid as int, hi as int);
            vstd::seq_lib::lemma_multiset_commutative(index_range(lo as int, mid as int), index_range(mid as int, hi as int));
        }
        merge_runs(keys, a, b, Ghost(lo as int), Ghost(mid as int), Ghost(hi as int))
    }
}

/// The stable descending order of the indices of `keys`: larger keys first, ties
/// in their original order.
pub fn desc_order(keys: &Vec<u64>) -> (order: Vec<usize>)
    ensures
        is_desc_order(keys@, order@),
        order.len() == keys.len(),
{
    sort_range(keys, 0, keys.len())
}

} // verus!
