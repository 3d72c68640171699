//! The sort itself: insertion sort for short slices, and the recursive
//! driver that partitions longer ones.
use core::cmp::Ordering;
use vstd::prelude::*;

use crate::median::find_pivot;
use crate::order::{
    callable_on_all, is_sorted, is_total_preorder, is_valid_comparator, no_adjacent_greater, orders_by,
};
use crate::partition::{is_partitioned, partition};

verus! {

/// Up to this length a slice is sorted by insertion.
pub const INSERTION_THRESHOLD: usize = 13;

/// The adjacent pairs `(k, k + 1)` of `s` with `lo <= k < hi`, other than
/// those starting at `skip1` or `skip2`, are in order under `ord`.
pub open spec fn pairs_in_order_except<T>(
    ord: spec_fn(T, T) -> Ordering,
    s: Seq<T>,
    hi: int,
    skip1: int,
    skip2: int,
) -> bool {
    forall|k: int|
        0 <= k < hi && k != skip1 && k != skip2 ==> #[trigger] ord(s[k], s[k + 1]) != Ordering::Greater
}

/// While an element moves back from `i`, it stands at `j`: the pairs up to
/// `i` are in order except around it, its two neighbours are in order with
/// each other, and it is less than the element after it.
pub open spec fn inserting<T>(ord: spec_fn(T, T) -> Ordering, s: Seq<T>, i: int, j: int) -> bool {
    &&& pairs_in_order_except(ord, s, i, j - 1, j)
    &&& 0 < j < i ==> ord(s[j - 1], s[j + 1]) != Ordering::Greater
    &&& j < i ==> ord(s[j], s[j + 1]) == Ordering::Less
}

/// One backward step of the moving element, after `compare` put its
/// predecessor after it.
proof fn lemma_insert_step<T, F: Fn(&T, &T) -> Ordering>(compare: F, s: Seq<T>, i: int, j: int)
    requires
        0 < j <= i < s.len(),
        compare.ensures((&s[j - 1], &s[j]), Ordering::Greater),
        forall|ord: spec_fn(T, T) -> Ordering| #[trigger] orders_by(compare, ord) ==> inserting(ord, s, i, j),
    ensures
        forall|ord: spec_fn(T, T) -> Ordering| #[trigger] orders_by(compare, ord) ==> inserting(
            ord,
            s.update(j, s[j - 1]).update(j - 1, s[j]),
            i,
            j - 1,
        ),
{
    let t = s.update(j, s[j - 1]).update(j - 1, s[j]);
    assert forall|ord: spec_fn(T, T) -> Ordering| #[trigger] orders_by(compare, ord) implies inserting(ord, t, i, j - 1) by {
        reveal(is_total_preorder);
        assert(inserting(ord, s, i, j));
        assert(ord(s[j - 1], s[j]) == Ordering::Greater);
        assert forall|k: int|
            0 <= k < i && k != j - 2 && k != j - 1 implies #[trigger] ord(t[k], t[k + 1])
            != Ordering::Greater by {
            if k == j {
                assert(t[k] == s[j - 1]);
            } else {
                assert(t[k] == s[k]);
                assert(t[k + 1] == s[k + 1]);
            }
        }
        if 1 < j {
            assert(ord(s[j - 2], s[j - 2 + 1]) != Ordering::Greater);
        }
    }
}

/// The moving element has stopped: at the front, or behind an element that
/// `compare` does not put after it. The pairs up to `i` are then in order.
proof fn lemma_insert_stop<T, F: Fn(&T, &T) -> Ordering>(compare: F, s: Seq<T>, i: int, j: int, o: Ordering)
    requires
        0 <= j <= i < s.len(),
        j > 0 ==> compare.ensures((&s[j - 1], &s[j]), o) && o != Ordering::Greater,
        forall|ord: spec_fn(T, T) -> Ordering| #[trigger] orders_by(compare, ord) ==> inserting(ord, s, i, j),
    ensures
        forall|ord: spec_fn(T, T) -> Ordering| #[trigger] orders_by(compare, ord) ==> pairs_in_order_except(
            ord,
            s,
            i,
            -1,
            -1,
        ),
{
    assert forall|ord: spec_fn(T, T) -> Ordering| #[trigger] orders_by(compare, ord) implies pairs_in_order_except(
        ord,
        s,
        i,
        -1,
        -1,
    ) by {
        assert(inserting(ord, s, i, j));
        assert forall|k: int| 0 <= k < i implies #[trigger] ord(s[k], s[k + 1]) != Ordering::Greater by {
            if k == j - 1 {
                assert(ord(s[j - 1], s[j]) == o);
            }
        }
    }
}

/// `perm` lists each index of `0..n` exactly once.
pub open spec fn is_index_permutation(perm: Seq<int>, n: int) -> bool {
    &&& perm.len() == n
    &&& forall|k: int| 0 <= k < n ==> 0 <= #[trigger] perm[k] < n
    &&& forall|k1: int, k2: int|
        0 <= k1 < n && 0 <= k2 < n && k1 != k2 ==> #[trigger] perm[k1] != #[trigger] perm[k2]
}

/// Of the elements of `s` before `hi`, other than the one at `skip`, any two
/// that `ord` calls equal came from `perm` in their original order.
pub open spec fn keeps_equal_order<T>(
    ord: spec_fn(T, T) -> Ordering,
    s: Seq<T>,
    perm: Seq<int>,
    hi: int,
    skip: int,
) -> bool {
    forall|k1: int, k2: int|
        0 <= k1 < k2 < hi && k1 != skip && k2 != skip && #[trigger] ord(s[k1], s[k2])
            == Ordering::Equal ==> perm[k1] < perm[k2]
}

/// `s` is `orig` rearranged so that elements that `compare` calls equal
/// keep their relative order: the element at `k` came from `perm[k]`.
pub open spec fn is_stable_rearrangement<T, F: Fn(&T, &T) -> Ordering>(compare: F, orig: Seq<T>, s: Seq<T>) -> bool {
    exists|perm: Seq<int>|
        #![trigger is_index_permutation(perm, orig.len() as int)]
        is_index_permutation(perm, orig.len() as int) && s.len() == orig.len() && (forall|k: int|
            0 <= k < s.len() ==> #[trigger] s[k] == orig[perm[k]]) && (forall|
            ord: spec_fn(T, T) -> Ordering,
        |
            #[trigger] orders_by(compare, ord) ==> keeps_equal_order(ord, s, perm, s.len() as int, -1))
}

/// While the element from `i` moves back and stands at `j`, the others up
/// to `i` keep the order of their equal elements, and it is less than each
/// element it has passed.
pub open spec fn stable_inserting<T>(ord: spec_fn(T, T) -> Ordering, s: Seq<T>, perm: Seq<int>, i: int, j: int) -> bool {
    &&& keeps_equal_order(ord, s, perm, i + 1, j)
    &&& forall|k: int| j < k <= i ==> #[trigger] ord(s[j], s[k]) == Ordering::Less
}

/// One backward step of the moving element keeps the order of equal elements.
proof fn lemma_stable_step<T, F: Fn(&T, &T) -> Ordering>(compare: F, s: Seq<T>, perm: Seq<int>, i: int, j: int)
    requires
        0 < j <= i < s.len(),
        perm.len() == s.len(),
        compare.ensures((&s[j - 1], &s[j]), Ordering::Greater),
        forall|ord: spec_fn(T, T) -> Ordering| #[trigger] orders_by(compare, ord) ==> stable_inserting(
            ord,
            s,
            perm,
            i,
            j,
        ),
    ensures
        forall|ord: spec_fn(T, T) -> Ordering| #[trigger] orders_by(compare, ord) ==> stable_inserting(
            ord,
            s.update(j, s[j - 1]).update(j - 1, s[j]),
            perm.update(j, perm[j - 1]).update(j - 1, perm[j]),
            i,
            j - 1,
        ),
{
    let t = s.update(j, s[j - 1]).update(j - 1, s[j]);
    let q = perm.update(j, perm[j - 1]).update(j - 1, perm[j]);
    assert forall|ord: spec_fn(T, T) -> Ordering| #[trigger] orders_by(compare, ord) implies stable_inserting(
        ord,
        t,
        q,
        i,
        j - 1,
    ) by {
        reveal(is_total_preorder);
        assert(stable_inserting(ord, s, perm, i, j));
        assert(ord(s[j - 1], s[j]) == Ordering::Greater);
        assert forall|k1: int, k2: int|
            0 <= k1 < k2 < i + 1 && k1 != j - 1 && k2 != j - 1 && #[trigger] ord(t[k1], t[k2])
                == Ordering::Equal implies q[k1] < q[k2] by {
            let o1 = if k1 == j { j - 1 } else { k1 };
            let o2 = if k2 == j { j - 1 } else { k2 };
            assert(t[k1] == s[o1] && q[k1] == perm[o1]);
            assert(t[k2] == s[o2] && q[k2] == perm[o2]);
            assert(ord(s[o1], s[o2]) == Ordering::Equal);
        }
        assert forall|k: int| j - 1 < k <= i implies #[trigger] ord(t[j - 1], t[k]) == Ordering::Less by {
            if k > j {
                assert(ord(s[j], s[k]) == Ordering::Less);
            }
        }
    }
}

/// Sorts `v` by adjacent swaps: each element in turn moves back past the
/// elements that `compare` puts after it.
pub fn insertion_sort<T, F: Fn(&T, &T) -> Ordering>(v: &mut [T], compare: &F)
    requires
        callable_on_all(*compare),
    ensures
        final(v)@.len() == old(v)@.len(),
        final(v)@.to_multiset() == old(v)@.to_multiset(),
        forall|ord: spec_fn(T, T) -> Ordering| #[trigger] orders_by(*compare, ord) ==> is_sorted(ord, final(v)@),
        forall|ord: spec_fn(T, T) -> Ordering|
            #[trigger] orders_by(*compare, ord) && is_sorted(ord, old(v)@) ==> final(v)@ == old(v)@,
        is_stable_rearrangement(*compare, old(v)@, final(v)@),
{
    let n = v.len();
    let mut i: usize = 1;
    let ghost mut perm: Seq<int> = Seq::new(n as nat, |k: int| k);
    while i < n
        invariant
            n == v@.len(),
            1 <= i,
            n > 0 ==> i <= n,
            callable_on_all(*compare),
            v@.to_multiset() == old(v)@.to_multiset(),
            forall|ord: spec_fn(T, T) -> Ordering| #[trigger] orders_by(*compare, ord) ==>
                pairs_in_order_except(ord, v@, i - 1, -1, -1),
            forall|ord: spec_fn(T, T) -> Ordering|
                #[trigger] orders_by(*compare, ord) && is_sorted(ord, old(v)@) ==> v@ == old(v)@,
            is_index_permutation(perm, n as int),
            forall|k: int| 0 <= k < n ==> #[trigger] v@[k] == old(v)@[perm[k]],
            forall|k: int| i <= k < n ==> #[trigger] perm[k] == k,
            forall|k: int| 0 <= k < i && k < n ==> #[trigger] perm[k] < i,
            forall|ord: spec_fn(T, T) -> Ordering| #[trigger] orders_by(*compare, ord) ==>
                keeps_equal_order(ord, v@, perm, i as int, -1),
        decreases n - i,
    {
        let mut j: usize = i;
        loop
            invariant
                n == v@.len(),
                1 <= i < n,
                j <= i,
                callable_on_all(*compare),
                v@.to_multiset() == old(v)@.to_multiset(),
                forall|ord: spec_fn(T, T) -> Ordering| #[trigger] orders_by(*compare, ord) ==>
                    inserting(ord, v@, i as int, j as int),
                forall|ord: spec_fn(T, T) -> Ordering|
                    #[trigger] orders_by(*compare, ord) && is_sorted(ord, old(v)@) ==> v@ == old(v)@ && j
                        == i,
                is_index_permutation(perm, n as int),
                forall|k: int| 0 <= k < n ==> #[trigger] v@[k] == old(v)@[perm[k]],
                forall|k: int| i < k < n ==> #[trigger] perm[k] == k,
                perm[j as int] == i,
                forall|k: int| 0 <= k <= i && k != j ==> #[trigger] perm[k] < i,
                forall|ord: spec_fn(T, T) -> Ordering| #[trigger] orders_by(*compare, ord) ==>
                    stable_inserting(ord, v@, perm, i as int, j as int),
            ensures
                n == v@.len(),
                v@.to_multiset() == old(v)@.to_multiset(),
                forall|ord: spec_fn(T, T) -> Ordering| #[trigger] orders_by(*compare, ord) ==>
                    pairs_in_order_except(ord, v@, i as int, -1, -1),
                forall|ord: spec_fn(T, T) -> Ordering|
                    #[trigger] orders_by(*compare, ord) && is_sorted(ord, old(v)@) ==> v@ == old(v)@,
                is_index_permutation(perm, n as int),
                forall|k: int| 0 <= k < n ==> #[trigger] v@[k] == old(v)@[perm[k]],
                forall|k: int| i < k < n ==> #[trigger] perm[k] == k,
                forall|k: int| 0 <= k <= i ==> #[trigger] perm[k] <= i,
                forall|ord: spec_fn(T, T) -> Ordering| #[trigger] orders_by(*compare, ord) ==>
                    keeps_equal_order(ord, v@, perm, i + 1, -1),
            decreases j,
        {
            if j == 0 {
                proof {
                    lemma_insert_stop(*compare, v@, i as int, 0, Ordering::Equal);
                }
                break;
            }
            let r = compare(&v[j - 1], &v[j]);
            if !matches!(r, Ordering::Greater) {
                proof {
                    lemma_insert_stop(*compare, v@, i as int, j as int, r);
                }
                break;
            }
            proof {
                assert forall|ord: spec_fn(T, T) -> Ordering|
                    #[trigger] orders_by(*compare, ord) && is_sorted(ord, old(v)@) implies false by {
                    assert(v@ == old(v)@ && j == i);
                    assert(ord(v@[j - 1], v@[j - 1 + 1]) != Ordering::Greater);
                }
                crate::swap::lemma_swap_multiset(v@, j as int, (j - 1) as int);
                lemma_insert_step(*compare, v@, i as int, j as int);
                lemma_stable_step(*compare, v@, perm, i as int, j as int);
                perm = perm.update(j as int, perm[j - 1]).update(j - 1, perm[j as int]);
            }
            v.swap(j, j - 1);
            j -= 1;
        }
        i += 1;
    }
    proof {
        assert(is_index_permutation(perm, old(v)@.len() as int));
    }
}

/// An element of `b` stands somewhere in `a` when the two have the same
/// multiset.
proof fn lemma_element_from<T>(a: Seq<T>, b: Seq<T>, k: int) -> (i: int)
    requires
        a.to_multiset() == b.to_multiset(),
        0 <= k < b.len(),
    ensures
        0 <= i < a.len(),
        a[i] == b[k],
{
    vstd::seq_lib::to_multiset_contains(b, b[k]);
    vstd::seq_lib::to_multiset_contains(a, b[k]);
    assert(b.contains(b[k]));
    choose|i: int| 0 <= i < a.len() && a[i] == b[k]
}

/// A partitioned sequence whose outer zones were then sorted in place is
/// sorted, and holds the same elements.
proof fn lemma_zones_sorted<T, F: Fn(&T, &T) -> Ordering>(
    compare: F,
    s1: Seq<T>,
    s3: Seq<T>,
    p: T,
    l: int,
    r: int,
)
    requires
        s1.len() == s3.len(),
        0 <= l,
        0 <= r,
        l + r < s1.len(),
        forall|ord: spec_fn(T, T) -> Ordering| #[trigger] orders_by(compare, ord) ==> is_partitioned(ord, s1, p, l, r),
        s3.subrange(0, l).to_multiset() == s1.subrange(0, l).to_multiset(),
        s3.subrange(l, s1.len() - r) == s1.subrange(l, s1.len() - r),
        s3.subrange(s1.len() - r, s1.len() as int).to_multiset() == s1.subrange(
            s1.len() - r,
            s1.len() as int,
        ).to_multiset(),
        forall|ord: spec_fn(T, T) -> Ordering| #[trigger] orders_by(compare, ord) ==> is_sorted(ord, s3.subrange(0, l)),
        forall|ord: spec_fn(T, T) -> Ordering| #[trigger] orders_by(compare, ord) ==> is_sorted(
            ord,
            s3.subrange(s1.len() - r, s1.len() as int),
        ),
    ensures
        s3.to_multiset() == s1.to_multiset(),
        forall|ord: spec_fn(T, T) -> Ordering| #[trigger] orders_by(compare, ord) ==> is_sorted(ord, s3),
{
    let n = s1.len() as int;
    let m = n - r;
    let a1 = s1.subrange(0, l);
    let b1 = s1.subrange(l, m);
    let c1 = s1.subrange(m, n);
    let a3 = s3.subrange(0, l);
    let c3 = s3.subrange(m, n);
    assert(s1 =~= a1 + b1 + c1);
    assert(s3 =~= a3 + b1 + c3);
    vstd::seq_lib::lemma_multiset_commutative(a1 + b1, c1);
    vstd::seq_lib::lemma_multiset_commutative(a1, b1);
    vstd::seq_lib::lemma_multiset_commutative(a3 + b1, c3);
    vstd::seq_lib::lemma_multiset_commutative(a3, b1);
    assert forall|ord: spec_fn(T, T) -> Ordering| #[trigger] orders_by(compare, ord) implies is_sorted(ord, s3) by {
        reveal(is_total_preorder);
        assert(is_partitioned(ord, s1, p, l, r));
        assert(is_sorted(ord, a3));
        assert(is_sorted(ord, c3));
        assert forall|k: int| 0 <= k < l implies ord(#[trigger] s3[k], p) == Ordering::Less by {
            assert(s3[k] == a3[k]);
            let i = lemma_element_from(a1, a3, k);
            assert(a1[i] == s1[i]);
        }
        assert forall|k: int| l <= k < m implies ord(#[trigger] s3[k], p) == Ordering::Equal by {
            assert(s3[k] == b1[k - l]);
            assert(s1[k] == b1[k - l]);
        }
        assert forall|k: int| m <= k < n implies ord(#[trigger] s3[k], p) == Ordering::Greater by {
            assert(s3[k] == c3[k - m]);
            let i = lemma_element_from(c1, c3, k - m);
            assert(c1[i] == s1[i + m]);
        }
        assert forall|k: int| 0 <= k < n - 1 implies #[trigger] ord(s3[k], s3[k + 1])
            != Ordering::Greater by {
            if k + 1 < l {
                assert(a3[k] == s3[k] && a3[k + 1] == s3[k + 1]);
                assert(ord(a3[k], a3[k + 1]) != Ordering::Greater);
            } else if k >= m {
                assert(c3[k - m] == s3[k] && c3[k - m + 1] == s3[k + 1]);
                assert(ord(c3[k - m], c3[k - m + 1]) != Ordering::Greater);
            } else {
                let x = s3[k];
                let y = s3[k + 1];
                assert(ord(x, p) != Ordering::Greater);
                assert(ord(p, y) != Ordering::Greater);
            }
        }
    }
}

/// The recursive step: insertion sort up to the threshold, and otherwise a
/// partition around the selected pivot followed by a sort of the less and
/// the greater zone. `rec` counts the depth of the recursion; nothing acts
/// on it, and it stops at `u32::MAX`. Each recursive call works on a shorter
/// slice, since the pivot's equal zone is never empty, whatever the
/// comparator answers.
pub fn introsort<T, F: Fn(&T, &T) -> Ordering>(v: &mut [T], compare: &F, rec: u32)
    requires
        callable_on_all(*compare),
    ensures
        final(v)@.len() == old(v)@.len(),
        final(v)@.to_multiset() == old(v)@.to_multiset(),
        forall|ord: spec_fn(T, T) -> Ordering| #[trigger] orders_by(*compare, ord) ==> is_sorted(ord, final(v)@),
    decreases old(v)@.len(),
{
    let n = v.len();
    if n <= 1 {
        return;
    }
    if n <= INSERTION_THRESHOLD {
        insertion_sort(v, compare);
        return;
    }
    let pivot = find_pivot(v, compare);
    let ghost p = v@[pivot as int];
    let (l, r) = partition(v, pivot, compare);
    let ghost s1 = v@;
    let ghost mut low = s1.subrange(0, l as int);
    if l > 0 {
        let (less, rest) = v.split_at_mut(l);
        introsort(less, compare, rec.saturating_add(1));
        proof {
            low = less@;
        }
    }
    let ghost s2 = v@;
    assert(s2.subrange(0, l as int) =~= low);
    assert(s2.subrange(l as int, n as int) =~= s1.subrange(l as int, n as int));
    assert(s2.subrange(n - r, n as int) =~= s1.subrange(n - r, n as int));
    let ghost mut high = s2.subrange(n - r, n as int);
    if r > 0 {
        let (rest, greater) = v.split_at_mut(n - r);
        introsort(greater, compare, rec.saturating_add(1));
        proof {
            high = greater@;
        }
    }
    let ghost s3 = v@;
    proof {
        assert(s3.subrange(0, l as int) =~= s2.subrange(0, l as int));
        assert(s3.subrange(n - r, n as int) =~= high);
        if l == 0 {
            assert(s3.subrange(0, 0) =~= s1.subrange(0, 0));
        }
        if r == 0 {
            assert(s3.subrange(n as int, n as int) =~= s1.subrange(n as int, n as int));
        }
        assert(s3.subrange(l as int, n - r) =~= s1.subrange(l as int, n - r));
        lemma_zones_sorted(*compare, s1, s3, p, l as int, r as int);
    }
}

/// Sorts `v` in place so that `compare` puts no element after the one that
/// follows it.
pub fn sort<T, F: Fn(&T, &T) -> Ordering>(v: &mut [T], compare: F)
    requires
        callable_on_all(compare),
    ensures
        final(v)@.len() == old(v)@.len(),
        final(v)@.to_multiset() == old(v)@.to_multiset(),
        forall|ord: spec_fn(T, T) -> Ordering| #[trigger] orders_by(compare, ord) ==> is_sorted(ord, final(v)@),
        is_valid_comparator(compare) ==> no_adjacent_greater(compare, final(v)@),
{
    introsort(v, &compare, 0);
    proof {
        if is_valid_comparator(compare) {
            let ord = choose|ord: spec_fn(T, T) -> Ordering| orders_by(compare, ord);
            assert(is_sorted(ord, v@));
            assert forall|i: int, o: Ordering|
                0 <= i < v@.len() - 1 && #[trigger] compare.ensures((&v@[i], &v@[i + 1]), o) implies o
                != Ordering::Greater by {
                assert(ord(v@[i], v@[i + 1]) != Ordering::Greater);
            }
        }
    }
}

} // verus!
