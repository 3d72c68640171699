//! Laws that relate several sorts of one input.
use core::cmp::Ordering;
use vstd::prelude::*;
use vstd::relations::{sorted_by, total_ordering};

use crate::order::{follows, is_sorted, is_total_preorder, orders_by};
use crate::partition::{lemma_filter_all, lemma_filter_len_same_elements, lemma_filter_none};

verus! {

/// `ord` calls only identical elements equal.
pub open spec fn is_strict<T>(ord: spec_fn(T, T) -> Ordering) -> bool {
    forall|x: T, y: T| #[trigger] ord(x, y) == Ordering::Equal ==> x == y
}

/// `ord` with its arguments exchanged.
pub open spec fn flipped<T>(ord: spec_fn(T, T) -> Ordering) -> spec_fn(T, T) -> Ordering {
    |x: T, y: T| ord(y, x)
}

/// The "not greater" relation of `ord`.
pub open spec fn not_greater<T>(ord: spec_fn(T, T) -> Ordering) -> spec_fn(T, T) -> bool {
    |x: T, y: T| ord(x, y) != Ordering::Greater
}

/// In a sequence sorted under a total preorder, every element is in order
/// with every later one, not only with the next.
proof fn lemma_in_order<T>(ord: spec_fn(T, T) -> Ordering, s: Seq<T>, i: int, j: int)
    requires
        is_total_preorder(ord),
        is_sorted(ord, s),
        0 <= i < j < s.len(),
    ensures
        ord(s[i], s[j]) != Ordering::Greater,
    decreases j - i,
{
    reveal(is_total_preorder);
    assert(ord(s[j - 1], s[j - 1 + 1]) != Ordering::Greater);
    if j > i + 1 {
        lemma_in_order(ord, s, i, j - 1);
    }
}

/// Under a strict total preorder, two sorted sequences with the same
/// elements are equal.
proof fn lemma_sorted_unique_strict<T>(ord: spec_fn(T, T) -> Ordering, x: Seq<T>, y: Seq<T>)
    requires
        is_total_preorder(ord),
        is_strict(ord),
        is_sorted(ord, x),
        is_sorted(ord, y),
        x.to_multiset() == y.to_multiset(),
    ensures
        x == y,
{
    let leq = not_greater(ord);
    assert(total_ordering(leq)) by {
        reveal(is_total_preorder);
    }
    assert forall|i: int, j: int| 0 <= i < j < x.len() implies #[trigger] leq(x[i], x[j]) by {
        lemma_in_order(ord, x, i, j);
    }
    assert forall|i: int, j: int| 0 <= i < j < y.len() implies #[trigger] leq(y[i], y[j]) by {
        lemma_in_order(ord, y, i, j);
    }
    assert(sorted_by(x, leq));
    assert(sorted_by(y, leq));
    vstd::seq_lib::lemma_sorted_unique(x, y, leq);
}

/// Two sorted sequences with the same elements never hold, at one index, an
/// element of the first that is less than the element of the second.
proof fn lemma_not_less_at<T>(ord: spec_fn(T, T) -> Ordering, x: Seq<T>, y: Seq<T>, k: int)
    requires
        is_total_preorder(ord),
        is_sorted(ord, x),
        is_sorted(ord, y),
        x.to_multiset() == y.to_multiset(),
        0 <= k < x.len(),
        x.len() == y.len(),
    ensures
        ord(x[k], y[k]) != Ordering::Less,
{
    broadcast use vstd::seq::Seq::filter_distributes_over_add, vstd::seq::Seq::lemma_filter_len;

    reveal(is_total_preorder);
    let a = x[k];
    let b = y[k];
    if ord(a, b) == Ordering::Less {
        let f = |z: T| ord(z, a) != Ordering::Greater;
        let n = x.len() as int;
        let x1 = x.subrange(0, k + 1);
        let y1 = y.subrange(0, k);
        let y2 = y.subrange(k, n);
        assert(x =~= x1 + x.subrange(k + 1, n));
        assert(y =~= y1 + y2);
        assert forall|i: int| 0 <= i < x1.len() implies f(#[trigger] x1[i]) by {
            if i < k {
                lemma_in_order(ord, x, i, k);
            }
        }
        assert forall|i: int| 0 <= i < y2.len() implies !f(#[trigger] y2[i]) by {
            if i > 0 {
                lemma_in_order(ord, y, k, k + i);
            }
            assert(y2[i] == y[k + i]);
        }
        lemma_filter_all(x1, f);
        lemma_filter_none(y2, f);
        lemma_filter_len_same_elements(x, y, f);
        assert(x.filter(f).len() >= k + 1);
        assert(y.filter(f).len() <= k);
    }
}

/// Two sequences sorted under one total preorder, with the same elements,
/// hold equivalent elements at each index.
pub proof fn lemma_sorted_equivalent<T>(ord: spec_fn(T, T) -> Ordering, x: Seq<T>, y: Seq<T>)
    requires
        is_total_preorder(ord),
        is_sorted(ord, x),
        is_sorted(ord, y),
        x.to_multiset() == y.to_multiset(),
    ensures
        x.len() == y.len(),
        forall|k: int| 0 <= k < x.len() ==> #[trigger] ord(x[k], y[k]) == Ordering::Equal,
{
    vstd::seq_lib::to_multiset_len(x);
    vstd::seq_lib::to_multiset_len(y);
    assert forall|k: int| 0 <= k < x.len() implies #[trigger] ord(x[k], y[k]) == Ordering::Equal by {
        reveal(is_total_preorder);
        lemma_not_less_at(ord, x, y, k);
        lemma_not_less_at(ord, y, x, k);
    }
}

/// Sorting with the flipped comparator gives the reverse order. Let
/// `compare` answer as the total preorder `ord`, and `reversed` answer on
/// `(x, y)` as `compare` does on `(y, x)`. If `by_compare` and
/// `by_reversed` hold the elements of `v`, each sorted as `sort` leaves it
/// under its comparator, then `by_reversed` read backwards is sorted under
/// `ord`, its element at each index is equivalent under `ord` to the element
/// of `by_compare` at the mirrored index, and where `ord` calls only
/// identical elements equal, it is exactly `by_compare` read backwards.
pub proof fn lemma_reverse_comparator<T, F: Fn(&T, &T) -> Ordering, G: Fn(&T, &T) -> Ordering>(
    compare: F,
    reversed: G,
    ord: spec_fn(T, T) -> Ordering,
    v: Seq<T>,
    by_compare: Seq<T>,
    by_reversed: Seq<T>,
)
    requires
        orders_by(compare, ord),
        forall|x: T, y: T, o: Ordering| #[trigger] reversed.ensures((&x, &y), o) ==> compare.ensures((&y, &x), o),
        by_compare.to_multiset() == v.to_multiset(),
        by_reversed.to_multiset() == v.to_multiset(),
        forall|o: spec_fn(T, T) -> Ordering| #[trigger] orders_by(compare, o) ==> is_sorted(o, by_compare),
        forall|o: spec_fn(T, T) -> Ordering| #[trigger] orders_by(reversed, o) ==> is_sorted(o, by_reversed),
    ensures
        is_sorted(ord, by_reversed.reverse()),
        by_reversed.len() == by_compare.len(),
        forall|i: int|
            0 <= i < by_compare.len() ==> #[trigger] ord(by_reversed[i], by_compare[by_compare.len() - 1 - i])
                == Ordering::Equal,
        is_strict(ord) ==> by_reversed == by_compare.reverse(),
{
    let flip = flipped(ord);
    assert(is_total_preorder(flip)) by {
        reveal(is_total_preorder);
    }
    assert(follows(reversed, flip));
    assert(orders_by(reversed, flip));
    assert(is_sorted(flip, by_reversed));
    let t = by_reversed.reverse();
    let n = t.len();
    assert forall|i: int| 0 <= i < n - 1 implies #[trigger] ord(t[i], t[i + 1]) != Ordering::Greater by {
        let k = n - 2 - i;
        assert(flip(by_reversed[k], by_reversed[k + 1]) != Ordering::Greater);
    }
    assert(orders_by(compare, ord));
    by_reversed.lemma_reverse_to_multiset();
    lemma_sorted_equivalent(ord, t, by_compare);
    assert forall|i: int| 0 <= i < by_compare.len() implies #[trigger] ord(
        by_reversed[i],
        by_compare[by_compare.len() - 1 - i],
    ) == Ordering::Equal by {
        let k = n - 1 - i;
        assert(t[k] == by_reversed[i]);
        assert(ord(t[k], by_compare[k]) == Ordering::Equal);
    }
    if is_strict(ord) {
        by_reversed.lemma_reverse_to_multiset();
        lemma_sorted_unique_strict(ord, by_compare, t);
        assert(by_reversed =~= t.reverse());
    }
}

/// Sorting a sorted sequence leaves it as it was, where the comparator
/// answers as a total preorder that calls only identical elements equal:
/// `sorted` is what `sort` makes of the already sorted `v`.
pub proof fn lemma_sort_sorted<T, F: Fn(&T, &T) -> Ordering>(
    compare: F,
    ord: spec_fn(T, T) -> Ordering,
    v: Seq<T>,
    sorted: Seq<T>,
)
    requires
        orders_by(compare, ord),
        is_strict(ord),
        is_sorted(ord, v),
        sorted.to_multiset() == v.to_multiset(),
        forall|o: spec_fn(T, T) -> Ordering| #[trigger] orders_by(compare, o) ==> is_sorted(o, sorted),
    ensures
        sorted == v,
{
    lemma_sorted_unique_strict(ord, sorted, v);
}

} // verus!
