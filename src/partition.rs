//! Three-way partitioning around a pivot value: the less, equal and greater
//! zones, in that order.
use core::cmp::Ordering;
use vstd::prelude::*;

use crate::order::{callable_on_all, is_total_preorder, orders_by};
use crate::swap::{blocks_swapped, lemma_swap_multiset, swap_many};

verus! {

/// Under `ord`, `s` holds first `l` elements less than `p`, then elements
/// equal to `p`, then `r` elements greater than `p`.
pub open spec fn is_partitioned<T>(ord: spec_fn(T, T) -> Ordering, s: Seq<T>, p: T, l: int, r: int) -> bool {
    &&& 0 <= l
    &&& 0 <= r
    &&& l + r <= s.len()
    &&& forall|k: int| 0 <= k < l ==> ord(#[trigger] s[k], p) == Ordering::Less
    &&& forall|k: int| l <= k < s.len() - r ==> ord(#[trigger] s[k], p) == Ordering::Equal
    &&& forall|k: int| s.len() - r <= k < s.len() ==> ord(#[trigger] s[k], p) == Ordering::Greater
}

/// `compare` may answer `o` on `(x, p)`.
pub open spec fn answers<T, F: Fn(&T, &T) -> Ordering>(compare: F, x: T, p: T, o: Ordering) -> bool {
    compare.ensures((&x, &p), o)
}

/// The state of the partitioning scan: the pivot `p` at 0, elements equal to
/// it in `[1, a)`, less in `[a, b)`, greater in `(c, d]`, equal in `(d, n)`.
pub open spec fn scan_state<T, F: Fn(&T, &T) -> Ordering>(
    compare: F,
    s: Seq<T>,
    p: T,
    a: int,
    b: int,
    c: int,
    d: int,
) -> bool {
    &&& 1 <= a <= b <= c + 1
    &&& c <= d < s.len()
    &&& s[0] == p
    &&& forall|k: int| 1 <= k < a ==> answers(compare, #[trigger] s[k], p, Ordering::Equal)
    &&& forall|k: int| a <= k < b ==> answers(compare, #[trigger] s[k], p, Ordering::Less)
    &&& forall|k: int| c < k <= d ==> answers(compare, #[trigger] s[k], p, Ordering::Greater)
    &&& forall|k: int| d < k < s.len() ==> answers(compare, #[trigger] s[k], p, Ordering::Equal)
}

/// The two block swaps that end the scan move the equal runs between the
/// less and the greater zone.
proof fn lemma_closing_swaps<T, F: Fn(&T, &T) -> Ordering>(
    compare: F,
    s0: Seq<T>,
    s1: Seq<T>,
    s2: Seq<T>,
    p: T,
    a: int,
    b: int,
    c: int,
    d: int,
    l: int,
    r: int,
)
    requires
        scan_state(compare, s0, p, a, b, c, d),
        c < b || (b == c && answers(compare, s0[b], p, Ordering::Greater) && answers(compare, s0[c], p, Ordering::Less)),
        l == if a < b - a { a } else { b - a },
        r == if d - c < s0.len() - 1 - d { d - c } else { s0.len() - 1 - d },
        s1 == blocks_swapped(s0, 0, b - l, l),
        s2 == blocks_swapped(s1, b, s0.len() - r, r),
    ensures
        forall|ord: spec_fn(T, T) -> Ordering| #[trigger] orders_by(compare, ord) ==>
            is_partitioned(ord, s2, p, b - a, d - c),
{
    let n = s0.len();
    assert forall|ord: spec_fn(T, T) -> Ordering| #[trigger] orders_by(compare, ord) implies
        is_partitioned(ord, s2, p, b - a, d - c) by {
        reveal(is_total_preorder);
        assert(ord(p, p) == Ordering::Equal);
        if b == c {
            assert(false);
        }
        assert forall|k: int| 0 <= k < b - a implies ord(#[trigger] s2[k], p) == Ordering::Less by {
            assert(s2[k] == s1[k]);
            if k < l {
                assert(s1[k] == s0[k + b - l]);
            } else {
                assert(s1[k] == s0[k]);
            }
        }
        assert forall|k: int| b - a <= k < n - (d - c) implies ord(#[trigger] s2[k], p)
            == Ordering::Equal by {
            if k < b {
                assert(s2[k] == s1[k]);
                if k >= b - l {
                    assert(s1[k] == s0[k - (b - l)]);
                } else {
                    assert(s1[k] == s0[k]);
                }
            } else {
                if k < b + r {
                    assert(s2[k] == s1[k - b + (n - r)]);
                    assert(s1[k - b + (n - r)] == s0[k - b + (n - r)]);
                } else {
                    assert(s2[k] == s1[k]);
                    assert(s1[k] == s0[k]);
                }
            }
        }
        assert forall|k: int| n - (d - c) <= k < n implies ord(#[trigger] s2[k], p)
            == Ordering::Greater by {
            if k >= n - r {
                assert(s2[k] == s1[k - (n - r) + b]);
                assert(s1[k - (n - r) + b] == s0[k - (n - r) + b]);
            } else {
                assert(s2[k] == s1[k]);
                assert(s1[k] == s0[k]);
            }
        }
    }
}

/// The elements that `ord` puts in relation `o` to `p`.
pub open spec fn compares_as<T>(ord: spec_fn(T, T) -> Ordering, p: T, o: Ordering) -> spec_fn(T) -> bool {
    |x: T| ord(x, p) == o
}

/// How many elements of `s` stand in relation `o` to `p` under `ord`.
pub open spec fn count_as<T>(ord: spec_fn(T, T) -> Ordering, s: Seq<T>, p: T, o: Ordering) -> nat {
    s.filter(compares_as(ord, p, o)).len()
}

/// A one-element sequence keeps its element under a filter exactly when the
/// element passes.
proof fn lemma_filter_single<T>(x: T, f: spec_fn(T) -> bool)
    ensures
        seq![x].filter(f).len() == if f(x) { 1nat } else { 0nat },
{
    reveal(Seq::filter);
    let e = Seq::<T>::empty();
    assert(seq![x].drop_last() =~= e);
    assert(e.filter(f) == e);
    assert(seq![x].last() == x);
}

/// Filtering keeps every element when every element passes.
pub(crate) proof fn lemma_filter_all<T>(s: Seq<T>, f: spec_fn(T) -> bool)
    requires
        forall|k: int| 0 <= k < s.len() ==> f(#[trigger] s[k]),
    ensures
        s.filter(f).len() == s.len(),
    decreases s.len(),
{
    reveal(Seq::filter);
    if s.len() > 0 {
        lemma_filter_all(s.drop_last(), f);
    }
}

/// Filtering drops every element when none passes.
pub(crate) proof fn lemma_filter_none<T>(s: Seq<T>, f: spec_fn(T) -> bool)
    requires
        forall|k: int| 0 <= k < s.len() ==> !f(#[trigger] s[k]),
    ensures
        s.filter(f).len() == 0,
    decreases s.len(),
{
    reveal(Seq::filter);
    if s.len() > 0 {
        lemma_filter_none(s.drop_last(), f);
    }
}

/// Two sequences with the same multiset have equally many elements that
/// pass a filter.
pub(crate) proof fn lemma_filter_len_same_elements<T>(s: Seq<T>, t: Seq<T>, f: spec_fn(T) -> bool)
    requires
        s.to_multiset() == t.to_multiset(),
    ensures
        s.filter(f).len() == t.filter(f).len(),
    decreases s.len(),
{
    broadcast use vstd::seq::Seq::filter_distributes_over_add;

    vstd::seq_lib::to_multiset_len(s);
    vstd::seq_lib::to_multiset_len(t);
    if s.len() == 0 {
        assert(t =~= s);
    } else {
        let n = s.len() - 1;
        let x = s[n];
        vstd::seq_lib::to_multiset_contains(s, x);
        vstd::seq_lib::to_multiset_contains(t, x);
        assert(s.contains(x));
        let i = choose|i: int| 0 <= i < t.len() && t[i] == x;
        vstd::seq_lib::to_multiset_remove(s, n);
        vstd::seq_lib::to_multiset_remove(t, i);
        let s1 = s.remove(n);
        let t1 = t.remove(i);
        lemma_filter_len_same_elements(s1, t1, f);
        assert(s =~= s1 + seq![x]);
        assert(t =~= t.subrange(0, i) + seq![x] + t.subrange(i + 1, t.len() as int));
        assert(t1 =~= t.subrange(0, i) + t.subrange(i + 1, t.len() as int));
        lemma_filter_single(x, f);
    }
}

/// The sizes of the zones of a partitioned rearrangement of `s` are the
/// numbers of elements of `s` less and greater than the pivot value.
proof fn lemma_zone_counts<T>(ord: spec_fn(T, T) -> Ordering, s: Seq<T>, t: Seq<T>, p: T, l: int, r: int)
    requires
        t.to_multiset() == s.to_multiset(),
        is_partitioned(ord, t, p, l, r),
    ensures
        l == count_as(ord, s, p, Ordering::Less),
        r == count_as(ord, s, p, Ordering::Greater),
{
    broadcast use vstd::seq::Seq::filter_distributes_over_add;

    let n = t.len() as int;
    let a = t.subrange(0, l);
    let b = t.subrange(l, n - r);
    let c = t.subrange(n - r, n);
    assert(t =~= a + b + c);
    let less = compares_as(ord, p, Ordering::Less);
    let greater = compares_as(ord, p, Ordering::Greater);
    lemma_filter_len_same_elements(s, t, less);
    lemma_filter_len_same_elements(s, t, greater);
    assert forall|k: int| 0 <= k < a.len() implies less(#[trigger] a[k]) by {
        assert(a[k] == t[k]);
    }
    assert forall|k: int| 0 <= k < b.len() implies !less(#[trigger] b[k]) && !greater(b[k]) by {
        assert(b[k] == t[k + l]);
    }
    assert forall|k: int| 0 <= k < c.len() implies greater(#[trigger] c[k]) by {
        assert(c[k] == t[k + n - r]);
    }
    assert forall|k: int| 0 <= k < a.len() implies !greater(#[trigger] a[k]) by {
        assert(a[k] == t[k]);
    }
    assert forall|k: int| 0 <= k < c.len() implies !less(#[trigger] c[k]) by {
        assert(c[k] == t[k + n - r]);
    }
    lemma_filter_all(a, less);
    lemma_filter_none(b, less);
    lemma_filter_none(c, less);
    lemma_filter_none(a, greater);
    lemma_filter_none(b, greater);
    lemma_filter_all(c, greater);
}

/// Rearranges `v` around the value at `pivot` into the less, equal and
/// greater zones, and returns the sizes of the less and the greater zone.
pub fn partition<T, F: Fn(&T, &T) -> Ordering>(v: &mut [T], pivot: usize, compare: &F) -> (res: (usize, usize))
    requires
        callable_on_all(*compare),
        pivot < old(v)@.len(),
    ensures
        final(v)@.len() == old(v)@.len(),
        final(v)@.to_multiset() == old(v)@.to_multiset(),
        res.0 + res.1 < old(v)@.len(),
        forall|ord: spec_fn(T, T) -> Ordering| #[trigger] orders_by(*compare, ord) ==>
            is_partitioned(ord, final(v)@, old(v)@[pivot as int], res.0 as int, res.1 as int),
        forall|ord: spec_fn(T, T) -> Ordering| #[trigger] orders_by(*compare, ord) ==> {
            &&& res.0 == count_as(ord, old(v)@, old(v)@[pivot as int], Ordering::Less)
            &&& res.1 == count_as(ord, old(v)@, old(v)@[pivot as int], Ordering::Greater)
        },
{
    let n = v.len();
    proof {
        lemma_swap_multiset(v@, 0, pivot as int);
    }
    v.swap(0, pivot);
    let ghost p = v@[0];
    let ghost ms = v@.to_multiset();
    assert(p == old(v)@[pivot as int]);
    // The pivot at 0 is its own equal run, so the scans start past it.
    let mut a: usize = 1;
    let mut b: usize = 1;
    let mut c: usize = n - 1;
    let mut d: usize = n - 1;
    loop
        invariant
            n == v@.len(),
            v@.to_multiset() == ms,
            scan_state(*compare, v@, p, a as int, b as int, c as int, d as int),
            callable_on_all(*compare),
        ensures
            n == v@.len(),
            v@.to_multiset() == ms,
            scan_state(*compare, v@, p, a as int, b as int, c as int, d as int),
            c < b || (b == c && answers(*compare, v@[b as int], p, Ordering::Greater) && answers(
                *compare,
                v@[c as int],
                p,
                Ordering::Less,
            )),
        decreases c + 2 - b,
    {
        let ghost b0 = b;
        let ghost c0 = c;
        while b <= c
            invariant
                n == v@.len(),
                v@.to_multiset() == ms,
                scan_state(*compare, v@, p, a as int, b as int, c as int, d as int),
                callable_on_all(*compare),
                b0 <= b,
                c == c0,
            ensures
                n == v@.len(),
                v@.to_multiset() == ms,
                scan_state(*compare, v@, p, a as int, b as int, c as int, d as int),
                b <= c ==> answers(*compare, v@[b as int], p, Ordering::Greater),
                b0 <= b,
                c == c0,
            decreases c + 1 - b,
        {
            let r = compare(&v[b], &v[0]);
            if matches!(r, Ordering::Greater) {
                break;
            }
            if matches!(r, Ordering::Equal) {
                proof {
                    lemma_swap_multiset(v@, a as int, b as int);
                }
                v.swap(a, b);
                a += 1;
            }
            b += 1;
        }
        while c >= b
            invariant
                n == v@.len(),
                v@.to_multiset() == ms,
                scan_state(*compare, v@, p, a as int, b as int, c as int, d as int),
                b <= c ==> answers(*compare, v@[b as int], p, Ordering::Greater),
                callable_on_all(*compare),
                b0 <= b,
                c <= c0,
            ensures
                n == v@.len(),
                v@.to_multiset() == ms,
                scan_state(*compare, v@, p, a as int, b as int, c as int, d as int),
                b <= c ==> answers(*compare, v@[b as int], p, Ordering::Greater),
                b <= c ==> answers(*compare, v@[c as int], p, Ordering::Less),
                b0 <= b,
                c <= c0,
            decreases c + 1 - b,
        {
            let r = compare(&v[c], &v[0]);
            if matches!(r, Ordering::Less) {
                break;
            }
            if matches!(r, Ordering::Equal) {
                proof {
                    lemma_swap_multiset(v@, c as int, d as int);
                }
                v.swap(c, d);
                d -= 1;
            }
            c -= 1;
        }
        // `b == c` only when the comparator called one element both greater
        // and less than the pivot; stopping there keeps the zones apart.
        if b >= c {
            break;
        }
        proof {
            lemma_swap_multiset(v@, b as int, c as int);
        }
        v.swap(b, c);
        b += 1;
        c -= 1;
    }
    let ghost s0 = v@;
    let l = if a < b - a { a } else { b - a };
    swap_many(v, 0, b - l, l);
    let ghost s1 = v@;
    let r = if d - c < n - 1 - d { d - c } else { n - 1 - d };
    swap_many(v, b, n - r, r);
    let ghost s2 = v@;
    proof {
        lemma_closing_swaps(*compare, s0, s1, s2, p, a as int, b as int, c as int, d as int, l as int, r as int);
        assert forall|ord: spec_fn(T, T) -> Ordering| #[trigger] orders_by(*compare, ord) implies {
            &&& (b - a) == count_as(ord, old(v)@, p, Ordering::Less)
            &&& (d - c) == count_as(ord, old(v)@, p, Ordering::Greater)
        } by {
            lemma_zone_counts(ord, old(v)@, s2, p, (b - a) as int, (d - c) as int);
        }
    }
    (b - a, d - c)
}

} // verus!
