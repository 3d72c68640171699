//! Position swaps on a slice: the one primitive that moves elements.
use vstd::prelude::*;

verus! {

/// Relies on `<[T]>::swap`: it exchanges the elements at `a` and `b`, and
/// panics when either index is out of bounds.
pub assume_specification<Item>[ <[Item]>::swap ](items: &mut [Item], a: usize, b: usize)
    requires
        a < old(items)@.len(),
        b < old(items)@.len(),
    ensures
        final(items)@ == old(items)@.update(a as int, old(items)@[b as int]).update(
            b as int,
            old(items)@[a as int],
        ),
;

/// Exchanging two elements of a sequence keeps its multiset.
pub proof fn lemma_swap_multiset<T>(s: Seq<T>, a: int, b: int)
    requires
        0 <= a < s.len(),
        0 <= b < s.len(),
    ensures
        s.update(a, s[b]).update(b, s[a]).to_multiset() == s.to_multiset(),
{
    broadcast use vstd::multiset::group_multiset_axioms;

    let m = s.to_multiset();
    let s1 = s.update(a, s[b]);
    vstd::seq_lib::to_multiset_update(s, a, s[b]);
    vstd::seq_lib::to_multiset_update(s1, b, s[a]);
    vstd::seq_lib::to_multiset_contains(s, s[a]);
    vstd::seq_lib::to_multiset_contains(s, s[b]);
    let m1 = m.insert(s[b]).remove(s[a]);
    assert(s1.to_multiset() == m1);
    if a == b {
        assert(s1.update(b, s[a]) =~= s);
    } else {
        assert(s1[b] == s[b]);
        assert(m1.insert(s[a]).remove(s[b]) =~= m);
    }
}

/// `s` with the blocks `[a, a + n)` and `[b, b + n)` exchanged.
pub open spec fn blocks_swapped<T>(s: Seq<T>, a: int, b: int, n: int) -> Seq<T> {
    Seq::new(
        s.len(),
        |k: int|
            if a <= k < a + n {
                s[k - a + b]
            } else if b <= k < b + n {
                s[k - b + a]
            } else {
                s[k]
            },
    )
}

/// `[a, a + n)` and `[b, b + n)` do not overlap.
pub open spec fn disjoint_blocks(a: int, b: int, n: int) -> bool {
    a + n <= b || b + n <= a
}

/// Exchanges the `n` elements starting at `a` with the `n` elements starting
/// at `b`, one pair at a time. Elements outside both blocks stay in place;
/// where the blocks do not overlap, they trade places.
pub fn swap_many<T>(v: &mut [T], a: usize, b: usize, n: usize)
    requires
        a + n <= old(v)@.len(),
        b + n <= old(v)@.len(),
    ensures
        final(v)@.len() == old(v)@.len(),
        final(v)@.to_multiset() == old(v)@.to_multiset(),
        forall|k: int|
            0 <= k < old(v)@.len() && !(a <= k < a + n) && !(b <= k < b + n) ==> #[trigger] final(v)@[k]
                == old(v)@[k],
        disjoint_blocks(a as int, b as int, n as int) ==> final(v)@ == blocks_swapped(
            old(v)@,
            a as int,
            b as int,
            n as int,
        ),
{
    let len = v.len();
    let mut i: usize = 0;
    while i < n
        invariant
            i <= n,
            len == v@.len(),
            a + n <= len,
            b + n <= len,
            v@.len() == old(v)@.len(),
            v@.to_multiset() == old(v)@.to_multiset(),
            forall|k: int|
                0 <= k < len && !(a <= k < a + n) && !(b <= k < b + n) ==> #[trigger] v@[k] == old(v)@[k],
            disjoint_blocks(a as int, b as int, n as int) ==> v@ == blocks_swapped(
                old(v)@,
                a as int,
                b as int,
                i as int,
            ),
        decreases n - i,
    {
        proof {
            lemma_swap_multiset(v@, (a + i) as int, (b + i) as int);
        }
        v.swap(a + i, b + i);
        i += 1;
        assert(disjoint_blocks(a as int, b as int, n as int) ==> v@ =~= blocks_swapped(
            old(v)@,
            a as int,
            b as int,
            i as int,
        ));
    }
}

/// Exchanging the same two disjoint blocks twice gives back the sequence.
pub proof fn lemma_blocks_swapped_twice<T>(s: Seq<T>, a: int, b: int, n: int)
    requires
        0 <= a,
        0 <= b,
        0 <= n,
        a + n <= s.len(),
        b + n <= s.len(),
        disjoint_blocks(a, b, n),
    ensures
        blocks_swapped(blocks_swapped(s, a, b, n), a, b, n) == s,
{
    assert(blocks_swapped(blocks_swapped(s, a, b, n), a, b, n) =~= s);
}

} // verus!
