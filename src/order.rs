//! The mathematical model behind the comparator: a total preorder on the
//! elements, given as a spec function to `Ordering`, and the sortedness of a
//! sequence under it.
use core::cmp::Ordering;
use vstd::prelude::*;

verus! {

/// `ord` is a three-way total preorder: it is antisymmetric in its answers
/// (`Less` one way is `Greater` the other way, `Equal` both ways) and its
/// "not greater" relation is transitive.
#[verifier::opaque]
pub open spec fn is_total_preorder<T>(ord: spec_fn(T, T) -> Ordering) -> bool {
    &&& forall|x: T, y: T| (#[trigger] ord(x, y) == Ordering::Less) == (ord(y, x) == Ordering::Greater)
    &&& forall|x: T, y: T| #[trigger] ord(x, y) == Ordering::Equal ==> ord(y, x) == Ordering::Equal
    &&& forall|x: T, y: T, z: T|
        #![trigger ord(x, y), ord(y, z)]
        ord(x, y) != Ordering::Greater && ord(y, z) != Ordering::Greater ==> ord(x, z)
            != Ordering::Greater
}

/// Every answer that `compare` can give on `(x, y)` is `ord(x, y)`.
pub open spec fn follows<T, F: Fn(&T, &T) -> Ordering>(compare: F, ord: spec_fn(T, T) -> Ordering) -> bool {
    forall|x: T, y: T, o: Ordering| #[trigger] compare.ensures((&x, &y), o) ==> o == ord(x, y)
}

/// `compare` answers as the total preorder `ord` does.
pub open spec fn orders_by<T, F: Fn(&T, &T) -> Ordering>(compare: F, ord: spec_fn(T, T) -> Ordering) -> bool {
    is_total_preorder(ord) && follows(compare, ord)
}

/// A valid comparator: one that answers as some total preorder does.
pub open spec fn is_valid_comparator<T, F: Fn(&T, &T) -> Ordering>(compare: F) -> bool {
    exists|ord: spec_fn(T, T) -> Ordering| orders_by(compare, ord)
}

/// `compare` may be called on any pair of elements.
pub open spec fn callable_on_all<T, F: Fn(&T, &T) -> Ordering>(compare: F) -> bool {
    forall|x: &T, y: &T| #[trigger] compare.requires((x, y))
}

/// No adjacent pair of `s` is out of order under `ord`.
pub open spec fn is_sorted<T>(ord: spec_fn(T, T) -> Ordering, s: Seq<T>) -> bool {
    forall|i: int| 0 <= i < s.len() - 1 ==> #[trigger] ord(s[i], s[i + 1]) != Ordering::Greater
}

/// `m` lies between `x` and `y` under `ord`, in one direction or the other.
pub open spec fn between<T>(ord: spec_fn(T, T) -> Ordering, x: T, m: T, y: T) -> bool {
    (ord(x, m) != Ordering::Greater && ord(m, y) != Ordering::Greater) || (ord(y, m)
        != Ordering::Greater && ord(m, x) != Ordering::Greater)
}

/// `r` is one of the indices `a`, `b`, `c` of `s`, and its element is a median
/// of the three elements under `ord`.
pub open spec fn is_median3<T>(
    ord: spec_fn(T, T) -> Ordering,
    s: Seq<T>,
    a: int,
    b: int,
    c: int,
    r: int,
) -> bool {
    ||| r == a && between(ord, s[b], s[a], s[c])
    ||| r == b && between(ord, s[a], s[b], s[c])
    ||| r == c && between(ord, s[a], s[c], s[b])
}

/// `r` is one of `a`, `b`, `c`, and a median of their elements under every
/// total preorder that `compare` answers by.
pub open spec fn median3_of<T, F: Fn(&T, &T) -> Ordering>(
    compare: F,
    s: Seq<T>,
    a: int,
    b: int,
    c: int,
    r: int,
) -> bool {
    &&& r == a || r == b || r == c
    &&& forall|ord: spec_fn(T, T) -> Ordering| #[trigger] orders_by(compare, ord) ==> is_median3(ord, s, a, b, c, r)
}

/// `compare` answers `Greater` on no adjacent pair of `s`.
pub open spec fn no_adjacent_greater<T, F: Fn(&T, &T) -> Ordering>(compare: F, s: Seq<T>) -> bool {
    forall|i: int, o: Ordering|
        0 <= i < s.len() - 1 && #[trigger] compare.ensures((&s[i], &s[i + 1]), o) ==> o != Ordering::Greater
}

} // verus!
