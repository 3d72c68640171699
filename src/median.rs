//! Pivot selection: the median of three probes, and the size-dependent
//! strategy built on it.
use core::cmp::Ordering;
use vstd::prelude::*;

use crate::order::{callable_on_all, is_total_preorder, median3_of};

verus! {

/// Below this length the pivot is the middle element.
pub const MEDIAN_THRESHOLD: usize = 30;

/// From this length on the pivot is a median of three medians of three.
pub const MEDIAN_MEDIAN_THRESHOLD: usize = 180;

/// `r` is the median of the medians of three probe triples spread over the
/// start, the middle and the end of `s`, `len / 8` apart within a triple.
pub open spec fn median_of_medians<T, F: Fn(&T, &T) -> Ordering>(compare: F, s: Seq<T>, r: int) -> bool {
    let n = s.len() as int;
    let q = n / 8;
    let mid = n / 2;
    let end = n - 1;
    exists|x: int, y: int, z: int|
        #![trigger median3_of(compare, s, x, y, z, r)]
        median3_of(compare, s, 0, q, 2 * q, x) && median3_of(compare, s, mid - q, mid, mid + q, y)
            && median3_of(compare, s, end - 2 * q, end - q, end, z) && median3_of(compare, s, x, y, z, r)
}

/// The index among `a`, `b`, `c` whose element is the middle one under
/// `compare`, found with at most three comparisons.
pub fn median3<T, F: Fn(&T, &T) -> Ordering>(v: &[T], a: usize, b: usize, c: usize, compare: &F) -> (r: usize)
    requires
        callable_on_all(*compare),
        a < v@.len(),
        b < v@.len(),
        c < v@.len(),
    ensures
        median3_of(*compare, v@, a as int, b as int, c as int, r as int),
{
    proof {
        reveal(is_total_preorder);
    }
    let ab = compare(&v[a], &v[b]);
    if matches!(ab, Ordering::Less) {
        let bc = compare(&v[b], &v[c]);
        if matches!(bc, Ordering::Less) {
            b
        } else {
            let ac = compare(&v[a], &v[c]);
            if matches!(ac, Ordering::Less) {
                c
            } else {
                a
            }
        }
    } else {
        let bc = compare(&v[b], &v[c]);
        if matches!(bc, Ordering::Greater) {
            b
        } else {
            let ac = compare(&v[a], &v[c]);
            if matches!(ac, Ordering::Greater) {
                c
            } else {
                a
            }
        }
    }
}

/// The index of the element that partitioning will use as its pivot: the
/// middle for short slices, a median of three for medium ones, and a median
/// of medians of three for long ones.
pub fn find_pivot<T, F: Fn(&T, &T) -> Ordering>(v: &[T], compare: &F) -> (r: usize)
    requires
        callable_on_all(*compare),
    ensures
        v@.len() > 0 ==> r < v@.len(),
        v@.len() < MEDIAN_THRESHOLD ==> r == v@.len() / 2,
        MEDIAN_THRESHOLD <= v@.len() < MEDIAN_MEDIAN_THRESHOLD ==> median3_of(
            *compare,
            v@,
            0,
            v@.len() as int / 2,
            v@.len() - 1,
            r as int,
        ),
        MEDIAN_MEDIAN_THRESHOLD <= v@.len() ==> median_of_medians(*compare, v@, r as int),
{
    let n = v.len();
    let mid = n / 2;
    if n < MEDIAN_THRESHOLD {
        mid
    } else if n < MEDIAN_MEDIAN_THRESHOLD {
        median3(v, 0, mid, n - 1, compare)
    } else {
        let end = n - 1;
        let s = n / 8;
        let a = median3(v, 0, s, 2 * s, compare);
        let b = median3(v, mid - s, mid, mid + s, compare);
        let c = median3(v, end - 2 * s, end - s, end, compare);
        let r = median3(v, a, b, c, compare);
        assert(median3_of(*compare, v@, a as int, b as int, c as int, r as int));
        r
    }
}

} // verus!
