//! The shape of a vantage-point tree over `n` points, which depends on `n`
//! alone: the node built from the range `[lo, hi)` of the index array is
//! numbered `lo`, its left child covers `[lo + 1, lo + 1 + m)` and its right
//! child `[lo + 1 + m, hi)`, with `m = (hi - lo - 1) / 2`.
use vstd::prelude::*;

verus! {

/// Size of the left side of the node whose range is `[j, e)`.
pub open spec fn left_size(j: int, e: int) -> int {
    (e - j - 1) / 2
}

/// End of the range of node `j` in the tree over `[lo, hi)`.
pub open spec fn range_end(lo: int, hi: int, j: int) -> int
    decreases hi - lo,
{
    if lo <= j < hi {
        if j == lo {
            hi
        } else {
            let m = left_size(lo, hi);
            if j < lo + 1 + m {
                range_end(lo + 1, lo + 1 + m, j)
            } else {
                range_end(lo + 1 + m, hi, j)
            }
        }
    } else {
        hi
    }
}

/// A node's range ends after the node and within the enclosing range.
pub proof fn lemma_range_end_bounds(lo: int, hi: int, j: int)
    requires
        lo <= j < hi,
    ensures
        j < range_end(lo, hi, j) <= hi,
    decreases hi - lo,
{
    if j != lo {
        let m = left_size(lo, hi);
        if j < lo + 1 + m {
            lemma_range_end_bounds(lo + 1, lo + 1 + m, j);
        } else {
            lemma_range_end_bounds(lo + 1 + m, hi, j);
        }
    }
}

/// The children of node `j` cover its two sides.
pub proof fn lemma_range_end_children(lo: int, hi: int, j: int)
    requires
        lo <= j < hi,
    ensures
        ({
            let e = range_end(lo, hi, j);
            let m = left_size(j, e);
            &&& m > 0 ==> range_end(lo, hi, j + 1) == j + 1 + m
            &&& e - j - 1 - m > 0 ==> range_end(lo, hi, j + 1 + m) == e
        }),
    decreases hi - lo,
{
    let m = left_size(lo, hi);
    let e = range_end(lo, hi, j);
    let mj = left_size(j, e);
    if j == lo {
        assert(e == hi);
        if mj > 0 {
            assert(range_end(lo + 1, lo + 1 + m, lo + 1) == lo + 1 + m);
        }
        if e - j - 1 - mj > 0 {
            assert(range_end(lo + 1 + m, hi, lo + 1 + m) == hi);
        }
    } else if j < lo + 1 + m {
        lemma_range_end_bounds(lo + 1, lo + 1 + m, j);
        lemma_range_end_children(lo + 1, lo + 1 + m, j);
        assert(e == range_end(lo + 1, lo + 1 + m, j));
        if mj > 0 {
            assert(range_end(lo, hi, j + 1) == range_end(lo + 1, lo + 1 + m, j + 1));
        }
        if e - j - 1 - mj > 0 {
            assert(range_end(lo, hi, j + 1 + mj) == range_end(lo + 1, lo + 1 + m, j + 1 + mj));
        }
    } else {
        lemma_range_end_bounds(lo + 1 + m, hi, j);
        lemma_range_end_children(lo + 1 + m, hi, j);
        assert(e == range_end(lo + 1 + m, hi, j));
        if mj > 0 {
            assert(range_end(lo, hi, j + 1) == range_end(lo + 1 + m, hi, j + 1));
        }
        if e - j - 1 - mj > 0 {
            assert(range_end(lo, hi, j + 1 + mj) == range_end(lo + 1 + m, hi, j + 1 + mj));
        }
    }
}

/// Ranges nest: a node inside a side of node `j` has its range inside that
/// side.
pub proof fn lemma_range_end_nested(lo: int, hi: int, j: int, k: int)
    requires
        lo <= j < k < range_end(lo, hi, j),
    ensures
        k < j + 1 + left_size(j, range_end(lo, hi, j)) ==> range_end(lo, hi, k) <= j + 1
            + left_size(j, range_end(lo, hi, j)),
        k >= j + 1 + left_size(j, range_end(lo, hi, j)) ==> range_end(lo, hi, k) <= range_end(
            lo,
            hi,
            j,
        ),
    decreases hi - lo,
{
    lemma_range_end_bounds(lo, hi, j);
    let m = left_size(lo, hi);
    if j == lo {
        if k < lo + 1 + m {
            lemma_range_end_bounds(lo + 1, lo + 1 + m, k);
        } else {
            lemma_range_end_bounds(lo + 1 + m, hi, k);
        }
    } else if j < lo + 1 + m {
        lemma_range_end_bounds(lo + 1, lo + 1 + m, j);
        lemma_range_end_nested(lo + 1, lo + 1 + m, j, k);
    } else {
        lemma_range_end_bounds(lo + 1 + m, hi, j);
        lemma_range_end_nested(lo + 1 + m, hi, j, k);
    }
}

} // verus!
