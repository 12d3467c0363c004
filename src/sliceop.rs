//! Rows of tables laid out one row after another.

use vstd::prelude::*;

verus! {

/// Row `index` of a table of rows of `row_size` entries each, laid out one row after another.
pub fn row<T>(slice: &[T], index: usize, row_size: usize) -> (r: &[T])
    requires
        (index + 1) * row_size <= slice@.len(),
    ensures
        r@ == slice@.subrange(index * row_size, (index + 1) * row_size),
{
    let len = slice.len();
    proof {
        assert((index + 1) * row_size == index * row_size + row_size) by (nonlinear_arith);
        assert(0 <= index * row_size) by (nonlinear_arith);
        assert(index * row_size + row_size <= len);
    }
    let start = index * row_size;
    vstd::slice::slice_subrange(slice, start, start + row_size)
}

/// Row `index` of a table of rows of `row_size` entries each, to be written in place.
pub fn row_mut<T>(slice: &mut [T], index: usize, row_size: usize) -> (r: &mut [T])
    requires
        (index + 1) * row_size <= old(slice)@.len(),
    ensures
        r@ == old(slice)@.subrange(index * row_size, (index + 1) * row_size),
        final(slice)@ == old(slice)@.subrange(0, index * row_size) + final(r)@ + old(slice)@.subrange(
            (index + 1) * row_size,
            old(slice)@.len() as int,
        ),
{
    let len = slice.len();
    proof {
        assert((index + 1) * row_size == index * row_size + row_size) by (nonlinear_arith);
        assert(0 <= index * row_size) by (nonlinear_arith);
        assert(index * row_size + row_size <= len);
    }
    let start = index * row_size;
    let (_, rest) = slice.split_at_mut(start);
    let (r, _) = rest.split_at_mut(row_size);
    proof {
        assert(r@ =~= old(slice)@.subrange(start as int, start + row_size));
    }
    r
}

} // verus!
