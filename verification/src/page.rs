use vstd::prelude::*;
use vstd::slice::slice_subrange;

verus! {

/// How many pages a list of `len` items fills at `page_size` per page:
/// the ceiling of `len / page_size`, and `0` for an empty list.
pub open spec fn total_pages_of(len: int, page_size: int) -> int
    recommends
        page_size >= 1,
{
    (len + page_size - 1) / page_size
}

/// The page index actually shown for a requested one: clamped to the last
/// existing page, and `0` when there are no pages at all.
pub open spec fn effective_index_of(len: int, page_size: int, requested: int) -> int
    recommends
        page_size >= 1,
        requested >= 0,
{
    let total = total_pages_of(len, page_size);
    if total == 0 {
        0
    } else if requested > total - 1 {
        total - 1
    } else {
        requested
    }
}

/// Windowing arithmetic for one page: returns `(start, end, effective
/// index, total pages)` for a list of `len` items.
///
/// The window `[start, end)` always lies inside the list; a non-empty list
/// yields a non-empty window; and calling again with the effective index
/// returns the same window.
pub fn paginate(len: usize, page_size: usize, requested: usize) -> (r: (usize, usize, usize, usize))
    requires
        page_size >= 1,
        len + page_size <= usize::MAX,
    ensures
        r.3 == total_pages_of(len as int, page_size as int),
        r.2 == effective_index_of(len as int, page_size as int, requested as int),
        r.0 == r.2 * page_size,
        r.1 == (if r.0 + page_size <= len {
            r.0 + page_size
        } else {
            len as int
        }),
        r.0 <= r.1 <= len,
        len > 0 ==> r.0 < r.1,
        r.3 > 0 ==> r.2 < r.3,
        len == 0 ==> r.3 == 0 && r.2 == 0 && r.0 == 0 && r.1 == 0,
        effective_index_of(len as int, page_size as int, r.2 as int) == r.2,
    {
    let total: usize = (len + page_size - 1) / page_size;
    let effective: usize = if total == 0 {
        0
    } else if requested > total - 1 {
        total - 1
    } else {
        requested
    };
    proof {
        let l = len as int;
        let p = page_size as int;
        let t = total as int;
        assert((l == 0 ==> t == 0) && (l > 0 ==> 1 <= t)) by (nonlinear_arith)
            requires
                p >= 1,
                l >= 0,
                t == (l + p - 1) / p,
        {
        }
        if len == 0 {
            assert(effective == 0 && total == 0);
        } else {
            assert(0 <= effective as int <= t - 1);
            assert((effective as int) * p < l) by (nonlinear_arith)
                requires
                    p >= 1,
                    l > 0,
                    t == (l + p - 1) / p,
                    0 <= effective as int <= t - 1,
            {
            }
        }
        assert((effective as int) * p <= l);
    }
    let start: usize = effective * page_size;
    let end: usize = if start + page_size <= len {
        start + page_size
    } else {
        len
    };
    (start, end, effective, total)
}

/// One page of `items`: the sub-slice for the effective page index,
/// in the order of `items`, together with that index and the page total.
pub fn page_slice<'a, T>(items: &'a [T], page_size: usize, requested: usize) -> (r: (
    &'a [T],
    usize,
    usize,
))
    requires
        page_size >= 1,
        items@.len() + page_size <= usize::MAX,
    ensures
        r.2 == total_pages_of(items@.len() as int, page_size as int),
        r.1 == effective_index_of(items@.len() as int, page_size as int, requested as int),
        r.0@ == items@.subrange(
            r.1 * page_size,
            if r.1 * page_size + page_size <= items@.len() {
                r.1 * page_size + page_size
            } else {
                items@.len() as int
            },
        ),
        items@.len() == 0 ==> r.0@ == Seq::<T>::empty() && r.2 == 0,
        items@.len() > 0 ==> r.0@.len() > 0,
{
    let (start, end, effective, total) = paginate(items.len(), page_size, requested);
    let window = slice_subrange(items, start, end);
    proof {
        if items@.len() == 0 {
            assert(window@ =~= Seq::<T>::empty());
        }
    }
    (window, effective, total)
}

/// Pagination is stable: the same list, page size and request always name
/// the same window, and re-requesting the effective index changes nothing.
pub proof fn lemma_pagination_idempotent(len: int, page_size: int, requested: int)
    requires
        page_size >= 1,
        requested >= 0,
        len >= 0,
    ensures
        effective_index_of(
            len,
            page_size,
            effective_index_of(len, page_size, requested),
        ) == effective_index_of(len, page_size, requested),
        total_pages_of(len, page_size) == 0 <==> len == 0,
{
    assert(total_pages_of(len, page_size) == 0 <==> len == 0) by (nonlinear_arith)
        requires
            page_size >= 1,
            len >= 0,
    {
    }
}

} // verus!
