//! How a region of cells divides into segments.
//!
//! A segment is a header cell and the payload cells that its header counts.
//! The next header stands right behind the payload, so the headers form a
//! chain through the region. The predicates here speak of that chain over a
//! plain sequence of cells; the lemmas say how the chain behaves when cells
//! change.
use vstd::prelude::*;

use crate::header::{capacity_of, is_busy};
use crate::MINALLOC;

verus! {

/// The cell right behind the segment whose header stands at `at`.
pub open spec fn next_header(cells: Seq<u32>, at: int) -> int {
    at + 1 + capacity_of(cells[at])
}

/// Walking from header to header, the chain that starts at `from` arrives
/// exactly at `to`, and every segment on the way has at least the smallest
/// payload.
pub open spec fn reaches(cells: Seq<u32>, from: int, to: int) -> bool
    decreases to - from,
{
    if from == to {
        true
    } else if 0 <= from < cells.len() && next_header(cells, from) <= to {
        capacity_of(cells[from]) >= MINALLOC && reaches(cells, next_header(cells, from), to)
    } else {
        false
    }
}

/// The region divides into segments without a gap and without a rest.
pub open spec fn tiled(cells: Seq<u32>) -> bool {
    reaches(cells, 0, cells.len() as int)
}

/// A segment's header stands at `at`.
pub open spec fn is_header(cells: Seq<u32>, at: int) -> bool {
    0 <= at < cells.len() && reaches(cells, 0, at)
}

/// Every segment from `from` up to `to` is free.
pub open spec fn free_between(cells: Seq<u32>, from: int, to: int) -> bool {
    forall|h: int| from <= h < to && #[trigger] is_header(cells, h) ==> !is_busy(cells[h])
}

/// The headers of the segments that start at `from` or later, in order.
pub open spec fn headers_from(cells: Seq<u32>, from: int) -> Seq<int>
    decreases cells.len() - from,
{
    if 0 <= from < cells.len() && next_header(cells, from) <= cells.len() {
        seq![from] + headers_from(cells, next_header(cells, from))
    } else {
        Seq::empty()
    }
}

/// The headers of all segments of the region, in order.
pub open spec fn headers(cells: Seq<u32>) -> Seq<int> {
    headers_from(cells, 0)
}

/// The cells that the segments with the given headers take up, headers
/// included: one for each header, and its payload.
pub open spec fn extent(cells: Seq<u32>, heads: Seq<int>) -> int
    decreases heads.len(),
{
    if heads.len() == 0 {
        0
    } else {
        1 + capacity_of(cells[heads.first()]) + extent(cells, heads.drop_first())
    }
}

/// Two stretches of the chain join into one.
pub proof fn lemma_reaches_join(cells: Seq<u32>, from: int, mid: int, to: int)
    requires
        reaches(cells, from, mid),
        reaches(cells, mid, to),
    ensures
        reaches(cells, from, to),
    decreases mid - from,
{
    if from != mid {
        lemma_reaches_join(cells, next_header(cells, from), mid, to);
        lemma_reaches_ordered(cells, mid, to);
    }
}

/// The chain only moves forward.
pub proof fn lemma_reaches_ordered(cells: Seq<u32>, from: int, to: int)
    requires
        reaches(cells, from, to),
    ensures
        from <= to,
{
}

/// Of two points on one chain, the earlier reaches the later.
pub proof fn lemma_reaches_split(cells: Seq<u32>, from: int, x: int, y: int)
    requires
        reaches(cells, from, x),
        reaches(cells, from, y),
        x <= y,
    ensures
        reaches(cells, x, y),
    decreases x - from,
{
    if from != x {
        lemma_reaches_split(cells, next_header(cells, from), x, y);
    }
}

/// A header's segment ends at or before any later point of the chain.
pub proof fn lemma_segment_before(cells: Seq<u32>, from: int, h: int, later: int)
    requires
        reaches(cells, from, h),
        reaches(cells, from, later),
        h < later,
    ensures
        0 <= h < cells.len(),
        capacity_of(cells[h]) >= MINALLOC,
        next_header(cells, h) <= later,
        reaches(cells, next_header(cells, h), later),
{
    lemma_reaches_split(cells, from, h, later);
    lemma_reaches_ordered(cells, next_header(cells, h), later);
}

/// The chain depends on the sizes in the header words alone: where those
/// are kept, the same stretch is a chain in the changed region too.
pub proof fn lemma_reaches_kept(old_cells: Seq<u32>, new_cells: Seq<u32>, from: int, to: int)
    requires
        reaches(old_cells, from, to),
        old_cells.len() == new_cells.len(),
        forall|h: int|
            from <= h < to && reaches(old_cells, from, h) ==> capacity_of(#[trigger] new_cells[h])
                == capacity_of(old_cells[h]),
    ensures
        reaches(new_cells, from, to),
    decreases to - from,
{
    if from != to {
        let next = next_header(old_cells, from);
        assert(reaches(old_cells, from, next)) by {
            assert(reaches(old_cells, next, next));
        }
        assert forall|h: int| next <= h < to && reaches(old_cells, next, h) implies capacity_of(
            #[trigger] new_cells[h],
        ) == capacity_of(old_cells[h]) by {
            lemma_reaches_join(old_cells, from, next, h);
        }
        lemma_reaches_kept(old_cells, new_cells, next, to);
    }
}

/// No header stands inside another segment's payload.
pub proof fn lemma_payload_holds_no_header(cells: Seq<u32>, h: int, inside: int)
    requires
        is_header(cells, h),
        h < inside < next_header(cells, h),
    ensures
        !is_header(cells, inside),
{
    if is_header(cells, inside) {
        lemma_segment_before(cells, 0, h, inside);
    }
}

/// In a tiled region every header's segment lies within the region.
pub proof fn lemma_segment_in_region(cells: Seq<u32>, h: int)
    requires
        tiled(cells),
        is_header(cells, h),
    ensures
        capacity_of(cells[h]) >= MINALLOC,
        next_header(cells, h) <= cells.len(),
        reaches(cells, h, cells.len() as int),
        reaches(cells, next_header(cells, h), cells.len() as int),
        next_header(cells, h) < cells.len() ==> is_header(cells, next_header(cells, h)),
{
    lemma_segment_before(cells, 0, h, cells.len() as int);
    lemma_reaches_split(cells, 0, h, cells.len() as int);
    assert(reaches(cells, h, next_header(cells, h))) by {
        assert(reaches(cells, next_header(cells, h), next_header(cells, h)));
    }
    lemma_reaches_join(cells, 0, h, next_header(cells, h));
}

} // verus!
