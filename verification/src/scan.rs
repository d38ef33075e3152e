//! The allocation scan and its commit, as functions on plain cells.
//!
//! A scan walks the chain of headers from a starting header and adds up the
//! free segments it passes, each interior header counting as one more payload
//! cell, until the run is large enough, a busy segment stands in the way, or
//! the region ends. The commit writes the header of the segment that is handed
//! out and, where enough is left of the run, the header of a free tail.
use vstd::prelude::*;

use crate::header::{capacity_of, free_word, is_busy};
use crate::layout::{
    is_header, lemma_reaches_join, lemma_reaches_kept, lemma_reaches_ordered,
    lemma_reaches_split, lemma_segment_before, lemma_segment_in_region, next_header, reaches,
    tiled,
};
use crate::{MAXALLOC, MINALLOC, U32SIZE};

verus! {

/// How a scan ends.
pub enum ScanEnd {
    /// The run of free segments holds this many payload cells, which is
    /// enough.
    Found(int),
    /// A busy segment stands in the way.
    Blocked,
    /// The scan came to its limit before the run was large enough.
    Wall,
}

/// Where a request is placed.
pub struct Place {
    /// The header of the first segment of the run.
    pub at: int,
    /// The payload cells that the run holds.
    pub total: int,
    /// Whether the scan started over at the first cell.
    pub wrapped: bool,
}

/// The payload cells that a request of `min` bytes asks for: the bytes in
/// whole cells, and no less than the smallest payload.
pub open spec fn cells_wanted(min: int) -> int {
    let whole = (min + U32SIZE - 1) / (U32SIZE as int);
    if whole < MINALLOC {
        MINALLOC as int
    } else {
        whole
    }
}

/// Whether a request of `min` bytes can be served at all: it asks for
/// something, and for less than the largest payload.
pub open spec fn in_range(min: int) -> bool {
    0 < min && (min + U32SIZE - 1) / (U32SIZE as int) < MAXALLOC
}

/// The end of the scan that began at header `start` and now stands at header
/// `at`. The scan passes no header at or behind `limit`.
pub open spec fn run(cells: Seq<u32>, start: int, at: int, want: int, limit: int) -> ScanEnd
    decreases limit - at,
{
    if !(0 <= start <= at < limit <= cells.len()) {
        ScanEnd::Wall
    } else if is_busy(cells[at]) {
        ScanEnd::Blocked
    } else if at - start + capacity_of(cells[at]) >= want {
        ScanEnd::Found(at - start + capacity_of(cells[at]))
    } else if next_header(cells, at) >= limit {
        ScanEnd::Wall
    } else {
        run(cells, start, next_header(cells, at), want, limit)
    }
}

/// Where a request for `want` payload cells is placed.
///
/// The scan starts at the head and goes up to the end of the region. If it
/// comes to the end, it starts over at the first cell, once, and goes up to
/// the head: there it has come full circle, and the request is turned down.
/// With the head at the first cell the circle is full at the end of the
/// region.
pub open spec fn placement(cells: Seq<u32>, head: int, want: int) -> Option<Place> {
    match run(cells, head, head, want, cells.len() as int) {
        ScanEnd::Found(total) => Some(Place { at: head, total, wrapped: false }),
        ScanEnd::Blocked => None,
        ScanEnd::Wall => match run(cells, 0, 0, want, head) {
            ScanEnd::Found(total) => Some(Place { at: 0, total, wrapped: true }),
            _ => None,
        },
    }
}

/// The payload that is handed out from a run of `total` cells: the whole run
/// where the rest would be too small for a segment of its own.
pub open spec fn granted(total: int, want: int) -> int {
    if total - want <= MINALLOC {
        total
    } else {
        want
    }
}

/// The cells after a run of `total` payload cells at header `at` was handed
/// out for a request of `want` cells.
pub open spec fn committed(cells: Seq<u32>, at: int, total: int, want: int) -> Seq<u32> {
    let given = granted(total, want);
    let first = cells.update(at, free_word(given));
    if given < total {
        first.update(at + 1 + given, free_word(total - given - 1))
    } else {
        first
    }
}

/// The head after the segment at `at` was handed out.
pub open spec fn head_after(len: int, at: int, total: int, want: int) -> int {
    let next = at + 1 + granted(total, want);
    if next >= len {
        0
    } else {
        next
    }
}

/// The cells with the segments from header `at` to the end of the region
/// made one free segment.
pub open spec fn merged_to_end(cells: Seq<u32>, at: int) -> Seq<u32> {
    cells.update(at, free_word(cells.len() - 1 - at))
}

/// The cells after a request for `want` payload cells was placed.
///
/// The run is handed out where it was found. Where the scan started over,
/// the free segments that it passed between the head and the end of the
/// region become one, whose header records the distance to the end.
pub open spec fn placed(cells: Seq<u32>, head: int, want: int, place: Place) -> Seq<u32> {
    if place.wrapped {
        merged_to_end(committed(cells, place.at, place.total, want), head)
    } else {
        committed(cells, place.at, place.total, want)
    }
}

/// The segment at header `h` is a segment of the new cells too, with the same
/// header word and the same payload.
pub open spec fn kept_segment(old_cells: Seq<u32>, new_cells: Seq<u32>, h: int) -> bool {
    &&& is_header(new_cells, h)
    &&& forall|j: int|
        h <= j < next_header(old_cells, h) ==> #[trigger] new_cells[j] == old_cells[j]
}

/// Every busy segment of the old cells is kept.
pub open spec fn keeps_busy(old_cells: Seq<u32>, new_cells: Seq<u32>) -> bool {
    forall|h: int| #[trigger]
        is_header(old_cells, h) && is_busy(old_cells[h]) ==> kept_segment(old_cells, new_cells, h)
}

/// A header word made for a capacity gives that capacity back, and is free.
pub proof fn lemma_free_word(capacity: int)
    requires
        0 <= capacity <= MAXALLOC,
    ensures
        capacity_of(free_word(capacity)) == capacity,
        !is_busy(free_word(capacity)),
{
}

/// What a successful scan has seen: a chain of free segments from its start
/// to the end of the run, before its limit.
pub proof fn lemma_run_found(cells: Seq<u32>, start: int, at: int, want: int, limit: int)
    requires
        0 <= start,
        limit <= cells.len(),
        reaches(cells, start, at),
        reaches(cells, at, limit),
        forall|h: int| reaches(cells, start, h) && h < at ==> !is_busy(#[trigger] cells[h]),
        run(cells, start, at, want, limit) is Found,
    ensures
        ({
            let total = run(cells, start, at, want, limit)->Found_0;
            &&& total >= want
            &&& total >= capacity_of(cells[start])
            &&& start + 1 + total <= limit
            &&& reaches(cells, start, start + 1 + total)
            &&& forall|h: int|
                reaches(cells, start, h) && h < start + 1 + total ==> !is_busy(#[trigger] cells[h])
        }),
    decreases limit - at,
{
    lemma_reaches_ordered(cells, start, at);
    let next = next_header(cells, at);
    lemma_segment_before(cells, at, at, limit);
    assert(reaches(cells, at, next)) by {
        assert(reaches(cells, next, next));
    }
    lemma_reaches_join(cells, start, at, next);
    assert forall|h: int| reaches(cells, start, h) && h < next implies !is_busy(
        #[trigger] cells[h],
    ) by {
        if h > at {
            lemma_segment_before(cells, start, at, h);
        }
    }
    if at - start + capacity_of(cells[at]) >= want {
        if at > start {
            lemma_segment_before(cells, start, start, at);
        }
    } else {
        lemma_run_found(cells, start, next, want, limit);
    }
}

/// What a scan that came to its limit has seen: free segments all the way.
pub proof fn lemma_run_wall(cells: Seq<u32>, start: int, at: int, want: int, limit: int)
    requires
        0 <= start <= at < limit <= cells.len(),
        reaches(cells, at, limit),
        run(cells, start, at, want, limit) is Wall,
    ensures
        forall|h: int| at <= h < limit && reaches(cells, at, h) ==> !is_busy(#[trigger] cells[h]),
    decreases limit - at,
{
    let next = next_header(cells, at);
    lemma_segment_before(cells, at, at, limit);
    if next < limit {
        lemma_run_wall(cells, start, next, want, limit);
    }
    assert forall|h: int| at <= h < limit && reaches(cells, at, h) implies !is_busy(
        #[trigger] cells[h],
    ) by {
        if h > at {
            lemma_reaches_ordered(cells, next, h);
        }
    }
}

/// Handing out a run of free segments keeps the region tiled, makes the
/// handed-out segment and the new head headers, and keeps every segment
/// outside the run as it was.
pub proof fn lemma_committed(cells: Seq<u32>, at: int, total: int, want: int)
    requires
        tiled(cells),
        cells.len() <= MAXALLOC + 1,
        is_header(cells, at),
        reaches(cells, at, at + 1 + total),
        at + 1 + total <= cells.len(),
        MINALLOC <= want <= total,
    ensures
        ({
            let after = committed(cells, at, total, want);
            let given = granted(total, want);
            &&& after.len() == cells.len()
            &&& tiled(after)
            &&& is_header(after, at)
            &&& after[at] == free_word(given)
            &&& capacity_of(after[at]) == given
            &&& want <= given <= total
            &&& is_header(after, head_after(cells.len() as int, at, total, want))
            &&& forall|h: int|
                #![trigger is_header(cells, h)]
                is_header(cells, h) && (h < at || h >= at + 1 + total) ==> kept_segment(
                    cells,
                    after,
                    h,
                )
        }),
{
    let after = committed(cells, at, total, want);
    let given = granted(total, want);
    let len = cells.len() as int;
    let end = at + 1 + total;
    let tail = at + 1 + given;
    lemma_reaches_ordered(cells, 0, at);
    lemma_free_word(given);
    lemma_reaches_join(cells, 0, at, end);
    lemma_reaches_split(cells, 0, end, len);
    lemma_reaches_kept(cells, after, 0, at);
    lemma_reaches_kept(cells, after, end, len);
    assert(reaches(after, end, end));
    if given < total {
        lemma_free_word(total - given - 1);
        assert(reaches(after, tail, tail));
        lemma_reaches_join(after, at, tail, end);
        lemma_reaches_join(after, 0, at, tail);
    }
    lemma_reaches_join(after, 0, at, end);
    lemma_reaches_join(after, 0, end, len);
    assert forall|h: int|
        #![trigger is_header(cells, h)]
        is_header(cells, h) && (h < at || h >= end) implies kept_segment(cells, after, h) by {
        if h < at {
            lemma_segment_before(cells, 0, h, at);
            lemma_reaches_kept(cells, after, 0, h);
        } else {
            lemma_reaches_split(cells, 0, end, h);
            lemma_reaches_kept(cells, after, end, h);
            lemma_reaches_join(after, 0, end, h);
        }
        lemma_segment_in_region(cells, h);
    }
}

/// Handing out a run of free segments keeps every busy segment.
pub proof fn lemma_committed_keeps_busy(cells: Seq<u32>, at: int, total: int, want: int)
    requires
        tiled(cells),
        cells.len() <= MAXALLOC + 1,
        is_header(cells, at),
        reaches(cells, at, at + 1 + total),
        at + 1 + total <= cells.len(),
        MINALLOC <= want <= total,
        forall|h: int|
            reaches(cells, at, h) && h < at + 1 + total ==> !is_busy(#[trigger] cells[h]),
    ensures
        keeps_busy(cells, committed(cells, at, total, want)),
{
    let after = committed(cells, at, total, want);
    lemma_committed(cells, at, total, want);
    assert forall|h: int| #[trigger]
        is_header(cells, h) && is_busy(cells[h]) implies kept_segment(cells, after, h) by {
        if at <= h < at + 1 + total {
            lemma_reaches_split(cells, 0, at, h);
        }
    }
}

/// Cells that do not change keep every busy segment.
pub proof fn lemma_keeps_busy_same(cells: Seq<u32>)
    ensures
        keeps_busy(cells, cells),
{
    assert forall|h: int| #[trigger]
        is_header(cells, h) && is_busy(cells[h]) implies kept_segment(cells, cells, h) by {}
}

/// Busy segments that are kept twice are kept.
pub proof fn lemma_keeps_busy_twice(first: Seq<u32>, second: Seq<u32>, third: Seq<u32>)
    requires
        keeps_busy(first, second),
        keeps_busy(second, third),
    ensures
        keeps_busy(first, third),
{
}

/// Busy segments that are kept, and then kept once more where only a
/// segment that was not among them changes, are kept.
pub proof fn lemma_keeps_busy_others(
    first: Seq<u32>,
    second: Seq<u32>,
    third: Seq<u32>,
    own: int,
)
    requires
        keeps_busy(first, second),
        !(is_header(first, own) && is_busy(first[own])),
        forall|x: int|
            #![trigger is_header(second, x)]
            is_header(second, x) && x != own ==> kept_segment(second, third, x),
    ensures
        keeps_busy(first, third),
{
}

/// Making one free segment of the free segments from a header to the end of
/// the region keeps the region tiled, every busy segment, and every segment
/// before the header.
pub proof fn lemma_merged_to_end(cells: Seq<u32>, at: int)
    requires
        tiled(cells),
        cells.len() <= MAXALLOC + 1,
        is_header(cells, at),
        forall|h: int|
            at <= h < cells.len() && reaches(cells, at, h) ==> !is_busy(#[trigger] cells[h]),
    ensures
        merged_to_end(cells, at).len() == cells.len(),
        tiled(merged_to_end(cells, at)),
        keeps_busy(cells, merged_to_end(cells, at)),
        capacity_of(merged_to_end(cells, at)[at]) == cells.len() - 1 - at,
        !is_busy(merged_to_end(cells, at)[at]),
        forall|h: int|
            #![trigger is_header(cells, h)]
            is_header(cells, h) && h <= at ==> is_header(merged_to_end(cells, at), h),
        forall|h: int|
            #![trigger is_header(cells, h)]
            is_header(cells, h) && h < at ==> kept_segment(cells, merged_to_end(cells, at), h),
{
    let after = merged_to_end(cells, at);
    let len = cells.len() as int;
    lemma_reaches_ordered(cells, 0, at);
    lemma_segment_in_region(cells, at);
    lemma_free_word(len - 1 - at);
    lemma_reaches_kept(cells, after, 0, at);
    assert(reaches(after, at, len)) by {
        assert(reaches(after, len, len));
    }
    lemma_reaches_join(after, 0, at, len);
    assert forall|h: int|
        #![trigger is_header(cells, h)]
        is_header(cells, h) && h <= at implies is_header(after, h) by {
        lemma_reaches_kept(cells, after, 0, h);
    }
    assert forall|h: int|
        #![trigger is_header(cells, h)]
        is_header(cells, h) && h < at implies kept_segment(cells, after, h) by {
        lemma_segment_before(cells, 0, h, at);
    }
    assert forall|h: int| #[trigger]
        is_header(cells, h) && is_busy(cells[h]) implies kept_segment(cells, after, h) by {
        if h >= at {
            lemma_reaches_split(cells, 0, at, h);
        }
    }
}

} // verus!
