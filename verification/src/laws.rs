//! What holds of the ring in every state, and across its operations.
use vstd::prelude::*;

use crate::header::{capacity_of, free_word, is_busy};
use crate::layout::{
    extent, free_between, headers, headers_from, is_header, lemma_reaches_join,
    lemma_reaches_kept, lemma_reaches_ordered, lemma_reaches_split, lemma_segment_before,
    lemma_segment_in_region, next_header, reaches,
};
use crate::scan::{
    cells_wanted, granted, in_range, lemma_free_word, lemma_run_found, lemma_run_wall, placement,
    run,
};
use crate::state::{
    lemma_advanced, lemma_cleared, lemma_extended, lemma_filled, lemma_frozen, lemma_marked,
    lemma_released, lemma_retained, lemma_same_payload, RingState, SharedSpan, Span,
};
use crate::{MAXALLOC, MINALLOC, MINALLOCBYTES, U32SIZE};

verus! {

/// The header that follows the `k`-th of the given headers: the next in the
/// sequence, or the end of the region behind the last.
pub open spec fn following(cells: Seq<u32>, heads: Seq<int>, k: int) -> int {
    if k + 1 < heads.len() {
        heads[k + 1]
    } else {
        cells.len() as int
    }
}

/// The headers listed from a point of the chain on are the headers that the
/// chain passes, each followed by the next right behind its payload, and
/// their segments take up the rest of the region.
proof fn lemma_headers_from(cells: Seq<u32>, from: int)
    requires
        0 <= from,
        reaches(cells, from, cells.len() as int),
    ensures
        extent(cells, headers_from(cells, from)) == cells.len() - from,
        from < cells.len() ==> headers_from(cells, from).len() > 0 && headers_from(cells, from)[0]
            == from,
        forall|k: int|
            #![trigger headers_from(cells, from)[k]]
            0 <= k < headers_from(cells, from).len() ==> {
                let h = headers_from(cells, from)[k];
                &&& from <= h < cells.len()
                &&& reaches(cells, from, h)
                &&& next_header(cells, h) == following(cells, headers_from(cells, from), k)
            },
        forall|h: int|
            from <= h < cells.len() && reaches(cells, from, h) ==> #[trigger] headers_from(
                cells,
                from,
            ).contains(h),
    decreases cells.len() - from,
{
    let len = cells.len() as int;
    let heads = headers_from(cells, from);
    if from < len {
        let next = next_header(cells, from);
        let rest = headers_from(cells, next);
        lemma_headers_from(cells, next);
        assert(heads.drop_first() =~= rest);
        assert forall|k: int| #![trigger heads[k]] 0 <= k < heads.len() implies {
            let h = heads[k];
            &&& from <= h < len
            &&& reaches(cells, from, h)
            &&& next_header(cells, h) == following(cells, heads, k)
        } by {
            if k > 0 {
                lemma_reaches_join(cells, from, next, rest[k - 1]);
            }
        }
        assert forall|h: int| from <= h < len && reaches(cells, from, h) implies #[trigger]
            heads.contains(h) by {
            if h == from {
                assert(heads[0] == h);
            } else {
                assert(rest.contains(h));
            }
        }
    }
}

/// In every state of the ring, the size in a header word is exactly the
/// number of payload cells up to the next header, or up to the end of the
/// region behind the last segment; and the headers listed are all there
/// are.
pub proof fn lemma_headers_count_payload(ring: RingState)
    requires
        ring.wf(),
    ensures
        forall|k: int|
            #![trigger headers(ring.cells)[k]]
            0 <= k < headers(ring.cells).len() ==> {
                let h = headers(ring.cells)[k];
                &&& is_header(ring.cells, h)
                &&& following(ring.cells, headers(ring.cells), k) - (h + 1) == capacity_of(
                    ring.cells[h],
                )
            },
        forall|h: int| is_header(ring.cells, h) ==> #[trigger] headers(ring.cells).contains(h),
{
    lemma_headers_from(ring.cells, 0);
}

/// In every state of the ring, the segments take up the whole region: one
/// cell for each header and its payload, summed over all segments, is the
/// number of cells of the ring.
pub proof fn lemma_segments_fill_ring(ring: RingState)
    requires
        ring.wf(),
    ensures
        extent(ring.cells, headers(ring.cells)) == ring.cells.len(),
{
    lemma_headers_from(ring.cells, 0);
}

/// A free segment at the head that is large enough is handed out at once.
pub proof fn lemma_free_head_is_reused(ring: RingState, want: int)
    requires
        ring.wf(),
        !is_busy(ring.cells[ring.head]),
        MINALLOC <= want <= capacity_of(ring.cells[ring.head]),
    ensures
        ring.advanced(want).0 == Some(ring.head),
        capacity_of(ring.advanced(want).1.cells[ring.head]) == granted(
            capacity_of(ring.cells[ring.head]) as int,
            want,
        ),
{
    lemma_advanced(ring, want);
}

/// A busy segment at the head blocks every request, whatever is free
/// elsewhere, and the ring stays as it is.
pub proof fn lemma_busy_head_blocks(ring: RingState, min: int)
    requires
        ring.wf(),
        is_busy(ring.cells[ring.head]),
    ensures
        ring.allocated(min) == (None::<int>, ring),
{
}

/// A request for fewer bytes than the smallest payload is served like one
/// for the smallest payload: from a free segment at the head, always.
pub proof fn lemma_small_request(ring: RingState, min: int)
    requires
        ring.wf(),
        0 < min <= MINALLOCBYTES,
    ensures
        in_range(min),
        cells_wanted(min) == MINALLOC,
        !is_busy(ring.cells[ring.head]) ==> ring.allocated(min).0 == Some(ring.head)
            && capacity_of(ring.allocated(min).1.cells[ring.head]) >= MINALLOC,
{
    if !is_busy(ring.cells[ring.head]) {
        lemma_segment_in_region(ring.cells, ring.head);
        lemma_free_head_is_reused(ring, MINALLOC as int);
    }
}

/// Bytes that fit into the segment as it is take no room from the ring:
/// a write that fills the segment to its last byte extends nothing.
pub proof fn lemma_exact_fit_extends_nothing(ring: RingState, header: int, required: int)
    requires
        required <= ring.capacity(header) * U32SIZE,
    ensures
        ring.with_room(header, required) == Some(ring),
{
}

/// Freezing a buffer leaves the busy bit alone, and the one release that
/// follows clears it: the cells are then those of the ring with the bit
/// cleared once, and neither the mutable buffer nor the shared one is held
/// any longer, so that nothing can clear the bit a second time.
pub proof fn lemma_freeze_then_release(ring: RingState, span: Span)
    requires
        ring.wf(),
        ring.holds_mut(span),
    ensures
        ({
            let (shared, frozen) = ring.frozen(span);
            let after = frozen.released(shared);
            &&& frozen.cells == ring.cells
            &&& is_busy(frozen.cells[span.header])
            &&& after.wf()
            &&& after.cells == ring.cleared(span.header).cells
            &&& !is_busy(after.cells[span.header])
            &&& !after.holds(shared)
            &&& !after.holds_mut(span)
        }),
{
    let (shared, frozen) = ring.frozen(span);
    lemma_frozen(ring, span);
    lemma_released(frozen, shared);
}

/// The number of holders after a run of steps, each of which adds a holder
/// (`true`) or takes one away (`false`).
pub open spec fn holders_after(count: int, steps: Seq<bool>) -> int
    decreases steps.len(),
{
    if steps.len() == 0 {
        count
    } else if steps.last() {
        holders_after(count, steps.drop_last()) + 1
    } else {
        holders_after(count, steps.drop_last()) - 1
    }
}

/// The ring after a run of steps on one shared buffer, each of which adds a
/// holder (`true`) or lets one go (`false`).
pub open spec fn shared_through(ring: RingState, span: SharedSpan, steps: Seq<bool>) -> RingState
    decreases steps.len(),
{
    if steps.len() == 0 {
        ring
    } else if steps.last() {
        shared_through(ring, span, steps.drop_last()).retained(span)
    } else {
        shared_through(ring, span, steps.drop_last()).released(span)
    }
}

/// However the holders of a shared buffer come and go, the busy bit stays
/// set and the cells stay as they are while a holder is left; the release
/// that leaves none clears the bit, once. Every holder has the same buffer,
/// so the order in which they let go makes no difference.
pub proof fn lemma_last_release_frees(ring: RingState, span: SharedSpan, steps: Seq<bool>)
    requires
        ring.wf(),
        ring.holds(span),
        forall|n: int|
            0 <= n < steps.len() ==> holders_after(ring.count(span), #[trigger] steps.take(n))
                > 0,
        holders_after(ring.count(span), steps) >= 0,
    ensures
        ({
            let after = shared_through(ring, span, steps);
            let left = holders_after(ring.count(span), steps);
            &&& after.wf()
            &&& left > 0 ==> after.holds(span) && after.count(span) == left && after.cells
                == ring.cells && is_busy(after.cells[span.header])
            &&& left == 0 ==> !after.holds(span) && after.cells == ring.cleared(span.header).cells
                && !is_busy(after.cells[span.header])
        }),
    decreases steps.len(),
{
    if steps.len() > 0 {
        let earlier = steps.drop_last();
        assert forall|n: int| 0 <= n < earlier.len() implies holders_after(
            ring.count(span),
            #[trigger] earlier.take(n),
        ) > 0 by {
            assert(earlier.take(n) =~= steps.take(n));
        }
        lemma_last_release_frees(ring, span, earlier);
        let before = shared_through(ring, span, earlier);
        if steps.last() {
            lemma_retained(before, span);
        } else {
            lemma_released(before, span);
        }
    }
}

/// No busy segment stands between the head and the segment at `header` in
/// the order in which a scan passes the segments: from the head to the end
/// of the region, then from the first cell.
pub open spec fn clear_path(ring: RingState, header: int) -> bool {
    if header >= ring.head {
        free_between(ring.cells, ring.head, header)
    } else {
        free_between(ring.cells, ring.head, ring.cells.len() as int) && free_between(
            ring.cells,
            0,
            header,
        )
    }
}

/// A scan that passes free segments only, up to one before its limit with
/// which the run is large enough, finds a run.
proof fn lemma_run_finds(
    cells: Seq<u32>,
    start: int,
    at: int,
    target: int,
    want: int,
    limit: int,
)
    requires
        0 <= start,
        reaches(cells, start, at),
        reaches(cells, at, target),
        reaches(cells, target, limit),
        target < limit <= cells.len(),
        forall|x: int| at <= x <= target && reaches(cells, at, x) ==> !is_busy(#[trigger] cells[x]),
        target - start + capacity_of(cells[target]) >= want,
    ensures
        run(cells, start, at, want, limit) is Found,
    decreases target - at,
{
    lemma_reaches_ordered(cells, start, at);
    if at < target && at - start + capacity_of(cells[at]) < want {
        let next = next_header(cells, at);
        lemma_segment_before(cells, at, at, target);
        assert(reaches(cells, at, next)) by {
            assert(reaches(cells, next, next));
        }
        lemma_reaches_join(cells, start, at, next);
        assert forall|x: int| next <= x <= target && reaches(cells, next, x) implies !is_busy(
            #[trigger] cells[x],
        ) by {
            lemma_reaches_join(cells, at, next, x);
        }
        lemma_run_finds(cells, start, next, target, want, limit);
    }
}

/// A scan that passes free segments only is not blocked.
proof fn lemma_run_not_blocked(cells: Seq<u32>, start: int, at: int, want: int, limit: int)
    requires
        limit <= cells.len(),
        reaches(cells, at, limit),
        forall|x: int| at <= x < limit && reaches(cells, at, x) ==> !is_busy(#[trigger] cells[x]),
    ensures
        !(run(cells, start, at, want, limit) is Blocked),
    decreases limit - at,
{
    if 0 <= start <= at < limit {
        let next = next_header(cells, at);
        if at - start + capacity_of(cells[at]) < want && next < limit {
            assert(reaches(cells, at, next)) by {
                assert(reaches(cells, next, next));
            }
            assert forall|x: int| next <= x < limit && reaches(cells, next, x) implies !is_busy(
                #[trigger] cells[x],
            ) by {
                lemma_reaches_join(cells, at, next, x);
            }
            lemma_run_not_blocked(cells, start, next, want, limit);
        }
    }
}

/// After a mutable buffer was given up, a request for as many bytes as it
/// had is served, provided that no busy segment stands between the head and
/// the buffer's segment. (With one in the way the scan is blocked before it
/// comes to the segment; and a buffer without bytes asks for nothing.)
pub proof fn lemma_released_buffer_fits(ring: RingState, span: Span)
    requires
        ring.wf(),
        ring.holds_mut(span),
        in_range(span.len),
        clear_path(ring, span.header),
    ensures
        ring.cleared(span.header).wf(),
        ring.cleared(span.header).allocated(span.len).0 is Some,
{
    let h = span.header;
    let after = ring.cleared(h);
    let cells = after.cells;
    let len = cells.len() as int;
    let want = cells_wanted(span.len);
    let head = ring.head;
    lemma_cleared(ring, h);
    lemma_segment_in_region(ring.cells, h);
    lemma_segment_in_region(cells, h);
    lemma_segment_in_region(cells, head);
    assert forall|x: int| 0 <= x < len && #[trigger] reaches(cells, 0, x) implies is_header(
        ring.cells,
        x,
    ) && (x != h ==> cells[x] == ring.cells[x]) by {
        lemma_reaches_kept(cells, ring.cells, 0, x);
    }
    if h >= head {
        lemma_reaches_split(cells, 0, head, h);
        assert forall|x: int| head <= x <= h && reaches(cells, head, x) implies !is_busy(
            #[trigger] cells[x],
        ) by {
            lemma_reaches_join(cells, 0, head, x);
        }
        lemma_run_finds(cells, head, head, h, want, len);
    } else {
        assert forall|x: int| head <= x < len && reaches(cells, head, x) implies !is_busy(
            #[trigger] cells[x],
        ) by {
            lemma_reaches_join(cells, 0, head, x);
        }
        lemma_run_not_blocked(cells, head, head, want, len);
        lemma_reaches_split(cells, 0, h, head);
        lemma_run_finds(cells, 0, 0, h, want, head);
    }
}

/// A scan that is not blocked passes free segments only, so that it ends
/// the same way whether or not the busy bit of a busy segment is cleared.
proof fn lemma_run_ignores_release(
    cells: Seq<u32>,
    header: int,
    start: int,
    at: int,
    want: int,
    limit: int,
)
    requires
        0 <= header < cells.len(),
        is_busy(cells[header]),
        !(run(cells, start, at, want, limit) is Blocked),
    ensures
        run(
            cells.update(header, free_word(capacity_of(cells[header]) as int)),
            start,
            at,
            want,
            limit,
        ) == run(cells, start, at, want, limit),
    decreases limit - at,
{
    if 0 <= start <= at < limit <= cells.len() && at - start + capacity_of(cells[at]) < want
        && next_header(cells, at) < limit {
        lemma_run_ignores_release(cells, header, start, next_header(cells, at), want, limit);
    }
}

/// An allocation that succeeds places its request in the same run, and
/// writes the same cells, whether or not the busy bit of a busy segment was
/// cleared before.
proof fn lemma_clearing_commutes_with_allocation(ring: RingState, h: int, min: int)
    requires
        ring.wf(),
        is_header(ring.cells, h),
        is_busy(ring.cells[h]),
        ring.allocated(min).0 is Some,
    ensures
        placement(ring.cleared(h).cells, ring.head, cells_wanted(min)) == placement(
            ring.cells,
            ring.head,
            cells_wanted(min),
        ),
        ring.cleared(h).allocated(min).1.cells == ring.allocated(min).1.cleared(h).cells,
{
    let cells = ring.cells;
    let len = cells.len() as int;
    let head = ring.head;
    let want = cells_wanted(min);
    let place = placement(cells, head, want)->Some_0;
    lemma_advanced(ring, want);
    lemma_segment_in_region(cells, h);
    lemma_segment_in_region(cells, head);
    lemma_run_ignores_release(cells, h, head, head, want, len);
    if place.wrapped {
        lemma_run_ignores_release(cells, h, 0, 0, want, head);
        lemma_run_wall(cells, head, head, want, len);
        lemma_run_found(cells, 0, 0, want, head);
    } else {
        lemma_run_found(cells, head, head, want, len);
    }
    if h >= place.at {
        lemma_reaches_split(cells, 0, place.at, h);
    }
}

/// An allocation that succeeds and the release of a mutable buffer do not
/// get in each other's way: the request is placed in the same run, and the
/// ring is the same whichever of the two comes first.
pub proof fn lemma_release_commutes_with_allocation(ring: RingState, span: Span, min: int)
    requires
        ring.wf(),
        ring.holds_mut(span),
        ring.allocated(min).0 is Some,
    ensures
        ring.cleared(span.header).allocated(min).0 == ring.allocated(min).0,
        ring.cleared(span.header).allocated(min).1 == ring.allocated(min).1.cleared(span.header),
{
    lemma_clearing_commutes_with_allocation(ring, span.header, min);
}

/// An allocation that succeeds and a holder that lets go of a shared buffer
/// do not get in each other's way either, be the holder the last or not.
pub proof fn lemma_letting_go_commutes_with_allocation(
    ring: RingState,
    span: SharedSpan,
    min: int,
)
    requires
        ring.wf(),
        ring.holds(span),
        ring.allocated(min).0 is Some,
    ensures
        ring.released(span).allocated(min).0 == ring.allocated(min).0,
        ring.released(span).allocated(min).1 == ring.allocated(min).1.released(span),
{
    if ring.count(span) == 1 {
        lemma_clearing_commutes_with_allocation(ring, span.header, min);
        assert(ring.released(span).allocated(min).1.shares =~= ring.allocated(min).1.released(
            span,
        ).shares);
    }
}

/// A new ring is well formed.
pub proof fn lemma_fresh(len: int)
    requires
        2 * MINALLOC <= len <= MAXALLOC + 1,
        len * U32SIZE <= usize::MAX,
    ensures
        RingState::fresh(len).wf(),
        RingState::fresh(len).capacity(0) == len - 1,
        !is_busy(RingState::fresh(len).cells[0]),
{
    let cells = RingState::fresh(len).cells;
    lemma_free_word(len - 1);
    assert(reaches(cells, len, len));
}

/// What is written through a writer is what is read back: where a writer
/// was handed out, the bytes were taken and the writer was finished, the
/// mutable buffer holds exactly those bytes, and so does the shared buffer
/// that it is frozen into.
pub proof fn lemma_round_trip(ring: RingState, min: int, bytes: Seq<u8>)
    requires
        ring.wf(),
        ring.allocated(min).0 is Some,
        ring.allocated(min).1.with_room(ring.allocated(min).0->Some_0, bytes.len() as int) is Some,
    ensures
        ({
            let at = ring.allocated(min).0->Some_0;
            let roomy = ring.allocated(min).1.with_room(at, bytes.len() as int)->Some_0;
            let finished = roomy.filled(at, 0, bytes).marked(at);
            let span = Span { header: at, len: bytes.len() as int, written: true };
            let (shared, frozen) = finished.frozen(span);
            &&& finished.wf()
            &&& finished.holds_mut(span)
            &&& finished.bytes(span.header, span.len) == bytes
            &&& frozen.wf()
            &&& frozen.holds(shared)
            &&& frozen.bytes(shared.header, shared.len) == bytes
        }),
{
    let at = ring.allocated(min).0->Some_0;
    let reserved = ring.allocated(min).1;
    let len = bytes.len() as int;
    let roomy = reserved.with_room(at, len)->Some_0;
    let written = roomy.filled(at, 0, bytes);
    let finished = written.marked(at);
    let span = Span { header: at, len, written: true };
    lemma_advanced(ring, cells_wanted(min));
    if len > reserved.capacity(at) * U32SIZE {
        let missing = len - reserved.capacity(at) * U32SIZE;
        lemma_extended(
            reserved,
            at,
            if missing < MINALLOCBYTES {
                MINALLOCBYTES as int
            } else {
                missing
            },
        );
    }
    lemma_segment_in_region(roomy.cells, at);
    lemma_filled(roomy, at, 0, bytes);
    lemma_segment_in_region(written.cells, at);
    lemma_marked(written, at);
    lemma_same_payload(written, finished, at, len);
    lemma_frozen(finished, span);
}

/// A new ring takes any bytes that fit beside one header: a writer is
/// handed out for any request that the ring is large enough for, the
/// segment then has or gets the room for the bytes, and they read back from
/// the finished buffer and from the frozen one as they were written.
pub proof fn lemma_fresh_ring_round_trip(len: int, min: int, bytes: Seq<u8>)
    requires
        2 * MINALLOC <= len <= MAXALLOC + 1,
        len * U32SIZE <= usize::MAX,
        in_range(min),
        cells_wanted(min) <= len - 1,
        bytes.len() <= (len - 1) * U32SIZE,
    ensures
        ({
            let ring = RingState::fresh(len);
            let roomy = ring.allocated(min).1.with_room(0, bytes.len() as int);
            let finished = roomy->Some_0.filled(0, 0, bytes).marked(0);
            let span = Span { header: 0, len: bytes.len() as int, written: true };
            let (shared, frozen) = finished.frozen(span);
            &&& ring.wf()
            &&& ring.allocated(min).0 == Some(0int)
            &&& roomy is Some
            &&& finished.holds_mut(span)
            &&& finished.bytes(0, bytes.len() as int) == bytes
            &&& frozen.holds(shared)
            &&& frozen.bytes(shared.header, shared.len) == bytes
        }),
{
    let ring = RingState::fresh(len);
    let want = cells_wanted(min);
    let count = bytes.len() as int;
    lemma_fresh(len);
    lemma_free_head_is_reused(ring, want);
    lemma_advanced(ring, want);
    let given = granted(len - 1, want);
    if count > given * U32SIZE {
        lemma_free_word(len - 1 - given - 1);
    }
    lemma_round_trip(ring, min, bytes);
}

} // verus!
