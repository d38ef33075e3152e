//! The ring as the contracts see it: its state, and what each operation
//! makes of it.
use vstd::arithmetic::power2::{
    lemma2_to64, lemma_pow2_pos, lemma_pow2_strictly_increases, lemma_pow2_unfold, pow2,
};
use vstd::prelude::*;

use crate::bytes::{byte_at, bytes_at, lemma_poured, poured};
use crate::header::{busy_word, capacity_of, free_word, is_busy};
use crate::layout::{
    is_header, lemma_payload_holds_no_header, lemma_reaches_join, lemma_reaches_kept,
    lemma_reaches_ordered, lemma_reaches_split, lemma_segment_before, lemma_segment_in_region,
    next_header, reaches, tiled,
};
use crate::scan::{
    cells_wanted, committed, granted, head_after, in_range, keeps_busy, kept_segment,
    lemma_committed, lemma_committed_keeps_busy, lemma_free_word, lemma_keeps_busy_same,
    lemma_keeps_busy_twice, lemma_merged_to_end, lemma_run_found, lemma_run_wall, placed,
    placement, run, ScanEnd,
};
use crate::{MAXALLOC, MINALLOC, MINALLOCBYTES, U32SIZE};

verus! {

/// A mutable buffer as the contracts see it.
pub struct Span {
    /// The header of the buffer's segment.
    pub header: int,
    /// The length of the buffer in bytes.
    pub len: int,
    /// Whether every byte of the buffer was written since the segment was
    /// handed out.
    pub written: bool,
}

/// A shared buffer as the contracts see it.
pub struct SharedSpan {
    /// The header of the buffer's segment.
    pub header: int,
    /// The length of the buffer in bytes.
    pub len: int,
    /// Whether every byte of the buffer was written before it was frozen.
    pub written: bool,
    /// The cell that holds the buffer's reference count.
    pub slot: int,
}

/// The position of the first payload byte of the segment at `header`.
pub open spec fn payload(header: int) -> int {
    (header + 1) * U32SIZE
}

/// The first reference count at or after `from` that is not in use; the
/// number of cells where all are in use.
pub open spec fn first_unused(shares: Seq<Share>, from: int) -> int
    decreases shares.len() - from,
{
    if from < 0 || from >= shares.len() {
        shares.len() as int
    } else if shares[from].count == 0 {
        from
    } else {
        first_unused(shares, from + 1)
    }
}

/// A reference count as the contracts see it: the header of the segment that
/// is shared, and the number of holders. A count of zero marks a cell that
/// is not in use.
pub struct Share {
    pub header: int,
    pub count: int,
}

/// The ring as the contracts see it.
pub struct RingState {
    /// The region: header words and payload cells.
    pub cells: Seq<u32>,
    /// The header at which the next scan starts.
    pub head: int,
    /// The reference counts of the shared buffers, kept outside the region.
    pub shares: Seq<Share>,
}

impl RingState {
    /// The region divides into segments, the head stands at a header, and
    /// every reference count in use belongs to a busy segment of its own.
    pub open spec fn wf(self) -> bool {
        &&& 2 * MINALLOC <= self.cells.len() <= MAXALLOC + 1
        &&& self.cells.len() * U32SIZE <= usize::MAX
        &&& tiled(self.cells)
        &&& is_header(self.cells, self.head)
        &&& forall|i: int| 0 <= i < self.shares.len() ==> (#[trigger] self.shares[i]).count >= 0
        &&& forall|i: int|
            0 <= i < self.shares.len() && (#[trigger] self.shares[i]).count > 0 ==> is_header(
                self.cells,
                self.shares[i].header,
            ) && is_busy(self.cells[self.shares[i].header])
        &&& forall|i: int, j: int|
            0 <= i < j < self.shares.len() && (#[trigger] self.shares[i]).count > 0 && (
            #[trigger] self.shares[j]).count > 0 ==> self.shares[i].header
                != self.shares[j].header
    }

    /// A new ring of `len` cells: one free segment that takes up the whole
    /// region.
    pub open spec fn fresh(len: int) -> RingState {
        RingState {
            cells: Seq::new(
                len as nat,
                |i: int|
                    if i == 0 {
                        free_word(len - 1)
                    } else {
                        0u32
                    },
            ),
            head: 0,
            shares: Seq::empty(),
        }
    }

    /// The scan for `want` payload cells and its commit: the header of the
    /// segment that is handed out, if there is one, and the ring afterwards.
    /// A scan that fails leaves the ring as it was.
    pub open spec fn advanced(self, want: int) -> (Option<int>, RingState) {
        match placement(self.cells, self.head, want) {
            None => (None, self),
            Some(place) => (
                Some(place.at),
                RingState {
                    cells: placed(self.cells, self.head, want, place),
                    head: head_after(self.cells.len() as int, place.at, place.total, want),
                    shares: self.shares,
                },
            ),
        }
    }

    /// The allocation of a segment for `min` bytes: a request out of range
    /// is turned down, any other is rounded up to cells and scanned for.
    pub open spec fn allocated(self, min: int) -> (Option<int>, RingState) {
        if in_range(min) {
            self.advanced(cells_wanted(min))
        } else {
            (None, self)
        }
    }

    /// The payload size, in cells, of the segment at `header`.
    pub open spec fn capacity(self, header: int) -> int {
        capacity_of(self.cells[header]) as int
    }

    /// No reference count in use belongs to the segment at `header`.
    pub open spec fn unshared(self, header: int) -> bool {
        forall|i: int|
            0 <= i < self.shares.len() && (#[trigger] self.shares[i]).count > 0
                ==> self.shares[i].header != header
    }

    /// The ring holds this mutable buffer: its segment is busy, is large
    /// enough for its bytes, and has no reference count.
    pub open spec fn holds_mut(self, span: Span) -> bool {
        &&& is_header(self.cells, span.header)
        &&& is_busy(self.cells[span.header])
        &&& 0 <= span.len <= self.capacity(span.header) * U32SIZE
        &&& self.unshared(span.header)
    }

    /// The ring holds this shared buffer: its reference count is in use and
    /// belongs to its segment, which is large enough for its bytes.
    pub open spec fn holds(self, span: SharedSpan) -> bool {
        &&& 0 <= span.slot < self.shares.len()
        &&& self.shares[span.slot].count > 0
        &&& self.shares[span.slot].header == span.header
        &&& 0 <= span.len <= self.capacity(span.header) * U32SIZE
    }

    /// The number of holders of a shared buffer.
    pub open spec fn count(self, span: SharedSpan) -> int {
        self.shares[span.slot].count
    }

    /// The bytes of the buffer of `len` bytes in the segment at `header`.
    pub open spec fn bytes(self, header: int, len: int) -> Seq<u8> {
        bytes_at(self.cells, payload(header), len)
    }

    /// The ring with the busy bit of the segment at `header` set.
    pub open spec fn marked(self, header: int) -> RingState {
        RingState {
            cells: self.cells.update(header, busy_word(self.capacity(header))),
            ..self
        }
    }

    /// The ring with the busy bit of the segment at `header` cleared.
    pub open spec fn cleared(self, header: int) -> RingState {
        RingState { cells: self.cells.update(header, free_word(self.capacity(header))), ..self }
    }

    /// The ring with bytes written into the payload of the segment at
    /// `header`, from the byte at `offset` on.
    pub open spec fn filled(self, header: int, offset: int, bytes: Seq<u8>) -> RingState {
        RingState { cells: poured(self.cells, payload(header) + offset, bytes), ..self }
    }

    /// The ring after the free segment at `header` grew in place by at least
    /// `extra` bytes, where it can.
    ///
    /// It can where the head stands right behind the segment and the scan
    /// from there, without starting over at the first cell, finds a run for
    /// the bytes less the header between the two, which becomes payload.
    pub open spec fn extended(self, header: int, extra: int) -> Option<RingState> {
        let want = cells_wanted(extra - U32SIZE);
        if in_range(extra - U32SIZE) && self.head == next_header(self.cells, header) {
            match run(self.cells, self.head, self.head, want, self.cells.len() as int) {
                ScanEnd::Found(total) => Some(
                    RingState {
                        cells: committed(self.cells, self.head, total, want).update(
                            header,
                            free_word(self.capacity(header) + 1 + granted(total, want)),
                        ),
                        head: head_after(self.cells.len() as int, self.head, total, want),
                        shares: self.shares,
                    },
                ),
                _ => None,
            }
        } else {
            None
        }
    }

    /// The ring once the free segment at `header` has room for `required`
    /// bytes, if that can be had: the ring as it is where the segment is
    /// large enough, else the ring with the segment grown by what is
    /// missing, and by no less than the smallest payload.
    pub open spec fn with_room(self, header: int, required: int) -> Option<RingState> {
        let room = self.capacity(header) * U32SIZE;
        if required <= room {
            Some(self)
        } else {
            self.extended(
                header,
                if required - room < MINALLOCBYTES {
                    MINALLOCBYTES as int
                } else {
                    required - room
                },
            )
        }
    }

    /// The ring with a reference count of one for the segment at `header`,
    /// in the first cell that is not in use.
    pub open spec fn counted(self, header: int) -> RingState {
        let slot = first_unused(self.shares, 0);
        let share = Share { header, count: 1 };
        RingState {
            shares: if slot < self.shares.len() {
                self.shares.update(slot, share)
            } else {
                self.shares.push(share)
            },
            ..self
        }
    }

    /// The ring with the reference count in cell `slot` changed by `by`.
    pub open spec fn recounted(self, slot: int, by: int) -> RingState {
        RingState {
            shares: self.shares.update(
                slot,
                Share { header: self.shares[slot].header, count: self.shares[slot].count + by },
            ),
            ..self
        }
    }

    /// The ring after a holder of the reference count in cell `slot` let
    /// go: the last one clears the busy bit of the segment and gives the
    /// cell back.
    pub open spec fn uncounted(self, slot: int) -> RingState {
        if self.shares[slot].count == 1 {
            self.cleared(self.shares[slot].header).recounted(slot, -1)
        } else {
            self.recounted(slot, -1)
        }
    }

    /// The shared buffer that a mutable buffer becomes, and the ring with
    /// its reference count, which starts at one.
    pub open spec fn frozen(self, span: Span) -> (SharedSpan, RingState) {
        (
            SharedSpan {
                header: span.header,
                len: span.len,
                written: span.written,
                slot: first_unused(self.shares, 0),
            },
            self.counted(span.header),
        )
    }

    /// The ring after one more holder took the shared buffer.
    pub open spec fn retained(self, span: SharedSpan) -> RingState {
        self.recounted(span.slot, 1)
    }

    /// The ring after one holder let go of the shared buffer: the last one
    /// clears the busy bit and gives the reference count back.
    pub open spec fn released(self, span: SharedSpan) -> RingState {
        self.uncounted(span.slot)
    }
}

/// The smallest power of two that is at least `x`, counted up from the power
/// of two `p`.
pub open spec fn power_of_two_from(p: nat, x: nat) -> nat
    decreases
            (if p < x {
                x - p
            } else {
                0
            }),
{
    if p >= x || p == 0 {
        p
    } else {
        power_of_two_from(2 * p, x)
    }
}

/// The smallest power of two that is at least `x`.
pub open spec fn next_power_of_two(x: nat) -> nat {
    power_of_two_from(1, x)
}

/// The cells of a ring made for `capacity` bytes.
pub open spec fn ring_cells(capacity: nat) -> int {
    next_power_of_two(capacity) as int / (U32SIZE as int)
}

/// The smallest power of two that is at least `x` is less than twice `x`,
/// and no larger than any power of two that is at least `x`.
pub proof fn lemma_next_power_of_two(x: nat, e: nat)
    requires
        1 <= x <= pow2(e),
    ensures
        x <= next_power_of_two(x) < 2 * x,
        next_power_of_two(x) <= pow2(e),
{
    lemma2_to64();
    lemma_power_of_two_below(1, x);
    lemma_power_of_two_at_most(0, e, x);
}

/// Counting up from a power of two below twice the goal ends below twice
/// the goal.
proof fn lemma_power_of_two_below(p: nat, x: nat)
    requires
        1 <= p < 2 * x,
    ensures
        x <= power_of_two_from(p, x) < 2 * x,
    decreases
            (if p < x {
                x - p
            } else {
                0
            }),
{
    if p < x {
        lemma_power_of_two_below(2 * p, x);
    }
}

/// Counting up from a power of two passes no power of two that is at least
/// the goal.
proof fn lemma_power_of_two_at_most(from: nat, e: nat, x: nat)
    requires
        from <= e,
        x <= pow2(e),
    ensures
        power_of_two_from(pow2(from), x) <= pow2(e),
    decreases e - from,
{
    lemma_pow2_pos(from);
    if from < e {
        lemma_pow2_strictly_increases(from, e);
    }
    if pow2(from) < x {
        lemma_pow2_unfold(from + 1);
        lemma_power_of_two_at_most(from + 1, e, x);
    }
}

/// Counting up never falls below where it starts, and doubles at least once
/// while it is below the goal.
pub proof fn lemma_power_of_two_from(p: nat, x: nat)
    requires
        p > 0,
    ensures
        power_of_two_from(p, x) >= p,
        power_of_two_from(p, x) >= x,
        p < x ==> power_of_two_from(p, x) >= 2 * p,
    decreases
            (if p < x {
                x - p
            } else {
                0
            }),
{
    if p < x {
        lemma_power_of_two_from(2 * p, x);
    }
}

/// A scan and its commit keep the ring well formed and every busy segment
/// as it was; the segment handed out is free and holds what was asked for.
pub proof fn lemma_advanced(ring: RingState, want: int)
    requires
        ring.wf(),
        MINALLOC <= want,
    ensures
        ring.advanced(want).1.wf(),
        keeps_busy(ring.cells, ring.advanced(want).1.cells),
        ring.advanced(want).1.cells.len() == ring.cells.len(),
        ring.advanced(want).0 matches Some(at) ==> {
            let after = ring.advanced(want).1;
            &&& is_header(after.cells, at)
            &&& (at == ring.head || at == 0)
            &&& !is_busy(after.cells[at])
            &&& capacity_of(after.cells[at]) >= want
            &&& next_header(after.cells, at) == after.head || (next_header(after.cells, at)
                == after.cells.len() && after.head == 0)
        },
{
    let cells = ring.cells;
    let len = cells.len() as int;
    let head = ring.head;
    lemma_segment_in_region(cells, head);
    match placement(cells, head, want) {
        None => {
            lemma_keeps_busy_same(cells);
        },
        Some(place) => {
            let after = ring.advanced(want).1;
            let given = granted(place.total, want);
            let handed = committed(cells, place.at, place.total, want);
            if place.wrapped {
                lemma_run_wall(cells, head, head, want, len);
                lemma_run_found(cells, 0, 0, want, head);
                lemma_committed(cells, 0, place.total, want);
                lemma_committed_keeps_busy(cells, 0, place.total, want);
                assert forall|h: int| head <= h < len && reaches(handed, head, h) implies !is_busy(
                    #[trigger] handed[h],
                ) by {
                    lemma_reaches_kept(handed, cells, head, h);
                    lemma_reaches_join(cells, 0, head, h);
                }
                lemma_merged_to_end(handed, head);
                lemma_keeps_busy_twice(cells, handed, after.cells);
                lemma_segment_in_region(handed, 0);
            } else {
                lemma_run_found(cells, head, head, want, len);
                lemma_committed(cells, head, place.total, want);
                lemma_committed_keeps_busy(cells, head, place.total, want);
            }
            lemma_free_word(given);
            assert forall|i: int|
                0 <= i < after.shares.len() && (#[trigger] after.shares[i]).count
                    > 0 implies is_header(after.cells, after.shares[i].header) && is_busy(
                after.cells[after.shares[i].header],
            ) by {
                assert(is_header(cells, ring.shares[i].header));
            }
        },
    }
}

/// The first unused reference count lies in the sequence or right behind
/// it, and every count before it is in use.
pub proof fn lemma_first_unused(shares: Seq<Share>, from: int)
    requires
        0 <= from <= shares.len(),
    ensures
        from <= first_unused(shares, from) <= shares.len(),
        first_unused(shares, from) < shares.len() ==> shares[first_unused(shares, from)].count
            == 0,
        forall|i: int| from <= i < first_unused(shares, from) ==> (#[trigger] shares[i]).count != 0,
    decreases shares.len() - from,
{
    if from < shares.len() && shares[from].count != 0 {
        lemma_first_unused(shares, from + 1);
    }
}

/// Where one segment changes, but not the size in its header word, the
/// region divides as before, and every other segment is kept.
pub proof fn lemma_segment_changed(old_cells: Seq<u32>, new_cells: Seq<u32>, h: int)
    requires
        tiled(old_cells),
        is_header(old_cells, h),
        new_cells.len() == old_cells.len(),
        capacity_of(new_cells[h]) == capacity_of(old_cells[h]),
        forall|k: int|
            0 <= k < old_cells.len() && !(h <= k < next_header(old_cells, h))
                ==> #[trigger] new_cells[k] == old_cells[k],
    ensures
        tiled(new_cells),
        forall|x: int| #[trigger] is_header(old_cells, x) ==> is_header(new_cells, x),
        forall|x: int|
            #![trigger is_header(old_cells, x)]
            is_header(old_cells, x) && x != h ==> kept_segment(old_cells, new_cells, x),
{
    let len = old_cells.len() as int;
    assert forall|y: int| 0 <= y < len && reaches(old_cells, 0, y) implies capacity_of(
        #[trigger] new_cells[y],
    ) == capacity_of(old_cells[y]) by {
        if h < y < next_header(old_cells, h) {
            lemma_payload_holds_no_header(old_cells, h, y);
        }
    }
    lemma_reaches_kept(old_cells, new_cells, 0, len);
    assert forall|x: int| #[trigger] is_header(old_cells, x) implies is_header(new_cells, x) by {
        lemma_reaches_kept(old_cells, new_cells, 0, x);
    }
    assert forall|x: int|
        #![trigger is_header(old_cells, x)]
        is_header(old_cells, x) && x != h implies kept_segment(old_cells, new_cells, x) by {
        lemma_segment_in_region(old_cells, x);
        if x < h {
            lemma_segment_before(old_cells, 0, x, h);
        } else {
            lemma_segment_before(old_cells, 0, h, x);
        }
    }
}

/// Setting the busy bit of a free segment keeps the ring well formed and
/// every other segment as it was; the segment can then be held as a
/// mutable buffer.
pub proof fn lemma_marked(ring: RingState, header: int)
    requires
        ring.wf(),
        is_header(ring.cells, header),
        !is_busy(ring.cells[header]),
    ensures
        ring.marked(header).wf(),
        keeps_busy(ring.cells, ring.marked(header).cells),
        is_header(ring.marked(header).cells, header),
        is_busy(ring.marked(header).cells[header]),
        ring.marked(header).capacity(header) == ring.capacity(header),
        ring.marked(header).unshared(header),
        forall|k: int|
            0 <= k < ring.cells.len() && k != header ==> ring.marked(header).cells[k]
                == ring.cells[k],
{
    let after = ring.marked(header);
    lemma_segment_in_region(ring.cells, header);
    lemma_segment_changed(ring.cells, after.cells, header);
}

/// Clearing the busy bit of a segment that no reference count belongs to
/// keeps the ring well formed and every other segment as it was.
pub proof fn lemma_cleared(ring: RingState, header: int)
    requires
        ring.wf(),
        is_header(ring.cells, header),
        ring.unshared(header),
    ensures
        ring.cleared(header).wf(),
        is_header(ring.cleared(header).cells, header),
        !is_busy(ring.cleared(header).cells[header]),
        ring.cleared(header).capacity(header) == ring.capacity(header),
        forall|x: int|
            #![trigger is_header(ring.cells, x)]
            is_header(ring.cells, x) && x != header ==> kept_segment(
                ring.cells,
                ring.cleared(header).cells,
                x,
            ),
        forall|k: int|
            0 <= k < ring.cells.len() && k != header ==> ring.cleared(header).cells[k]
                == ring.cells[k],
{
    let after = ring.cleared(header);
    lemma_segment_in_region(ring.cells, header);
    lemma_free_word(ring.capacity(header));
    lemma_segment_changed(ring.cells, after.cells, header);
    assert forall|i: int|
        0 <= i < after.shares.len() && (#[trigger] after.shares[i]).count > 0 implies is_header(
        after.cells,
        after.shares[i].header,
    ) && is_busy(after.cells[after.shares[i].header]) by {
        assert(is_header(ring.cells, ring.shares[i].header));
    }
}

/// Writing bytes into a segment's payload keeps the ring well formed, every
/// header word, and every other segment; the bytes read back as written,
/// and the other bytes of the region are as before.
pub proof fn lemma_filled(ring: RingState, header: int, offset: int, bytes: Seq<u8>)
    requires
        ring.wf(),
        is_header(ring.cells, header),
        0 <= offset,
        offset + bytes.len() <= ring.capacity(header) * U32SIZE,
    ensures
        ring.filled(header, offset, bytes).wf(),
        ring.filled(header, offset, bytes).cells.len() == ring.cells.len(),
        forall|x: int| #[trigger]
            is_header(ring.cells, x) ==> is_header(ring.filled(header, offset, bytes).cells, x)
                && ring.filled(header, offset, bytes).cells[x] == ring.cells[x],
        forall|x: int|
            #![trigger is_header(ring.cells, x)]
            is_header(ring.cells, x) && x != header ==> kept_segment(
                ring.cells,
                ring.filled(header, offset, bytes).cells,
                x,
            ),
        bytes_at(
            ring.filled(header, offset, bytes).cells,
            payload(header) + offset,
            bytes.len() as int,
        ) == bytes,
        forall|q: int|
            0 <= q < ring.cells.len() * U32SIZE && !(payload(header) + offset <= q < payload(header)
                + offset + bytes.len()) ==> #[trigger] byte_at(
                ring.filled(header, offset, bytes).cells,
                q,
            ) == byte_at(ring.cells, q),
{
    let after = ring.filled(header, offset, bytes);
    lemma_segment_in_region(ring.cells, header);
    lemma_poured(ring.cells, payload(header) + offset, bytes);
    lemma_segment_changed(ring.cells, after.cells, header);
    assert forall|x: int| #[trigger] is_header(ring.cells, x) implies after.cells[x]
        == ring.cells[x] by {
        if header < x < next_header(ring.cells, header) {
            lemma_payload_holds_no_header(ring.cells, header, x);
        }
    }
    assert forall|i: int|
        0 <= i < after.shares.len() && (#[trigger] after.shares[i]).count > 0 implies is_header(
        after.cells,
        after.shares[i].header,
    ) && is_busy(after.cells[after.shares[i].header]) by {
        assert(is_header(ring.cells, ring.shares[i].header));
    }
}

/// Growing a free segment in place keeps the ring well formed and every
/// busy segment as it was. The segment is still free, keeps the payload it
/// had, and has room for the extra bytes; the head stands behind it.
pub proof fn lemma_extended(ring: RingState, header: int, extra: int)
    requires
        ring.wf(),
        is_header(ring.cells, header),
        !is_busy(ring.cells[header]),
        ring.extended(header, extra) is Some,
    ensures
        ({
            let after = ring.extended(header, extra)->Some_0;
            &&& after.wf()
            &&& after.cells.len() == ring.cells.len()
            &&& keeps_busy(ring.cells, after.cells)
            &&& is_header(after.cells, header)
            &&& !is_busy(after.cells[header])
            &&& after.capacity(header) * U32SIZE >= ring.capacity(header) * U32SIZE + extra
            &&& after.capacity(header) <= MAXALLOC
            &&& forall|j: int|
                header < j < next_header(ring.cells, header) ==> #[trigger] after.cells[j]
                    == ring.cells[j]
            &&& (next_header(after.cells, header) == after.head || (next_header(
                after.cells,
                header,
            ) == after.cells.len() && after.head == 0))
        }),
{
    let cells = ring.cells;
    let len = cells.len() as int;
    let want = cells_wanted(extra - U32SIZE);
    let at = ring.head;
    let total = run(cells, at, at, want, len)->Found_0;
    let given = granted(total, want);
    let grown = committed(cells, at, total, want);
    let after = ring.extended(header, extra)->Some_0;
    let behind = at + 1 + given;
    lemma_segment_in_region(cells, header);
    lemma_segment_in_region(cells, at);
    lemma_run_found(cells, at, at, want, len);
    lemma_committed(cells, at, total, want);
    lemma_committed_keeps_busy(cells, at, total, want);
    lemma_reaches_ordered(cells, 0, header);
    lemma_free_word(ring.capacity(header) + 1 + given);
    lemma_segment_in_region(grown, at);
    assert(reaches(grown, at, behind)) by {
        assert(reaches(grown, behind, behind));
    }
    lemma_reaches_join(grown, 0, at, behind);
    lemma_reaches_kept(grown, after.cells, 0, header);
    lemma_reaches_kept(grown, after.cells, behind, len);
    lemma_reaches_join(after.cells, 0, header, len);
    assert(reaches(after.cells, header, behind)) by {
        assert(reaches(after.cells, behind, behind));
    }
    lemma_reaches_join(after.cells, 0, header, behind);
    assert forall|x: int| #[trigger]
        is_header(cells, x) && is_busy(cells[x]) implies kept_segment(cells, after.cells, x) by {
        lemma_segment_in_region(cells, x);
        if x < header {
            lemma_segment_before(cells, 0, x, header);
            lemma_reaches_kept(grown, after.cells, 0, x);
        } else {
            lemma_segment_before(cells, 0, header, x);
            if x < at + 1 + total {
                lemma_reaches_split(cells, 0, at, x);
            }
            lemma_reaches_split(grown, 0, behind, x);
            lemma_reaches_kept(grown, after.cells, behind, x);
            lemma_reaches_join(after.cells, 0, behind, x);
        }
    }
    assert forall|i: int|
        0 <= i < after.shares.len() && (#[trigger] after.shares[i]).count > 0 implies is_header(
        after.cells,
        after.shares[i].header,
    ) && is_busy(after.cells[after.shares[i].header]) by {
        assert(is_header(ring.cells, ring.shares[i].header));
    }
}

/// Freezing a mutable buffer keeps the cells, gives the buffer a reference
/// count of one, and keeps every other shared buffer and its count.
pub proof fn lemma_frozen(ring: RingState, span: Span)
    requires
        ring.wf(),
        ring.holds_mut(span),
    ensures
        ring.frozen(span).1.wf(),
        ring.frozen(span).1.cells == ring.cells,
        ring.frozen(span).1.head == ring.head,
        ring.frozen(span).1.holds(ring.frozen(span).0),
        ring.frozen(span).1.count(ring.frozen(span).0) == 1,
        ring.frozen(span).0.header == span.header,
        ring.frozen(span).0.len == span.len,
        0 <= ring.frozen(span).0.slot <= ring.shares.len(),
        forall|other: SharedSpan| #[trigger]
            ring.holds(other) ==> ring.frozen(span).1.holds(other) && ring.frozen(span).1.count(
                other,
            ) == ring.count(other),
{
    lemma_first_unused(ring.shares, 0);
}

/// One more holder of a shared buffer changes nothing but its count.
pub proof fn lemma_retained(ring: RingState, span: SharedSpan)
    requires
        ring.wf(),
        ring.holds(span),
    ensures
        ring.retained(span).wf(),
        ring.retained(span).cells == ring.cells,
        ring.retained(span).head == ring.head,
        ring.retained(span).holds(span),
        ring.retained(span).count(span) == ring.count(span) + 1,
        forall|other: SharedSpan| #[trigger]
            ring.holds(other) && other.slot != span.slot ==> ring.retained(span).holds(other)
                && ring.retained(span).count(other) == ring.count(other),
{
}

/// A holder that lets go of a shared buffer changes nothing but the count,
/// unless it is the last: then the segment is free, the reference count is
/// given back, and every other segment is as it was.
pub proof fn lemma_released(ring: RingState, span: SharedSpan)
    requires
        ring.wf(),
        ring.holds(span),
    ensures
        ring.released(span).wf(),
        ring.released(span).head == ring.head,
        ring.count(span) > 1 ==> ring.released(span).cells == ring.cells && ring.released(
            span,
        ).holds(span) && ring.released(span).count(span) == ring.count(span) - 1,
        ring.count(span) == 1 ==> ring.released(span).cells == ring.cleared(span.header).cells
            && !ring.released(span).holds(span) && !is_busy(
            ring.released(span).cells[span.header],
        ) && is_header(ring.released(span).cells, span.header),
        forall|other: SharedSpan| #[trigger]
            ring.holds(other) && other.slot != span.slot ==> ring.released(span).holds(other)
                && ring.released(span).count(other) == ring.count(other),
        forall|x: int|
            #![trigger is_header(ring.cells, x)]
            is_header(ring.cells, x) && x != span.header ==> kept_segment(
                ring.cells,
                ring.released(span).cells,
                x,
            ),
{
    let after = ring.released(span);
    let h = span.header;
    if ring.count(span) == 1 {
        let bare = ring.recounted(span.slot, -1);
        lemma_cleared(bare, h);
        lemma_cleared_capacity(ring, h);
    } else {
        assert forall|x: int|
            #![trigger is_header(ring.cells, x)]
            is_header(ring.cells, x) && x != span.header implies kept_segment(
            ring.cells,
            after.cells,
            x,
        ) by {}
    }
}

/// Clearing the busy bit keeps the size of every segment.
pub proof fn lemma_cleared_capacity(ring: RingState, header: int)
    requires
        0 <= header < ring.cells.len(),
    ensures
        forall|x: int|
            0 <= x < ring.cells.len() ==> #[trigger] ring.cleared(header).capacity(x)
                == ring.capacity(x),
{
    lemma_free_word(ring.capacity(header));
}

/// Bytes written behind the first `start` bytes of a payload extend them.
pub proof fn lemma_filled_appends(ring: RingState, header: int, start: int, bytes: Seq<u8>)
    requires
        ring.wf(),
        is_header(ring.cells, header),
        0 <= start,
        start + bytes.len() <= ring.capacity(header) * U32SIZE,
    ensures
        ring.filled(header, start, bytes).bytes(header, start + bytes.len()) == ring.bytes(
            header,
            start,
        ) + bytes,
{
    let after = ring.filled(header, start, bytes);
    let base = payload(header);
    lemma_segment_in_region(ring.cells, header);
    lemma_filled(ring, header, start, bytes);
    assert forall|i: int| 0 <= i < start + bytes.len() implies #[trigger] after.bytes(
        header,
        start + bytes.len(),
    )[i] == (ring.bytes(header, start) + bytes)[i] by {
        if i >= start {
            assert(bytes_at(after.cells, base + start, bytes.len() as int)[i - start] == bytes[i
                - start]);
        }
    }
}

/// A byte written into a buffer replaces the byte at its place and leaves
/// the others.
pub proof fn lemma_filled_replaces(ring: RingState, header: int, len: int, index: int, byte: u8)
    requires
        ring.wf(),
        is_header(ring.cells, header),
        0 <= index < len <= ring.capacity(header) * U32SIZE,
    ensures
        ring.filled(header, index, seq![byte]).bytes(header, len) == ring.bytes(header, len).update(
            index,
            byte,
        ),
{
    lemma_segment_in_region(ring.cells, header);
    lemma_filled(ring, header, index, seq![byte]);
}

/// Two rings that agree on the payload cells of a segment agree on its
/// bytes.
pub proof fn lemma_same_payload(first: RingState, second: RingState, header: int, len: int)
    requires
        0 <= header,
        0 <= len <= first.capacity(header) * U32SIZE,
        forall|j: int|
            header < j < next_header(first.cells, header) ==> #[trigger] second.cells[j]
                == first.cells[j],
    ensures
        second.bytes(header, len) == first.bytes(header, len),
{
    let base = payload(header);
    assert forall|i: int| 0 <= i < len implies #[trigger] second.bytes(header, len)[i]
        == first.bytes(header, len)[i] by {
        assert(header < (base + i) / (U32SIZE as int) < next_header(first.cells, header));
    }
}

} // verus!
