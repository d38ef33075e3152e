//! The stages of a segment in use: the writer that fills it, the mutable
//! buffer that owns it, and the shared buffer with its reference count.
//!
//! The ring owns the cells; a buffer names its segment and reads and writes
//! the payload through the ring.
use vstd::prelude::*;

use vstd::slice::slice_subrange;

use crate::header::{is_busy, HeaderMut, HeaderRo};
use crate::layout::{is_header, lemma_segment_in_region};
use crate::ring::{Ringal, WriteError};
use crate::scan::{keeps_busy, lemma_keeps_busy_others, lemma_keeps_busy_same};
use crate::state::{
    lemma_extended, lemma_filled, lemma_filled_appends, lemma_filled_replaces, lemma_frozen,
    lemma_marked, lemma_released, lemma_retained, lemma_same_payload, SharedSpan, Span,
};
use crate::{MAXALLOCBYTES, MINALLOCBYTES, U32SIZE};

verus! {

/// A segment that is being written: reserved, not yet busy. The writer
/// borrows the ring for as long as it lives.
pub struct BufferWriter<'a> {
    /// The header of the segment.
    pub header: HeaderMut,
    /// The bytes written so far.
    pub initialized: usize,
    /// The bytes that the segment has room for.
    pub capacity: usize,
    /// The ring that the segment belongs to.
    pub ringo: &'a mut Ringal,
}

/// A busy segment with one owner, who may read and write its bytes.
///
/// The segment stays busy until the buffer is released or, once frozen, until
/// its last holder lets go: a buffer that is dropped without that keeps its
/// segment out of the ring's reach.
pub struct BufferMut {
    header: HeaderRo,
    len: usize,
    written: bool,
}

/// A busy segment that any number of holders may read. The ring counts the
/// holders, and the last one to let go frees the segment. Every holder has
/// the same buffer: a holder that is dropped without letting go is counted
/// for ever.
pub struct Buffer {
    header: HeaderRo,
    len: usize,
    written: bool,
    rc: usize,
}

impl View for BufferMut {
    type V = Span;

    closed spec fn view(&self) -> Span {
        Span { header: self.header@, len: self.len as int, written: self.written }
    }
}

impl View for Buffer {
    type V = SharedSpan;

    closed spec fn view(&self) -> SharedSpan {
        SharedSpan {
            header: self.header@,
            len: self.len as int,
            written: self.written,
            slot: self.rc as int,
        }
    }
}

impl<'a> BufferWriter<'a> {
    /// The writer's segment is a free segment of the ring, with room for
    /// the capacity that the writer counts on.
    pub open spec fn wf(&self) -> bool {
        &&& self.ringo@.wf()
        &&& is_header(self.ringo@.cells, self.header@)
        &&& !is_busy(self.ringo@.cells[self.header@])
        &&& self.capacity == self.ringo@.capacity(self.header@) * U32SIZE
        &&& self.initialized <= self.capacity
    }

    /// The bytes written so far.
    pub open spec fn written(&self) -> Seq<u8> {
        self.ringo@.bytes(self.header@, self.initialized as int)
    }

    /// How many of `len` bytes a write takes: all of them, or as many as
    /// the largest payload still has room for.
    pub open spec fn accepted(&self, len: int) -> int {
        if len <= MAXALLOCBYTES - self.initialized {
            len
        } else {
            MAXALLOCBYTES - self.initialized
        }
    }

    /// Whether the writer's segment is a free segment of the ring with the
    /// room that the writer counts on.
    pub fn is_valid(&self) -> (valid: bool)
        requires
            self.ringo@.wf(),
        ensures
            valid == self.wf(),
    {
        let at: usize = self.header.index();
        if !self.ringo.is_segment(at) || !self.header.available(self.ringo) {
            return false;
        }
        proof {
            lemma_segment_in_region(self.ringo@.cells, self.header@);
        }
        let room: usize = self.header.capacity(self.ringo) as usize * U32SIZE;
        self.capacity == room && self.initialized <= room
    }

    /// Appends bytes to the segment and returns how many were taken.
    ///
    /// All bytes are taken, unless the largest payload has room for fewer.
    /// Where the segment is too small for them it grows in place first; if
    /// it cannot, nothing is written and the ring is full. A segment that
    /// already holds the largest payload takes no more bytes.
    pub fn write(&mut self, buf: &[u8]) -> (result: Result<usize, WriteError>)
        requires
            old(self).wf(),
        ensures
            final(self).wf(),
            final(self).header@ == old(self).header@,
            *final(final(self).ringo) == *final(old(self).ringo),
            keeps_busy(old(self).ringo@.cells, final(self).ringo@.cells),
            match result {
                Ok(count) => {
                    &&& !(old(self).initialized == MAXALLOCBYTES && buf@.len() > 0)
                    &&& count == old(self).accepted(buf@.len() as int)
                    &&& old(self).ringo@.with_room(
                        old(self).header@,
                        old(self).initialized + count,
                    ) matches Some(ring) && final(self).ringo@ == ring.filled(
                        old(self).header@,
                        old(self).initialized as int,
                        buf@.take(count as int),
                    )
                    &&& final(self).initialized == old(self).initialized + count
                    &&& final(self).written() == old(self).written() + buf@.take(count as int)
                },
                Err(WriteError::MaxExceeded) => {
                    &&& old(self).initialized == MAXALLOCBYTES && buf@.len() > 0
                    &&& final(self).ringo@ == old(self).ringo@
                    &&& final(self).initialized == old(self).initialized
                    &&& final(self).capacity == old(self).capacity
                },
                Err(WriteError::RingFull) => {
                    &&& !(old(self).initialized == MAXALLOCBYTES && buf@.len() > 0)
                    &&& old(self).ringo@.with_room(
                        old(self).header@,
                        old(self).initialized + old(self).accepted(buf@.len() as int),
                    ) is None
                    &&& final(self).ringo@ == old(self).ringo@
                    &&& final(self).initialized == old(self).initialized
                    &&& final(self).capacity == old(self).capacity
                },
            },
    {
        let ghost before = self.ringo@;
        let ghost h = self.header@;
        let ghost start = self.initialized as int;
        proof {
            lemma_segment_in_region(before.cells, h);
            lemma_keeps_busy_same(before.cells);
        }
        let room: u64 = MAXALLOCBYTES - self.initialized as u64;
        if room == 0 && buf.len() > 0 {
            return Err(WriteError::MaxExceeded);
        }
        let len: usize = if buf.len() as u64 <= room {
            buf.len()
        } else {
            room as usize
        };
        let required: u64 = self.initialized as u64 + len as u64;
        if required > self.capacity as u64 {
            let missing: u64 = required - self.capacity as u64;
            let extra: usize = if missing < MINALLOCBYTES as u64 {
                MINALLOCBYTES
            } else {
                missing as usize
            };
            proof {
                if before.extended(h, extra as int) is Some {
                    lemma_extended(before, h, extra as int);
                }
            }
            match self.ringo.extend(&self.header, extra) {
                Ok(()) => {},
                Err(error) => {
                    return Err(error);
                },
            }
            self.capacity = self.header.capacity(self.ringo) as usize * U32SIZE;
        }
        let ghost ring = self.ringo@;
        let ghost taken = buf@.take(len as int);
        proof {
            lemma_same_payload(before, ring, h, start);
            lemma_filled(ring, h, start, taken);
            lemma_filled_appends(ring, h, start, taken);
            lemma_keeps_busy_others(
                before.cells,
                ring.cells,
                ring.filled(h, start, taken).cells,
                h,
            );
        }
        self.ringo.pour(self.header.index(), self.initialized, slice_subrange(buf, 0, len));
        self.initialized = self.initialized + len;
        Ok(len)
    }

    /// Does nothing: what was written is in the segment already.
    pub fn flush(&mut self) -> (result: Result<(), WriteError>)
        ensures
            result is Ok,
            *final(self) == *old(self),
    {
        Ok(())
    }

    /// Ends the writing: sets the busy bit of the segment and returns the
    /// buffer of the bytes written, which the ring then holds.
    pub fn finish(self) -> (buffer: BufferMut)
        requires
            self.wf(),
        ensures
            buffer@ == (Span {
                header: self.header@,
                len: self.initialized as int,
                written: true,
            }),
            final(self.ringo)@ == old(self.ringo)@.marked(self.header@),
            final(self.ringo)@.wf(),
            final(self.ringo)@.holds_mut(buffer@),
            final(self.ringo)@.bytes(buffer@.header, buffer@.len) == self.written(),
            keeps_busy(old(self.ringo)@.cells, final(self.ringo)@.cells),
    {
        proof {
            lemma_marked(self.ringo@, self.header@);
            lemma_segment_in_region(self.ringo@.cells, self.header@);
        }
        self.ringo.mark(&self.header);
        BufferMut::new(self.header.into_ro(), self.initialized, true)
    }
}

impl BufferMut {
    /// The buffer of `len` bytes in the segment at `header`.
    pub(crate) fn new(header: HeaderRo, len: usize, written: bool) -> (buffer: BufferMut)
        ensures
            buffer@ == (Span { header: header@, len: len as int, written }),
    {
        BufferMut { header, len, written }
    }

    /// Whether every byte of the buffer was written since the segment was
    /// handed out. The bytes of a buffer that was not written are whatever
    /// the cells held, and are not to be read.
    pub fn is_written(&self) -> (written: bool)
        ensures
            written == self@.written,
    {
        self.written
    }

    /// The number of bytes of the buffer.
    pub fn len(&self) -> (len: usize)
        ensures
            len == self@.len,
    {
        self.len
    }

    /// The cell at which the header of the buffer's segment stands.
    pub fn header(&self) -> (index: usize)
        ensures
            index == self@.header,
    {
        self.header.index()
    }

    /// The bytes of the buffer.
    pub fn to_vec(&self, ring: &Ringal) -> (bytes: Vec<u8>)
        requires
            ring@.wf(),
            ring@.holds_mut(self@),
            self@.written,
        ensures
            bytes@ == ring@.bytes(self@.header, self@.len),
    {
        ring.read(self.header.index(), self.len)
    }

    /// The byte at `index`.
    pub fn get(&self, ring: &Ringal, index: usize) -> (byte: u8)
        requires
            ring@.wf(),
            ring@.holds_mut(self@),
            self@.written,
            index < self@.len,
        ensures
            byte == ring@.bytes(self@.header, self@.len)[index as int],
    {
        ring.peek(self.header.index(), index)
    }

    /// Replaces the byte at `index`.
    pub fn set(&mut self, ring: &mut Ringal, index: usize, byte: u8)
        requires
            old(ring)@.wf(),
            old(ring)@.holds_mut(old(self)@),
            index < old(self)@.len,
        ensures
            final(self)@ == old(self)@,
            final(ring)@ == old(ring)@.filled(old(self)@.header, index as int, seq![byte]),
            final(ring)@.wf(),
            final(ring)@.holds_mut(final(self)@),
            final(ring)@.bytes(final(self)@.header, final(self)@.len) == old(ring)@.bytes(
                old(self)@.header,
                old(self)@.len,
            ).update(index as int, byte),
    {
        proof {
            lemma_filled(ring@, self@.header, index as int, seq![byte]);
            lemma_filled_replaces(ring@, self@.header, self@.len, index as int, byte);
        }
        ring.poke(self.header.index(), index, byte);
    }

    /// Overwrites the buffer with the bytes of `src`, which has the
    /// buffer's length.
    pub fn copy_from_slice(&mut self, ring: &mut Ringal, src: &[u8])
        requires
            old(ring)@.wf(),
            old(ring)@.holds_mut(old(self)@),
            src@.len() == old(self)@.len,
        ensures
            final(self)@ == (Span { written: true, ..old(self)@ }),
            final(ring)@ == old(ring)@.filled(old(self)@.header, 0, src@),
            final(ring)@.wf(),
            final(ring)@.holds_mut(final(self)@),
            final(ring)@.bytes(final(self)@.header, final(self)@.len) == src@,
    {
        proof {
            lemma_filled(ring@, self@.header, 0, src@);
        }
        ring.pour(self.header.index(), 0, src);
        self.written = true;
    }

    /// Fills the buffer with zero bytes.
    pub fn init(&mut self, ring: &mut Ringal)
        requires
            old(ring)@.wf(),
            old(ring)@.holds_mut(old(self)@),
        ensures
            final(self)@ == (Span { written: true, ..old(self)@ }),
            final(ring)@ == old(ring)@.filled(
                old(self)@.header,
                0,
                Seq::new(old(self)@.len as nat, |i: int| 0u8),
            ),
            final(ring)@.wf(),
            final(ring)@.holds_mut(final(self)@),
            final(ring)@.bytes(final(self)@.header, final(self)@.len) == Seq::new(
                old(self)@.len as nat,
                |i: int| 0u8,
            ),
    {
        proof {
            lemma_filled(ring@, self@.header, 0, Seq::new(self@.len as nat, |i: int| 0u8));
        }
        ring.pour_zeros(self.header.index(), self.len);
        self.written = true;
    }

    /// Turns the buffer into a shared one with a single holder. The busy
    /// bit stays as it is: the shared buffer now answers for the segment.
    pub fn freeze(self, ring: &mut Ringal) -> (shared: Buffer)
        requires
            old(ring)@.wf(),
            old(ring)@.holds_mut(self@),
        ensures
            shared@ == old(ring)@.frozen(self@).0,
            final(ring)@ == old(ring)@.frozen(self@).1,
            final(ring)@.wf(),
            final(ring)@.holds(shared@),
            final(ring)@.count(shared@) == 1,
            final(ring)@.bytes(shared@.header, shared@.len) == old(ring)@.bytes(
                self@.header,
                self@.len,
            ),
    {
        proof {
            lemma_frozen(ring@, self@);
        }
        let rc: usize = ring.count_from_one(self.header.index());
        Buffer { header: self.header, len: self.len, written: self.written, rc }
    }

    /// Gives the buffer up: clears the busy bit of its segment, which a
    /// later scan may then hand out again.
    pub fn release(self, ring: &mut Ringal)
        requires
            old(ring)@.wf(),
            old(ring)@.holds_mut(self@),
        ensures
            final(ring)@ == old(ring)@.cleared(self@.header),
            final(ring)@.wf(),
            !final(ring)@.holds_mut(self@),
    {
        ring.clear(&self.header);
    }
}

impl Buffer {
    /// The number of bytes of the buffer.
    pub fn len(&self) -> (len: usize)
        ensures
            len == self@.len,
    {
        self.len
    }

    /// The cell at which the header of the buffer's segment stands.
    pub fn header(&self) -> (index: usize)
        ensures
            index == self@.header,
    {
        self.header.index()
    }

    /// The cell that holds the buffer's reference count.
    pub fn slot(&self) -> (slot: usize)
        ensures
            slot == self@.slot,
    {
        self.rc
    }

    /// Whether every byte of the buffer was written before it was frozen.
    pub fn is_written(&self) -> (written: bool)
        ensures
            written == self@.written,
    {
        self.written
    }

    /// The bytes of the buffer.
    pub fn to_vec(&self, ring: &Ringal) -> (bytes: Vec<u8>)
        requires
            ring@.wf(),
            ring@.holds(self@),
            self@.written,
        ensures
            bytes@ == ring@.bytes(self@.header, self@.len),
    {
        ring.read(self.header.index(), self.len)
    }

    /// The byte at `index`.
    pub fn get(&self, ring: &Ringal, index: usize) -> (byte: u8)
        requires
            ring@.wf(),
            ring@.holds(self@),
            self@.written,
            index < self@.len,
        ensures
            byte == ring@.bytes(self@.header, self@.len)[index as int],
    {
        ring.peek(self.header.index(), index)
    }

    /// One more holder of the same buffer.
    pub fn share(&self, ring: &mut Ringal) -> (other: Buffer)
        requires
            old(ring)@.wf(),
            old(ring)@.holds(self@),
            old(ring)@.count(self@) < u32::MAX,
        ensures
            other@ == self@,
            final(ring)@ == old(ring)@.retained(self@),
            final(ring)@.wf(),
            final(ring)@.holds(self@),
            final(ring)@.count(self@) == old(ring)@.count(self@) + 1,
    {
        proof {
            lemma_retained(ring@, self@);
        }
        ring.count_up(self.rc);
        Buffer { header: self.header, len: self.len, written: self.written, rc: self.rc }
    }

    /// One holder lets go. The last holder frees the segment; the result
    /// says whether this one was the last.
    pub fn release(self, ring: &mut Ringal) -> (last: bool)
        requires
            old(ring)@.wf(),
            old(ring)@.holds(self@),
        ensures
            last == (old(ring)@.count(self@) == 1),
            final(ring)@ == old(ring)@.released(self@),
            final(ring)@.wf(),
            last ==> !final(ring)@.holds(self@) && !is_busy(final(ring)@.cells[self@.header]),
            !last ==> final(ring)@.holds(self@) && final(ring)@.count(self@) == old(ring)@.count(
                self@,
            ) - 1 && final(ring)@.cells == old(ring)@.cells,
    {
        proof {
            lemma_released(ring@, self@);
        }
        ring.count_down(self.rc)
    }
}

} // verus!
