//! The ring: the region of cells, the head, and the allocation scan.
use vstd::arithmetic::power2::{lemma2_to64, lemma2_to64_rest, pow2};
use vstd::prelude::*;

use crate::buffer::{Buffer, BufferMut, BufferWriter};
use crate::bytes::{byte_at, bytes_at, get, lemma_poured, poured, put, put_byte};
use crate::header::{available, capacity, is_busy, HeaderMut, HeaderRo};
use crate::layout::{
    is_header, lemma_payload_holds_no_header, lemma_segment_in_region, next_header, reaches,
};
use crate::scan::{
    cells_wanted, committed, head_after, in_range, keeps_busy, lemma_free_word,
    lemma_keeps_busy_others, lemma_keeps_busy_same, lemma_keeps_busy_twice, lemma_run_found, run,
    ScanEnd,
};
use crate::state::{
    first_unused, lemma_advanced, lemma_cleared, lemma_extended, lemma_filled, lemma_marked,
    lemma_next_power_of_two, lemma_power_of_two_from, next_power_of_two, payload,
    power_of_two_from, ring_cells, RingState, Share, Span,
};
use crate::{MAXALLOC, MINALLOC, MINALLOCBYTES, U32SIZE};

verus! {

/// Why a writer did not take the bytes it was given.
#[derive(Clone, Copy, Debug, PartialEq, Eq, Structural)]
pub enum WriteError {
    /// The segment cannot grow: the ring has no free run behind it.
    RingFull,
    /// The segment already holds the largest payload.
    MaxExceeded,
}

impl WriteError {
    /// The error in words.
    pub fn message(&self) -> (text: &'static str)
        ensures
            text@ == (match self {
                WriteError::RingFull => "ring buffer is full"@,
                WriteError::MaxExceeded => "max allocation size reached"@,
            }),
    {
        match self {
            WriteError::RingFull => "ring buffer is full",
            WriteError::MaxExceeded => "max allocation size reached",
        }
    }
}

/// One reference count, kept outside the region.
#[derive(Clone, Copy)]
struct RefCount {
    header: usize,
    count: u32,
}

/// A single-writer ring allocator over a fixed region of 32-bit cells.
pub struct Ringal {
    cells: Vec<u32>,
    head: usize,
    shares: Vec<RefCount>,
}

/// How a scan ended.
enum Probe {
    Found(u32),
    Blocked,
    Wall,
}

impl View for Probe {
    type V = ScanEnd;

    closed spec fn view(&self) -> ScanEnd {
        match self {
            Probe::Found(total) => ScanEnd::Found(*total as int),
            Probe::Blocked => ScanEnd::Blocked,
            Probe::Wall => ScanEnd::Wall,
        }
    }
}

impl View for Ringal {
    type V = RingState;

    closed spec fn view(&self) -> RingState {
        RingState {
            cells: self.cells@,
            head: self.head as int,
            shares: Seq::new(
                self.shares.len() as nat,
                |i: int|
                    Share {
                        header: self.shares[i].header as int,
                        count: self.shares[i].count as int,
                    },
            ),
        }
    }
}

impl Ringal {
    /// A ring for at least `capacity` bytes: the bytes are rounded up to a
    /// power of two and divided into cells, which form one free segment.
    ///
    /// The capacity has room for a header and the smallest payload, and is
    /// no larger than what one header word can count.
    pub fn new(capacity: usize) -> (ring: Ringal)
        requires
            capacity > U32SIZE + MINALLOCBYTES,
            capacity <= (MAXALLOC + 1) * U32SIZE,
            capacity <= usize::MAX / 2 + 1,
        ensures
            ring@ == RingState::fresh(ring_cells(capacity as nat)),
            ring@.wf(),
            capacity <= ring@.cells.len() * U32SIZE < 2 * capacity,
    {
        proof {
            lemma2_to64();
            lemma2_to64_rest();
            lemma_next_power_of_two(capacity as nat, 33);
            if usize::MAX / 2 + 1 == pow2(31) {
                lemma_next_power_of_two(capacity as nat, 31);
            } else {
                lemma_next_power_of_two(capacity as nat, 63);
            }
        }
        let mut bytes: usize = 1;
        while bytes < capacity
            invariant
                bytes > 0,
                power_of_two_from(bytes as nat, capacity as nat) == next_power_of_two(
                    capacity as nat,
                ),
                next_power_of_two(capacity as nat) <= usize::MAX,
                bytes == 1 || bytes == 2 || bytes == 4 || bytes == 8 || bytes == 16 || bytes == 32
                    || bytes % 64 == 0,
            decreases usize::MAX - bytes,
        {
            proof {
                lemma_power_of_two_from(bytes as nat, capacity as nat);
            }
            bytes = bytes * 2;
        }
        let len: usize = bytes / U32SIZE;
        let mut cells: Vec<u32> = vec![0u32; len];
        let header = HeaderMut::new(0);
        header.store(&mut cells, (len - 1) as u32);
        let ring = Ringal { cells, head: 0, shares: Vec::new() };
        proof {
            assert(ring@.cells =~= RingState::fresh(len as int).cells);
            assert(ring@.shares =~= RingState::fresh(len as int).shares);
            lemma_free_word(len - 1);
            assert(reaches(ring@.cells, len as int, len as int));
        }
        ring
    }

    /// The cell at `index`.
    pub fn word(&self, index: usize) -> (word: u32)
        requires
            index < self@.cells.len(),
        ensures
            word == self@.cells[index as int],
    {
        self.cells[index]
    }

    /// The number of cells of the region.
    pub fn len(&self) -> (len: usize)
        ensures
            len == self@.cells.len(),
    {
        self.cells.len()
    }

    /// The header at which the next scan starts.
    pub fn head(&self) -> (head: usize)
        ensures
            head == self@.head,
    {
        self.head
    }

    /// Scans from the header at `start` for a run of `want` payload cells,
    /// up to the header at `limit` or the end of the region.
    fn probe(&self, start: usize, want: u32, limit: usize) -> (end: Probe)
        requires
            self@.wf(),
            is_header(self@.cells, start as int),
            start < limit,
            limit == self@.cells.len() || is_header(self@.cells, limit as int),
        ensures
            end@ == run(self@.cells, start as int, start as int, want as int, limit as int),
    {
        let mut current: usize = start;
        loop
            invariant
                self@.wf(),
                start <= current < limit <= self@.cells.len(),
                limit == self@.cells.len() || is_header(self@.cells, limit as int),
                is_header(self@.cells, current as int),
                run(self@.cells, start as int, start as int, want as int, limit as int) == run(
                    self@.cells,
                    start as int,
                    current as int,
                    want as int,
                    limit as int,
                ),
            decreases limit - current,
        {
            let header = HeaderMut::new(current);
            if !header.available(self) {
                return Probe::Blocked;
            }
            proof {
                lemma_segment_in_region(self@.cells, current as int);
            }
            let size: u32 = header.capacity(self);
            let total: usize = (current - start) + size as usize;
            if total >= want as usize {
                return Probe::Found(total as u32);
            }
            let next: usize = current + size as usize + 1;
            if next >= limit {
                return Probe::Wall;
            }
            current = next;
        }
    }

    /// Hands out the run of `total` payload cells that starts at header
    /// `at`: writes the header of the segment, the header of a free tail
    /// where one is left, and moves the head behind the segment.
    fn commit(&mut self, at: usize, total: u32, want: u32) -> (header: HeaderMut)
        requires
            old(self)@.wf(),
            is_header(old(self)@.cells, at as int),
            reaches(old(self)@.cells, at as int, at + 1 + total),
            at + 1 + total <= old(self)@.cells.len(),
            MINALLOC <= want <= total,
        ensures
            header@ == at,
            final(self)@.cells == committed(old(self)@.cells, at as int, total as int, want as int),
            final(self)@.head == head_after(
                old(self)@.cells.len() as int,
                at as int,
                total as int,
                want as int,
            ),
            final(self)@.shares == old(self)@.shares,
    {
        let given: u32 = if total - want <= MINALLOC {
            total
        } else {
            want
        };
        let header = HeaderMut::new(at);
        header.store(&mut self.cells, given);
        let next: usize = at + given as usize + 1;
        if next >= self.cells.len() {
            self.head = 0;
        } else {
            self.head = next;
            if given < total {
                let tail = HeaderMut::new(next);
                tail.store(&mut self.cells, total - given - 1);
            }
        }
        header
    }

    /// Scans for a run of `capacity` payload cells and hands it out.
    ///
    /// The scan starts at the head and adds up free segments until the run
    /// is large enough; a busy segment in its way ends it without a result.
    /// At the end of the region it starts over at the first cell, once, and
    /// ends without a result where it comes to the head again. Where the
    /// run leaves more than the smallest payload, the rest becomes a free
    /// segment of its own. After a scan that started over, the segments
    /// between the old head and the end of the region are one free segment.
    fn advance(&mut self, capacity: u32) -> (header: Option<HeaderMut>)
        requires
            old(self)@.wf(),
            MINALLOC <= capacity,
        ensures
            match old(self)@.advanced(capacity as int).0 {
                Some(at) => header matches Some(h) && h@ == at,
                None => header is None,
            },
            final(self)@ == old(self)@.advanced(capacity as int).1,
            final(self)@.wf(),
    {
        let len: usize = self.cells.len();
        let head: usize = self.head;
        proof {
            lemma_advanced(self@, capacity as int);
            lemma_segment_in_region(self@.cells, head as int);
        }
        match self.probe(head, capacity, len) {
            Probe::Found(total) => {
                proof {
                    lemma_run_found(
                        self@.cells,
                        head as int,
                        head as int,
                        capacity as int,
                        len as int,
                    );
                }
                Some(self.commit(head, total, capacity))
            },
            Probe::Blocked => None,
            Probe::Wall => {
                if head == 0 {
                    return None;
                }
                match self.probe(0, capacity, head) {
                    Probe::Found(total) => {
                        proof {
                            lemma_run_found(self@.cells, 0, 0, capacity as int, head as int);
                        }
                        let header = self.commit(0, total, capacity);
                        let behind = HeaderMut::new(head);
                        behind.store(&mut self.cells, (len - 1 - head) as u32);
                        Some(header)
                    },
                    _ => None,
                }
            },
        }
    }

    /// Reserves a segment of at least `min` bytes and returns its header.
    ///
    /// The bytes are rounded up to whole cells and to the smallest payload.
    /// A request for nothing, or for the largest payload or more, is turned
    /// down. The segment is still free when it is returned: whoever makes a
    /// buffer of it sets the busy bit.
    pub fn allocate(&mut self, min: usize) -> (header: Option<HeaderMut>)
        requires
            old(self)@.wf(),
        ensures
            match old(self)@.allocated(min as int).0 {
                Some(at) => header matches Some(h) && h@ == at,
                None => header is None,
            },
            final(self)@ == old(self)@.allocated(min as int).1,
            final(self)@.wf(),
            keeps_busy(old(self)@.cells, final(self)@.cells),
    {
        proof {
            lemma_keeps_busy_same(self@.cells);
        }
        if min == 0 {
            return None;
        }
        let whole: usize = (min - 1) / U32SIZE + 1;
        if whole >= MAXALLOC as usize {
            return None;
        }
        let want: u32 = if whole < MINALLOC as usize {
            MINALLOC
        } else {
            whole as u32
        };
        proof {
            lemma_advanced(self@, want as int);
        }
        self.advance(want)
    }

    /// Grows the free segment at `header` in place by at least `extra`
    /// bytes.
    ///
    /// The segment grows where the head stands right behind it and the scan
    /// from there finds a run before the end of the region: the run is
    /// handed out and joined to the segment, its header becoming payload.
    /// Nothing is changed where the segment cannot grow.
    pub fn extend(&mut self, header: &HeaderMut, extra: usize) -> (result: Result<(), WriteError>)
        requires
            old(self)@.wf(),
            is_header(old(self)@.cells, header@),
            !is_busy(old(self)@.cells[header@]),
            extra >= U32SIZE,
        ensures
            match old(self)@.extended(header@, extra as int) {
                Some(grown) => result is Ok && final(self)@ == grown,
                None => result == Err::<(), WriteError>(WriteError::RingFull) && final(self)@
                    == old(self)@,
            },
            final(self)@.wf(),
            keeps_busy(old(self)@.cells, final(self)@.cells),
    {
        proof {
            lemma_keeps_busy_same(self@.cells);
            if self@.extended(header@, extra as int) is Some {
                lemma_extended(self@, header@, extra as int);
            }
            lemma_segment_in_region(self@.cells, header@);
        }
        let min: usize = extra - U32SIZE;
        if min == 0 {
            return Err(WriteError::RingFull);
        }
        let whole: usize = (min - 1) / U32SIZE + 1;
        if whole >= MAXALLOC as usize {
            return Err(WriteError::RingFull);
        }
        let want: u32 = if whole < MINALLOC as usize {
            MINALLOC
        } else {
            whole as u32
        };
        let size: u32 = header.capacity(self);
        let behind: usize = header.index() + size as usize + 1;
        if self.head != behind {
            return Err(WriteError::RingFull);
        }
        let len: usize = self.cells.len();
        match self.probe(behind, want, len) {
            Probe::Found(total) => {
                proof {
                    lemma_segment_in_region(self@.cells, behind as int);
                    lemma_run_found(
                        self@.cells,
                        behind as int,
                        behind as int,
                        want as int,
                        len as int,
                    );
                }
                let fresh = self.commit(behind, total, want);
                let added: u32 = fresh.capacity(self);
                header.store(&mut self.cells, added + 1 + size);
                Ok(())
            },
            _ => Err(WriteError::RingFull),
        }
    }

    /// Sets the busy bit of the free segment at `header`.
    pub(crate) fn mark(&mut self, header: &HeaderMut)
        requires
            old(self)@.wf(),
            is_header(old(self)@.cells, header@),
            !is_busy(old(self)@.cells[header@]),
        ensures
            final(self)@ == old(self)@.marked(header@),
            final(self)@.wf(),
    {
        proof {
            lemma_marked(self@, header@);
        }
        header.set(&mut self.cells);
    }

    /// Writes bytes into the payload of the segment at `header`, from the
    /// byte at `offset` on.
    pub(crate) fn pour(&mut self, header: usize, offset: usize, bytes: &[u8])
        requires
            old(self)@.wf(),
            is_header(old(self)@.cells, header as int),
            offset + bytes.len() <= old(self)@.capacity(header as int) * U32SIZE,
        ensures
            final(self)@ == old(self)@.filled(header as int, offset as int, bytes@),
            final(self)@.wf(),
    {
        proof {
            lemma_filled(self@, header as int, offset as int, bytes@);
            lemma_segment_in_region(self@.cells, header as int);
        }
        let base: usize = (header + 1) * U32SIZE + offset;
        let mut i: usize = 0;
        while i < bytes.len()
            invariant
                i <= bytes.len(),
                base + bytes.len() <= old(self)@.cells.len() * U32SIZE <= usize::MAX,
                self@.cells.len() == old(self)@.cells.len(),
                base == payload(header as int) + offset,
                self@.cells == poured(old(self)@.cells, base as int, bytes@.take(i as int)),
                self@.head == old(self)@.head,
                self@.shares == old(self)@.shares,
            decreases bytes.len() - i,
        {
            proof {
                lemma_poured(old(self)@.cells, base as int, bytes@.take(i as int));
                assert(bytes@.take(i + 1).drop_last() =~= bytes@.take(i as int));
            }
            put(&mut self.cells, base + i, bytes[i]);
            i = i + 1;
        }
        proof {
            assert(bytes@.take(i as int) =~= bytes@);
        }
    }

    /// Writes `len` zero bytes into the payload of the segment at `header`.
    pub(crate) fn pour_zeros(&mut self, header: usize, len: usize)
        requires
            old(self)@.wf(),
            is_header(old(self)@.cells, header as int),
            len <= old(self)@.capacity(header as int) * U32SIZE,
        ensures
            final(self)@ == old(self)@.filled(header as int, 0, Seq::new(len as nat, |i: int| 0u8)),
            final(self)@.wf(),
    {
        let ghost zeros = Seq::new(len as nat, |i: int| 0u8);
        proof {
            lemma_filled(self@, header as int, 0, zeros);
            lemma_segment_in_region(self@.cells, header as int);
        }
        let base: usize = (header + 1) * U32SIZE;
        let mut i: usize = 0;
        while i < len
            invariant
                i <= len,
                zeros.len() == len,
                forall|k: int| 0 <= k < len ==> zeros[k] == 0u8,
                base + len <= old(self)@.cells.len() * U32SIZE <= usize::MAX,
                self@.cells.len() == old(self)@.cells.len(),
                base == payload(header as int),
                self@.cells == poured(old(self)@.cells, base as int, zeros.take(i as int)),
                self@.head == old(self)@.head,
                self@.shares == old(self)@.shares,
            decreases len - i,
        {
            proof {
                lemma_poured(old(self)@.cells, base as int, zeros.take(i as int));
                assert(zeros.take(i + 1).drop_last() =~= zeros.take(i as int));
            }
            put(&mut self.cells, base + i, 0u8);
            i = i + 1;
        }
        proof {
            assert(zeros.take(i as int) =~= zeros);
        }
    }

    /// Replaces the payload byte at `offset` of the segment at `header`.
    pub(crate) fn poke(&mut self, header: usize, offset: usize, byte: u8)
        requires
            old(self)@.wf(),
            is_header(old(self)@.cells, header as int),
            offset < old(self)@.capacity(header as int) * U32SIZE,
        ensures
            final(self)@ == old(self)@.filled(header as int, offset as int, seq![byte]),
            final(self)@.wf(),
    {
        proof {
            lemma_filled(self@, header as int, offset as int, seq![byte]);
            lemma_segment_in_region(self@.cells, header as int);
            let pos = payload(header as int) + offset;
            assert(seq![byte].drop_last() =~= Seq::<u8>::empty());
            assert(poured(self@.cells, pos, seq![byte]) == put_byte(
                poured(self@.cells, pos, Seq::<u8>::empty()),
                pos,
                byte,
            ));
        }
        put(&mut self.cells, (header + 1) * U32SIZE + offset, byte);
    }

    /// The payload byte at `offset` of the segment at `header`.
    pub(crate) fn peek(&self, header: usize, offset: usize) -> (byte: u8)
        requires
            self@.wf(),
            is_header(self@.cells, header as int),
            offset < self@.capacity(header as int) * U32SIZE,
        ensures
            byte == byte_at(self@.cells, payload(header as int) + offset),
    {
        proof {
            lemma_segment_in_region(self@.cells, header as int);
        }
        get(&self.cells, (header + 1) * U32SIZE + offset)
    }

    /// The first `len` payload bytes of the segment at `header`.
    pub(crate) fn read(&self, header: usize, len: usize) -> (bytes: Vec<u8>)
        requires
            self@.wf(),
            is_header(self@.cells, header as int),
            len <= self@.capacity(header as int) * U32SIZE,
        ensures
            bytes@ == self@.bytes(header as int, len as int),
    {
        proof {
            lemma_segment_in_region(self@.cells, header as int);
        }
        let base: usize = (header + 1) * U32SIZE;
        let mut bytes: Vec<u8> = Vec::new();
        let mut i: usize = 0;
        while i < len
            invariant
                i <= len,
                base + len <= self@.cells.len() * U32SIZE <= usize::MAX,
                base == payload(header as int),
                bytes@ == bytes_at(self@.cells, base as int, i as int),
            decreases len - i,
        {
            bytes.push(get(&self.cells, base + i));
            i = i + 1;
        }
        bytes
    }

    /// Reserves a segment of at least `min` bytes for writing.
    ///
    /// The writer starts empty, with the room that the segment has. The
    /// segment stays free until the writer is finished; a writer that is
    /// given up leaves nothing behind.
    pub fn writer(&mut self, min: usize) -> (writer: Option<BufferWriter<'_>>)
        requires
            old(self)@.wf(),
        ensures
            match old(self)@.allocated(min as int).0 {
                Some(at) => {
                    &&& writer is Some
                    &&& writer.unwrap().header@ == at
                    &&& writer.unwrap().initialized == 0
                    &&& writer.unwrap().ringo@ == old(self)@.allocated(min as int).1
                    &&& writer.unwrap().wf()
                    &&& *final(self) == *final(writer.unwrap().ringo)
                },
                None => writer is None && final(self)@ == old(self)@,
            },
            keeps_busy(old(self)@.cells, old(self)@.allocated(min as int).1.cells),
    {
        proof {
            if in_range(min as int) {
                lemma_advanced(self@, cells_wanted(min as int));
            } else {
                lemma_keeps_busy_same(self@.cells);
            }
        }
        match self.allocate(min) {
            Some(header) => {
                let capacity: usize = header.capacity(self) as usize * U32SIZE;
                Some(BufferWriter { header, initialized: 0, capacity, ringo: self })
            },
            None => None,
        }
    }

    /// Hands out a buffer of exactly `min` bytes whose bytes are whatever
    /// the cells held: the owner writes before it reads.
    pub fn fixed_uninit(&mut self, min: usize) -> (buffer: Option<BufferMut>)
        requires
            old(self)@.wf(),
        ensures
            match old(self)@.allocated(min as int).0 {
                Some(at) => {
                    &&& buffer is Some
                    &&& buffer.unwrap()@ == (Span { header: at, len: min as int, written: false })
                    &&& final(self)@ == old(self)@.allocated(min as int).1.marked(at)
                    &&& final(self)@.holds_mut(buffer.unwrap()@)
                },
                None => buffer is None && final(self)@ == old(self)@,
            },
            final(self)@.wf(),
            keeps_busy(old(self)@.cells, final(self)@.cells),
    {
        proof {
            if in_range(min as int) {
                lemma_advanced(self@, cells_wanted(min as int));
            }
        }
        match self.allocate(min) {
            Some(header) => {
                proof {
                    lemma_marked(self@, header@);
                    lemma_keeps_busy_twice(
                        old(self)@.cells,
                        self@.cells,
                        self@.marked(header@).cells,
                    );
                }
                self.mark(&header);
                Some(BufferMut::new(header.into_ro(), min, false))
            },
            None => None,
        }
    }

    /// Hands out a buffer of exactly `min` zero bytes.
    pub fn fixed(&mut self, min: usize) -> (buffer: Option<BufferMut>)
        requires
            old(self)@.wf(),
        ensures
            match old(self)@.allocated(min as int).0 {
                Some(at) => {
                    &&& buffer is Some
                    &&& buffer.unwrap()@ == (Span { header: at, len: min as int, written: true })
                    &&& final(self)@ == old(self)@.allocated(min as int).1.marked(at).filled(
                        at,
                        0,
                        Seq::new(min as nat, |i: int| 0u8),
                    )
                    &&& final(self)@.holds_mut(buffer.unwrap()@)
                    &&& final(self)@.bytes(at, min as int) == Seq::new(min as nat, |i: int| 0u8)
                },
                None => buffer is None && final(self)@ == old(self)@,
            },
            final(self)@.wf(),
            keeps_busy(old(self)@.cells, final(self)@.cells),
    {
        match self.fixed_uninit(min) {
            Some(buffer) => {
                let mut buffer = buffer;
                proof {
                    let zeros = Seq::new(min as nat, |i: int| 0u8);
                    lemma_filled(self@, buffer@.header, 0, zeros);
                    lemma_keeps_busy_others(
                        old(self)@.cells,
                        self@.cells,
                        self@.filled(buffer@.header, 0, zeros).cells,
                        buffer@.header,
                    );
                }
                buffer.init(self);
                Some(buffer)
            },
            None => None,
        }
    }

    /// Clears the busy bit of the segment at `header`, which no reference
    /// count belongs to.
    pub(crate) fn clear(&mut self, header: &HeaderRo)
        requires
            old(self)@.wf(),
            is_header(old(self)@.cells, header@),
            old(self)@.unshared(header@),
        ensures
            final(self)@ == old(self)@.cleared(header@),
            final(self)@.wf(),
    {
        proof {
            lemma_cleared(self@, header@);
        }
        header.unset(&mut self.cells);
    }

    /// Whether a segment's header stands at cell `at`.
    pub fn is_segment(&self, at: usize) -> (found: bool)
        requires
            self@.wf(),
        ensures
            found == is_header(self@.cells, at as int),
    {
        let len: usize = self.cells.len();
        if at >= len {
            return false;
        }
        let mut current: usize = 0;
        while current < at
            invariant
                self@.wf(),
                len == self@.cells.len(),
                current <= at < len,
                is_header(self@.cells, current as int),
            decreases at - current,
        {
            proof {
                lemma_segment_in_region(self@.cells, current as int);
                if at < next_header(self@.cells, current as int) {
                    lemma_payload_holds_no_header(self@.cells, current as int, at as int);
                }
            }
            let next: usize = current + capacity(self.cells[current]) as usize + 1;
            if next > at {
                return false;
            }
            current = next;
        }
        true
    }

    /// Whether no reference count in use belongs to the segment at `header`.
    fn is_unshared(&self, header: usize) -> (none: bool)
        ensures
            none == self@.unshared(header as int),
    {
        let mut i: usize = 0;
        while i < self.shares.len()
            invariant
                i <= self.shares.len(),
                forall|k: int|
                    0 <= k < i && (#[trigger] self@.shares[k]).count > 0 ==> self@.shares[k].header
                        != header,
            decreases self.shares.len() - i,
        {
            if self.shares[i].count > 0 && self.shares[i].header == header {
                assert(self@.shares[i as int].count > 0);
                return false;
            }
            i = i + 1;
        }
        true
    }

    /// Whether the ring holds this mutable buffer.
    pub fn owns_mut(&self, buffer: &BufferMut) -> (held: bool)
        requires
            self@.wf(),
        ensures
            held == self@.holds_mut(buffer@),
    {
        let header: usize = buffer.header();
        if !self.is_segment(header) {
            return false;
        }
        let word: u32 = self.cells[header];
        if available(word) {
            return false;
        }
        proof {
            lemma_segment_in_region(self@.cells, header as int);
        }
        if buffer.len() > capacity(word) as usize * U32SIZE {
            return false;
        }
        self.is_unshared(header)
    }

    /// Whether the ring holds this shared buffer.
    pub fn owns(&self, buffer: &Buffer) -> (held: bool)
        requires
            self@.wf(),
        ensures
            held == self@.holds(buffer@),
    {
        let slot: usize = buffer.slot();
        if slot >= self.shares.len() {
            return false;
        }
        let share: RefCount = self.shares[slot];
        if share.count == 0 || share.header != buffer.header() {
            return false;
        }
        proof {
            lemma_segment_in_region(self@.cells, share.header as int);
        }
        buffer.len() <= capacity(self.cells[share.header]) as usize * U32SIZE
    }

    /// The number of holders of a shared buffer.
    pub fn holders(&self, buffer: &Buffer) -> (count: u32)
        requires
            self@.holds(buffer@),
        ensures
            count == self@.count(buffer@),
    {
        self.shares[buffer.slot()].count
    }

    /// Takes a reference count for the busy segment at `header` and starts
    /// it at one. Returns the cell that holds the count.
    pub(crate) fn count_from_one(&mut self, header: usize) -> (slot: usize)
        requires
            old(self)@.wf(),
            is_header(old(self)@.cells, header as int),
            is_busy(old(self)@.cells[header as int]),
            old(self)@.unshared(header as int),
        ensures
            slot == first_unused(old(self)@.shares, 0),
            final(self)@ == old(self)@.counted(header as int),
    {
        let share = RefCount { header, count: 1 };
        let mut slot: usize = 0;
        while slot < self.shares.len()
            invariant
                slot <= self.shares.len(),
                first_unused(self@.shares, 0) == first_unused(self@.shares, slot as int),
                *self == *old(self),
                share.header == header,
                share.count == 1,
            decreases self.shares.len() - slot,
        {
            if self.shares[slot].count == 0 {
                self.shares[slot] = share;
                assert(self@.shares =~= old(self)@.counted(header as int).shares);
                return slot;
            }
            slot = slot + 1;
        }
        self.shares.push(share);
        assert(self@.shares =~= old(self)@.counted(header as int).shares);
        slot
    }

    /// Counts one more holder of the reference count in cell `slot`.
    pub(crate) fn count_up(&mut self, slot: usize)
        requires
            slot < old(self)@.shares.len(),
            old(self)@.shares[slot as int].count < u32::MAX,
        ensures
            final(self)@ == old(self)@.recounted(slot as int, 1),
    {
        let share: RefCount = self.shares[slot];
        self.shares[slot] = RefCount { header: share.header, count: share.count + 1 };
        assert(self@.shares =~= old(self)@.recounted(slot as int, 1).shares);
    }

    /// Counts one holder less of the reference count in cell `slot`. The
    /// last holder clears the busy bit of the segment and gives the cell
    /// back. Returns whether the holder was the last.
    pub(crate) fn count_down(&mut self, slot: usize) -> (last: bool)
        requires
            slot < old(self)@.shares.len(),
            0 < old(self)@.shares[slot as int].count,
            old(self)@.shares[slot as int].header < old(self)@.cells.len(),
        ensures
            last == (old(self)@.shares[slot as int].count == 1),
            final(self)@ == old(self)@.uncounted(slot as int),
    {
        let share: RefCount = self.shares[slot];
        if share.count == 1 {
            let header = HeaderMut::new(share.header);
            header.unset(&mut self.cells);
        }
        self.shares[slot] = RefCount { header: share.header, count: share.count - 1 };
        assert(self@.shares =~= old(self)@.uncounted(slot as int).shares);
        share.count == 1
    }
}

} // verus!
