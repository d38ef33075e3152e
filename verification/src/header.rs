//! The header word: one 32-bit cell in front of each segment's payload.
//!
//! Bit 0 is the busy flag, bits 1 to 31 hold the payload's size in cells.
use vstd::prelude::*;

use crate::ring::Ringal;
use crate::MAXALLOC;

verus! {

/// The payload size, in cells, that a header word records.
pub open spec fn capacity_of(word: u32) -> nat {
    (word / 2) as nat
}

/// Whether a header word marks its segment as held by a buffer.
pub open spec fn is_busy(word: u32) -> bool {
    word % 2 == 1
}

/// The header word of a free segment with the given payload size.
pub open spec fn free_word(capacity: int) -> u32 {
    (capacity * 2) as u32
}

/// The header word of a busy segment with the given payload size.
pub open spec fn busy_word(capacity: int) -> u32 {
    (capacity * 2 + 1) as u32
}

/// The header word of a free segment of `size` payload cells.
pub fn stored(size: u32) -> (word: u32)
    requires
        size <= MAXALLOC,
    ensures
        word == free_word(size as int),
        capacity_of(word) == size,
        !is_busy(word),
{
    assert(size << 1 == size * 2 && (size << 1) / 2 == size && (size << 1) % 2 == 0)
        by (bit_vector)
        requires
            size <= 0x7fff_ffffu32,
    ;
    size << 1
}

/// The same word with the busy bit set.
pub fn with_busy(word: u32) -> (marked: u32)
    ensures
        is_busy(marked),
        capacity_of(marked) == capacity_of(word),
        is_busy(word) ==> marked == word,
        marked == busy_word(capacity_of(word) as int),
{
    assert((word | 1) % 2 == 1 && (word | 1) / 2 == word / 2 && (word % 2 == 1 ==> (word | 1)
        == word) && (word | 1) == (word / 2) * 2 + 1) by (bit_vector);
    word | 1
}

/// The same word with the busy bit cleared.
pub fn without_busy(word: u32) -> (cleared: u32)
    ensures
        !is_busy(cleared),
        capacity_of(cleared) == capacity_of(word),
        !is_busy(word) ==> cleared == word,
        cleared == free_word(capacity_of(word) as int),
{
    assert((word & (u32::MAX << 1)) % 2 == 0 && (word & (u32::MAX << 1)) / 2 == word / 2 && (word
        % 2 == 0 ==> (word & (u32::MAX << 1)) == word) && (word & (u32::MAX << 1)) == (word / 2)
        * 2) by (bit_vector);
    word & (u32::MAX << 1)
}

/// The payload size, in cells, that the word records.
pub fn capacity(word: u32) -> (cells: u32)
    ensures
        cells == capacity_of(word),
        cells <= MAXALLOC,
{
    assert(word >> 1 == word / 2 && (word >> 1) <= 0x7fff_ffffu32) by (bit_vector);
    word >> 1
}

/// Whether the word marks its segment as free.
pub fn available(word: u32) -> (free: bool)
    ensures
        free == !is_busy(word),
{
    assert((word & 1 == 0) == (word % 2 != 1)) by (bit_vector);
    (word & 1) == 0
}

/// The place of a segment's header in the ring, held by the producer while
/// the segment is being handed out.
pub struct HeaderMut {
    index: usize,
}

/// The place of a segment's header in the ring, held by a buffer: all that a
/// buffer may do with it is to clear the busy bit.
#[derive(Clone, Copy)]
pub struct HeaderRo {
    index: usize,
}

impl View for HeaderMut {
    type V = int;

    closed spec fn view(&self) -> int {
        self.index as int
    }
}

impl View for HeaderRo {
    type V = int;

    closed spec fn view(&self) -> int {
        self.index as int
    }
}

impl HeaderMut {
    /// The header that stands at cell `index`.
    pub fn new(index: usize) -> (header: HeaderMut)
        ensures
            header@ == index,
    {
        HeaderMut { index }
    }

    /// The cell at which the header stands.
    pub fn index(&self) -> (index: usize)
        ensures
            index == self@,
    {
        self.index
    }

    /// Sets the busy bit of the header word.
    pub(crate) fn set(&self, cells: &mut Vec<u32>)
        requires
            self@ < old(cells).len(),
        ensures
            final(cells)@ == old(cells)@.update(
                self@,
                busy_word(capacity_of(old(cells)@[self@]) as int),
            ),
            is_busy(final(cells)@[self@]),
            capacity_of(final(cells)@[self@]) == capacity_of(old(cells)@[self@]),
    {
        let word: u32 = with_busy(cells[self.index]);
        cells[self.index] = word;
    }

    /// Clears the busy bit of the header word.
    pub(crate) fn unset(&self, cells: &mut Vec<u32>)
        requires
            self@ < old(cells).len(),
        ensures
            final(cells)@ == old(cells)@.update(
                self@,
                free_word(capacity_of(old(cells)@[self@]) as int),
            ),
            !is_busy(final(cells)@[self@]),
            capacity_of(final(cells)@[self@]) == capacity_of(old(cells)@[self@]),
    {
        let word: u32 = without_busy(cells[self.index]);
        cells[self.index] = word;
    }

    /// Writes the header word of a free segment of `size` payload cells.
    pub(crate) fn store(&self, cells: &mut Vec<u32>, size: u32)
        requires
            self@ < old(cells).len(),
            size <= MAXALLOC,
        ensures
            final(cells)@ == old(cells)@.update(self@, free_word(size as int)),
    {
        let word: u32 = stored(size);
        cells[self.index] = word;
    }

    /// The payload size, in cells, that the header word records.
    pub fn capacity(&self, ring: &Ringal) -> (size: u32)
        requires
            self@ < ring@.cells.len(),
        ensures
            size == capacity_of(ring@.cells[self@]),
            size <= MAXALLOC,
    {
        capacity(ring.word(self.index))
    }

    /// Whether the header word marks the segment as free.
    pub fn available(&self, ring: &Ringal) -> (free: bool)
        requires
            self@ < ring@.cells.len(),
        ensures
            free == !is_busy(ring@.cells[self@]),
    {
        available(ring.word(self.index))
    }

    /// The cell at which the segment's payload starts.
    pub fn buffer(&self) -> (first: usize)
        requires
            self@ < usize::MAX,
        ensures
            first == self@ + 1,
    {
        self.index + 1
    }

    /// The same place, for a buffer to hold.
    pub fn into_ro(self) -> (header: HeaderRo)
        ensures
            header@ == self@,
    {
        HeaderRo { index: self.index }
    }
}

impl HeaderRo {
    /// The cell at which the header stands.
    pub fn index(&self) -> (index: usize)
        ensures
            index == self@,
    {
        self.index
    }

    /// Clears the busy bit of the header word.
    pub(crate) fn unset(&self, cells: &mut Vec<u32>)
        requires
            self@ < old(cells).len(),
        ensures
            final(cells)@ == old(cells)@.update(
                self@,
                free_word(capacity_of(old(cells)@[self@]) as int),
            ),
            !is_busy(final(cells)@[self@]),
            capacity_of(final(cells)@[self@]) == capacity_of(old(cells)@[self@]),
    {
        let word: u32 = without_busy(cells[self.index]);
        cells[self.index] = word;
    }
}

} // verus!
