//! Bytes inside cells.
//!
//! A cell holds four bytes, the lowest lane first. A byte of the region is
//! named by its position: four times the cell's index plus the lane.
use vstd::arithmetic::div_mod::{
    lemma_div_denominator, lemma_fundamental_div_mod, lemma_fundamental_div_mod_converse,
};
use vstd::prelude::*;

use crate::U32SIZE;

verus! {

/// The byte in one lane of a cell.
pub open spec fn lane_of(word: u32, lane: int) -> u8 {
    if lane == 0 {
        (word % 0x100) as u8
    } else if lane == 1 {
        ((word / 0x100) % 0x100) as u8
    } else if lane == 2 {
        ((word / 0x1_0000) % 0x100) as u8
    } else {
        ((word / 0x100_0000) % 0x100) as u8
    }
}

/// The cell whose four lanes hold the given bytes.
pub open spec fn word_of(b0: int, b1: int, b2: int, b3: int) -> int {
    b0 + 0x100 * b1 + 0x1_0000 * b2 + 0x100_0000 * b3
}

/// The cell with one lane replaced.
pub open spec fn with_lane(word: u32, lane: int, byte: u8) -> u32 {
    word_of(
        if lane == 0 {
            byte as int
        } else {
            lane_of(word, 0) as int
        },
        if lane == 1 {
            byte as int
        } else {
            lane_of(word, 1) as int
        },
        if lane == 2 {
            byte as int
        } else {
            lane_of(word, 2) as int
        },
        if lane == 3 {
            byte as int
        } else {
            lane_of(word, 3) as int
        },
    ) as u32
}

/// The byte at a position of the region.
pub open spec fn byte_at(cells: Seq<u32>, pos: int) -> u8 {
    lane_of(cells[pos / (U32SIZE as int)], pos % (U32SIZE as int))
}

/// The `len` bytes that start at a position of the region.
pub open spec fn bytes_at(cells: Seq<u32>, pos: int, len: int) -> Seq<u8> {
    Seq::new(len as nat, |i: int| byte_at(cells, pos + i))
}

/// The cells with one byte replaced.
pub open spec fn put_byte(cells: Seq<u32>, pos: int, byte: u8) -> Seq<u32> {
    cells.update(
        pos / (U32SIZE as int),
        with_lane(cells[pos / (U32SIZE as int)], pos % (U32SIZE as int), byte),
    )
}

/// The cells with the given bytes written from a position on.
pub open spec fn poured(cells: Seq<u32>, pos: int, bytes: Seq<u8>) -> Seq<u32>
    decreases bytes.len(),
{
    if bytes.len() == 0 {
        cells
    } else {
        put_byte(poured(cells, pos, bytes.drop_last()), pos + bytes.len() - 1, bytes.last())
    }
}

/// A cell put together from four bytes holds each of them in its lane.
pub proof fn lemma_word_of(b0: int, b1: int, b2: int, b3: int)
    requires
        0 <= b0 < 0x100,
        0 <= b1 < 0x100,
        0 <= b2 < 0x100,
        0 <= b3 < 0x100,
    ensures
        0 <= word_of(b0, b1, b2, b3) < 0x1_0000_0000,
        word_of(b0, b1, b2, b3) % 0x100 == b0,
        (word_of(b0, b1, b2, b3) / 0x100) % 0x100 == b1,
        (word_of(b0, b1, b2, b3) / 0x1_0000) % 0x100 == b2,
        (word_of(b0, b1, b2, b3) / 0x100_0000) % 0x100 == b3,
{
    let w = word_of(b0, b1, b2, b3);
    lemma_fundamental_div_mod_converse(w, 0x100, b1 + 0x100 * b2 + 0x1_0000 * b3, b0);
    lemma_fundamental_div_mod_converse(b1 + 0x100 * b2 + 0x1_0000 * b3, 0x100, b2 + 0x100 * b3, b1);
    lemma_fundamental_div_mod_converse(w, 0x1_0000, b2 + 0x100 * b3, b0 + 0x100 * b1);
    lemma_fundamental_div_mod_converse(b2 + 0x100 * b3, 0x100, b3, b2);
    lemma_fundamental_div_mod_converse(w, 0x100_0000, b3, b0 + 0x100 * b1 + 0x1_0000 * b2);
    lemma_fundamental_div_mod_converse(b3, 0x100, 0, b3);
}

/// A cell is put together from the bytes in its four lanes.
pub proof fn lemma_word_is_lanes(word: u32)
    ensures
        word == word_of(
            lane_of(word, 0) as int,
            lane_of(word, 1) as int,
            lane_of(word, 2) as int,
            lane_of(word, 3) as int,
        ),
{
    let w = word as int;
    lemma_fundamental_div_mod(w, 0x100);
    lemma_fundamental_div_mod(w / 0x100, 0x100);
    lemma_fundamental_div_mod(w / 0x1_0000, 0x100);
    lemma_div_denominator(w, 0x100, 0x100);
    lemma_div_denominator(w, 0x1_0000, 0x100);
}

/// Replacing a lane sets that lane and leaves the other three.
pub proof fn lemma_with_lane(word: u32, lane: int, byte: u8)
    requires
        0 <= lane < 4,
    ensures
        lane_of(with_lane(word, lane, byte), lane) == byte,
        forall|other: int|
            0 <= other < 4 && other != lane ==> lane_of(with_lane(word, lane, byte), other)
                == #[trigger] lane_of(word, other),
{
    let b0 = if lane == 0 {
        byte as int
    } else {
        lane_of(word, 0) as int
    };
    let b1 = if lane == 1 {
        byte as int
    } else {
        lane_of(word, 1) as int
    };
    let b2 = if lane == 2 {
        byte as int
    } else {
        lane_of(word, 2) as int
    };
    let b3 = if lane == 3 {
        byte as int
    } else {
        lane_of(word, 3) as int
    };
    lemma_word_of(b0, b1, b2, b3);
}

/// Replacing a byte sets that byte and leaves every other byte and every
/// other cell.
pub proof fn lemma_put_byte(cells: Seq<u32>, pos: int, byte: u8)
    requires
        0 <= pos < cells.len() * U32SIZE,
    ensures
        put_byte(cells, pos, byte).len() == cells.len(),
        byte_at(put_byte(cells, pos, byte), pos) == byte,
        forall|q: int|
            0 <= q < cells.len() * U32SIZE && q != pos ==> #[trigger] byte_at(
                put_byte(cells, pos, byte),
                q,
            ) == byte_at(cells, q),
        forall|k: int|
            0 <= k < cells.len() && k != pos / (U32SIZE as int) ==> #[trigger] put_byte(
                cells,
                pos,
                byte,
            )[k] == cells[k],
{
    let k = pos / (U32SIZE as int);
    let lane = pos % (U32SIZE as int);
    lemma_with_lane(cells[k], lane, byte);
}

/// Writing bytes sets exactly those bytes: the rest of the region keeps its
/// bytes, and every cell that holds none of the written bytes is unchanged.
pub proof fn lemma_poured(cells: Seq<u32>, pos: int, bytes: Seq<u8>)
    requires
        0 <= pos,
        pos + bytes.len() <= cells.len() * U32SIZE,
    ensures
        poured(cells, pos, bytes).len() == cells.len(),
        bytes_at(poured(cells, pos, bytes), pos, bytes.len() as int) == bytes,
        forall|q: int|
            0 <= q < cells.len() * U32SIZE && !(pos <= q < pos + bytes.len())
                ==> #[trigger] byte_at(poured(cells, pos, bytes), q) == byte_at(cells, q),
        forall|k: int|
            0 <= k < cells.len() && !(pos <= k * U32SIZE + 3 && k * U32SIZE < pos + bytes.len())
                ==> #[trigger] poured(cells, pos, bytes)[k] == cells[k],
    decreases bytes.len(),
{
    if bytes.len() > 0 {
        let before = poured(cells, pos, bytes.drop_last());
        let last = pos + bytes.len() - 1;
        lemma_poured(cells, pos, bytes.drop_last());
        lemma_put_byte(before, last, bytes.last());
        let after = poured(cells, pos, bytes);
        assert forall|i: int| 0 <= i < bytes.len() implies bytes_at(
            after,
            pos,
            bytes.len() as int,
        )[i] == bytes[i] by {
            if i < bytes.len() - 1 {
                assert(bytes_at(before, pos, bytes.len() - 1)[i] == bytes.drop_last()[i]);
            }
        }
    }
}

/// The byte in one lane of a cell.
pub fn lane(word: u32, index: usize) -> (byte: u8)
    requires
        index < 4,
    ensures
        byte == lane_of(word, index as int),
{
    let shifted: u32 = if index == 0 {
        word
    } else if index == 1 {
        word / 0x100
    } else if index == 2 {
        word / 0x1_0000
    } else {
        word / 0x100_0000
    };
    (shifted % 0x100) as u8
}

/// The cell with one lane replaced.
pub fn set_lane(word: u32, index: usize, byte: u8) -> (changed: u32)
    requires
        index < 4,
    ensures
        changed == with_lane(word, index as int, byte),
{
    proof {
        lemma_word_is_lanes(word);
        lemma_with_lane(word, index as int, byte);
        let b0 = lane_of(word, 0) as int;
        let b1 = lane_of(word, 1) as int;
        let b2 = lane_of(word, 2) as int;
        let b3 = lane_of(word, 3) as int;
        lemma_word_of(b0, b1, b2, b3);
        if index == 0 {
            lemma_word_of(byte as int, b1, b2, b3);
        } else if index == 1 {
            lemma_word_of(b0, byte as int, b2, b3);
        } else if index == 2 {
            lemma_word_of(b0, b1, byte as int, b3);
        } else {
            lemma_word_of(b0, b1, b2, byte as int);
        }
    }
    let fresh: u32 = byte as u32;
    if index == 0 {
        (word - word % 0x100) + fresh
    } else if index == 1 {
        (word - ((word / 0x100) % 0x100) * 0x100) + fresh * 0x100
    } else if index == 2 {
        (word - ((word / 0x1_0000) % 0x100) * 0x1_0000) + fresh * 0x1_0000
    } else {
        (word - ((word / 0x100_0000) % 0x100) * 0x100_0000) + fresh * 0x100_0000
    }
}

/// The byte at a position of the region.
pub fn get(cells: &Vec<u32>, pos: usize) -> (byte: u8)
    requires
        pos < cells.len() * U32SIZE,
    ensures
        byte == byte_at(cells@, pos as int),
{
    lane(cells[pos / U32SIZE], pos % U32SIZE)
}

/// Replaces the byte at a position of the region.
pub fn put(cells: &mut Vec<u32>, pos: usize, byte: u8)
    requires
        pos < old(cells).len() * U32SIZE,
    ensures
        final(cells)@ == put_byte(old(cells)@, pos as int, byte),
{
    let k: usize = pos / U32SIZE;
    let changed: u32 = set_lane(cells[k], pos % U32SIZE, byte);
    cells[k] = changed;
}

} // verus!
