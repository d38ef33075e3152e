use ringal::{Ringal, WriteError, MAXALLOC, MINALLOC, MINALLOCBYTES, U32SIZE};

const RING: usize = 1024;

fn message(len: usize) -> Vec<u8> {
    (0..len).map(|i| (i * 7 + 3) as u8).collect()
}

#[test]
fn new_ring_is_one_free_segment() {
    let ring = Ringal::new(RING);
    assert_eq!(ring.len(), 256);
    assert_eq!(ring.head(), 0);
    assert_eq!(ring.word(0), 255 << 1);
    assert!(ring.is_segment(0));
    assert!(!ring.is_segment(1));
    assert!(!ring.is_segment(256));
}

#[test]
fn new_ring_rounds_up_to_a_power_of_two() {
    assert_eq!(Ringal::new(37).len(), 16);
    assert_eq!(Ringal::new(64).len(), 16);
    assert_eq!(Ringal::new(65).len(), 32);
    assert_eq!(Ringal::new(1000).len(), 256);
    assert_eq!(Ringal::new(1025).len(), 512);
}

#[test]
fn basic_allocation_places_headers_nine_cells_apart() {
    let mut ring = Ringal::new(RING);
    let first = ring.allocate(32).unwrap();
    assert_eq!(first.capacity(&ring), 8);
    assert!(first.available(&ring));
    assert_eq!(first.index(), 0);
    assert_eq!(first.buffer(), 1);
    let second = ring.allocate(32).unwrap();
    assert_eq!(second.index(), first.index() + 9);
    assert_eq!(ring.head(), 18);
    assert_eq!(ring.word(18), (255 - 18) << 1);
}

#[test]
fn requests_round_up_to_whole_cells() {
    let mut ring = Ringal::new(RING);
    let header = ring.allocate(33).unwrap();
    assert_eq!(header.capacity(&ring), 9);
    let header = ring.allocate(36).unwrap();
    assert_eq!(header.capacity(&ring), 9);
    let header = ring.allocate(37).unwrap();
    assert_eq!(header.capacity(&ring), 10);
}

#[test]
fn requests_out_of_range_are_turned_down() {
    let mut ring = Ringal::new(RING);
    assert!(ring.allocate(0).is_none());
    assert!(ring.fixed(0).is_none());
    assert!(ring.writer(0).is_none());
    assert!(ring.allocate(MAXALLOC as usize * U32SIZE).is_none());
    assert!(ring.allocate(usize::MAX).is_none());
    assert_eq!(ring.head(), 0);
    assert_eq!(ring.word(0), 255 << 1);
}

#[test]
fn a_request_larger_than_the_ring_fails_and_changes_nothing() {
    let mut ring = Ringal::new(RING);
    assert!(ring.allocate(RING).is_none());
    assert!(ring.allocate(RING - U32SIZE + 1).is_none());
    assert_eq!(ring.head(), 0);
    assert_eq!(ring.word(0), 255 << 1);
    let whole = ring.allocate(RING - U32SIZE).unwrap();
    assert_eq!(whole.capacity(&ring), 255);
    assert_eq!(ring.head(), 0);
}

#[test]
fn a_small_rest_is_absorbed() {
    let mut ring = Ringal::new(RING);
    // 255 payload cells: a request for 247 leaves 8, which is no segment.
    let header = ring.allocate(247 * U32SIZE).unwrap();
    assert_eq!(header.capacity(&ring), 255);
    assert_eq!(ring.head(), 0);
}

#[test]
fn a_rest_of_nine_cells_becomes_a_segment() {
    let mut ring = Ringal::new(RING);
    let header = ring.allocate(246 * U32SIZE).unwrap();
    assert_eq!(header.capacity(&ring), 246);
    assert_eq!(ring.head(), 247);
    assert_eq!(ring.word(247), 8 << 1);
    assert!(ring.is_segment(247));
}

#[test]
fn small_fixed_buffer_has_its_own_length() {
    for min in 1..MINALLOCBYTES {
        let mut ring = Ringal::new(RING);
        let buffer = ring.fixed(min).unwrap();
        assert_eq!(buffer.len(), min);
        assert_eq!(ring.word(buffer.header()) >> 1, MINALLOC);
        assert_eq!(buffer.to_vec(&ring), vec![0u8; min]);
        assert_eq!(ring.head(), 9);
    }
}

#[test]
fn fixed_buffer_is_zeroed_and_busy() {
    let mut ring = Ringal::new(RING);
    let mut first = ring.fixed_uninit(40).unwrap();
    first.copy_from_slice(&mut ring, &message(40));
    assert_eq!(first.to_vec(&ring), message(40));
    let header = first.header();
    first.release(&mut ring);
    assert_eq!(ring.word(header) & 1, 0);
    // wrap around to the same cells
    let filler = ring.fixed_uninit((255 - 11 - 1) * U32SIZE).unwrap();
    assert_eq!(ring.head(), 0);
    let again = ring.fixed(40).unwrap();
    assert_eq!(again.header(), header);
    assert_eq!(ring.word(header) & 1, 1);
    assert_eq!(again.to_vec(&ring), vec![0u8; 40]);
    assert!(ring.owns_mut(&again));
    assert!(ring.owns_mut(&filler));
}

#[test]
fn fixed_uninit_keeps_what_the_cells_held() {
    let mut ring = Ringal::new(RING);
    let mut first = ring.fixed_uninit(40).unwrap();
    assert!(!first.is_written());
    first.copy_from_slice(&mut ring, &message(40));
    assert!(first.is_written());
    let cells: Vec<u32> = (1..11).map(|i| ring.word(i)).collect();
    first.release(&mut ring);
    let filler = ring.fixed_uninit((255 - 11 - 1) * U32SIZE).unwrap();
    let again = ring.fixed_uninit(40).unwrap();
    assert_eq!(again.header(), 0);
    assert!(!again.is_written());
    assert_eq!((1..11).map(|i| ring.word(i)).collect::<Vec<u32>>(), cells);
    assert!(ring.owns_mut(&filler));
}

#[test]
fn single_bytes_are_read_and_written() {
    let mut ring = Ringal::new(RING);
    let mut buffer = ring.fixed(9).unwrap();
    assert!(buffer.is_written());
    buffer.set(&mut ring, 0, 0xaa);
    buffer.set(&mut ring, 5, 0xbb);
    buffer.set(&mut ring, 8, 0xcc);
    assert_eq!(buffer.to_vec(&ring), [0xaa, 0, 0, 0, 0, 0xbb, 0, 0, 0xcc]);
    assert_eq!(buffer.get(&ring, 5), 0xbb);
    assert_eq!(buffer.get(&ring, 6), 0);
    assert_eq!(ring.word(buffer.header() + 2), 0x0000_bb00);
    let shared = buffer.freeze(&mut ring);
    assert!(shared.is_written());
    assert_eq!(shared.get(&ring, 8), 0xcc);
    assert_eq!(shared.get(&ring, 0), 0xaa);
}

#[test]
fn init_fills_with_zeros() {
    let mut ring = Ringal::new(RING);
    let mut buffer = ring.fixed_uninit(33).unwrap();
    buffer.copy_from_slice(&mut ring, &message(33));
    buffer.init(&mut ring);
    assert_eq!(buffer.to_vec(&ring), vec![0u8; 33]);
}

#[test]
fn bytes_lie_in_cells_lowest_lane_first() {
    let mut ring = Ringal::new(RING);
    let mut buffer = ring.fixed(6).unwrap();
    buffer.copy_from_slice(&mut ring, &[0x11, 0x22, 0x33, 0x44, 0x55, 0x66]);
    assert_eq!(ring.word(buffer.header() + 1), 0x4433_2211);
    assert_eq!(ring.word(buffer.header() + 2), 0x0000_6655);
}

#[test]
fn writer_grows_for_a_long_message() {
    let mut ring = Ringal::new(RING);
    let text = message(147);
    let mut writer = ring.writer(32).unwrap();
    assert_eq!(writer.capacity, 32);
    assert_eq!(writer.write(&text), Ok(147));
    assert_eq!(writer.initialized, 147);
    assert_eq!(writer.capacity, 148);
    assert_eq!(writer.flush(), Ok(()));
    let buffer = writer.finish();
    assert_eq!(buffer.len(), 147);
    assert_eq!(buffer.to_vec(&ring), text);
    assert_eq!(ring.word(buffer.header()), (37 << 1) | 1);
    let next = ring.allocate(32).unwrap();
    // the next header follows the last byte, rounded up to a cell
    assert_eq!(next.index() * U32SIZE, (buffer.header() + 1) * U32SIZE + 148);
    assert_eq!(next.index(), 38);
}

#[test]
fn writer_takes_several_writes() {
    let mut ring = Ringal::new(RING);
    let text = message(300);
    let mut writer = ring.writer(32).unwrap();
    assert_eq!(writer.write(&text[..10]), Ok(10));
    assert_eq!(writer.write(&text[10..40]), Ok(30));
    assert_eq!(writer.write(&[]), Ok(0));
    assert_eq!(writer.write(&text[40..]), Ok(260));
    let buffer = writer.finish();
    assert_eq!(buffer.to_vec(&ring), text);
}

#[test]
fn a_write_that_fills_the_segment_extends_nothing() {
    let mut ring = Ringal::new(RING);
    let mut writer = ring.writer(32).unwrap();
    assert_eq!(writer.write(&message(32)), Ok(32));
    assert_eq!(writer.capacity, 32);
    assert_eq!(writer.initialized, 32);
    let buffer = writer.finish();
    assert_eq!(ring.word(buffer.header()), (8 << 1) | 1);
    assert_eq!(ring.head(), 9);
    assert_eq!(ring.word(9), 246 << 1);
}

#[test]
fn one_byte_more_than_the_segment_extends_by_the_smallest_payload() {
    let mut ring = Ringal::new(RING);
    let mut writer = ring.writer(32).unwrap();
    assert_eq!(writer.write(&message(33)), Ok(33));
    // 8 cells, the header between, and the 8 cells that 32 - 4 bytes round up to
    assert_eq!(writer.capacity, (8 + 1 + 8) * U32SIZE);
    let buffer = writer.finish();
    assert_eq!(buffer.to_vec(&ring), message(33));
    assert_eq!(ring.head(), 18);
}

#[test]
fn writer_fails_when_the_ring_is_full() {
    let mut ring = Ringal::new(RING);
    let mut writer = ring.writer(32).unwrap();
    assert_eq!(writer.write(&message(20)), Ok(20));
    assert_eq!(writer.write(&message(RING)), Err(WriteError::RingFull));
    assert_eq!(writer.initialized, 20);
    assert_eq!(writer.capacity, 32);
    let buffer = writer.finish();
    assert_eq!(buffer.to_vec(&ring), message(20));
    assert_eq!(ring.head(), 9);
}

#[test]
fn writer_fills_the_whole_ring() {
    let mut ring = Ringal::new(RING);
    let text = message(RING - U32SIZE);
    let mut writer = ring.writer(32).unwrap();
    assert_eq!(writer.write(&text), Ok(RING - U32SIZE));
    let buffer = writer.finish().freeze(&mut ring);
    assert_eq!(buffer.to_vec(&ring), text);
    assert_eq!(ring.word(0), (255 << 1) | 1);
    assert_eq!(ring.head(), 0);
}

#[test]
fn writer_does_not_grow_across_the_end_of_the_ring() {
    let mut ring = Ringal::new(RING);
    let front = ring.fixed(32).unwrap();
    let back = ring.fixed((255 - 9 - 9) * U32SIZE).unwrap();
    front.release(&mut ring);
    // the writer's segment is the last of the ring; the head is at the first cell
    let mut writer = ring.writer(32).unwrap();
    assert_eq!(writer.header.index(), 247);
    assert_eq!(writer.write(&message(33)), Err(WriteError::RingFull));
    assert_eq!(writer.write(&message(32)), Ok(32));
    let buffer = writer.finish();
    assert_eq!(ring.head(), 0);
    assert_eq!(ring.word(0), 8 << 1);
    assert!(ring.owns_mut(&back));
    assert!(ring.owns_mut(&buffer));
}

#[test]
fn a_writer_that_is_given_up_leaves_its_segment_free() {
    let mut ring = Ringal::new(RING);
    {
        let mut writer = ring.writer(64).unwrap();
        assert_eq!(writer.write(&message(10)), Ok(10));
    }
    assert_eq!(ring.word(0), 16 << 1);
    assert_eq!(ring.head(), 17);
}

#[test]
fn extend_grows_in_place() {
    let mut ring = Ringal::new(RING);
    let header = ring.allocate(32).unwrap();
    assert_eq!(ring.extend(&header, 64), Ok(()));
    // 64 - 4 bytes are 15 cells, and the header between
    assert_eq!(header.capacity(&ring), 8 + 1 + 15);
    assert_eq!(ring.head(), 25);
    assert_eq!(ring.extend(&header, U32SIZE), Err(WriteError::RingFull));
    assert_eq!(ring.extend(&header, RING), Err(WriteError::RingFull));
    assert_eq!(header.capacity(&ring), 24);
}

#[test]
fn extend_fails_when_the_head_has_moved_on() {
    let mut ring = Ringal::new(RING);
    let first = ring.allocate(32).unwrap();
    let _second = ring.allocate(32).unwrap();
    assert_eq!(ring.extend(&first, 32), Err(WriteError::RingFull));
    assert_eq!(first.capacity(&ring), 8);
    assert_eq!(ring.head(), 18);
}

#[test]
fn extend_fails_against_a_busy_neighbour() {
    let mut ring = Ringal::new(RING);
    let front = ring.fixed(32).unwrap();
    let middle = ring.fixed(32).unwrap();
    let _back = ring.fixed((255 - 18 - 1) * U32SIZE).unwrap();
    assert_eq!(ring.head(), 0);
    front.release(&mut ring);
    let header = ring.allocate(32).unwrap();
    assert_eq!(header.index(), 0);
    assert_eq!(ring.extend(&header, 32), Err(WriteError::RingFull));
    middle.release(&mut ring);
    assert_eq!(ring.extend(&header, 32), Ok(()));
    assert_eq!(header.capacity(&ring), 17);
}

#[test]
fn error_messages() {
    assert_eq!(WriteError::RingFull.message(), "ring buffer is full");
    assert_eq!(WriteError::MaxExceeded.message(), "max allocation size reached");
}

#[test]
fn jam_and_release() {
    let mut ring = Ringal::new(RING);
    let a = ring.fixed(504).unwrap();
    let b = ring.fixed(504).unwrap();
    assert_eq!(a.header(), 0);
    assert_eq!(b.header(), 127);
    assert_eq!(ring.word(127), (128 << 1) | 1);
    assert!(ring.fixed(32).is_none());
    a.release(&mut ring);
    let c = ring.fixed(32).unwrap();
    assert_eq!(c.header(), 0);
    assert_eq!(ring.word(9), 117 << 1);
    assert!(ring.owns_mut(&b));
}

#[test]
fn a_busy_segment_in_the_way_blocks_whatever_is_free_elsewhere() {
    let mut ring = Ringal::new(RING);
    let a = ring.fixed(504).unwrap();
    let b = ring.fixed(504).unwrap();
    b.release(&mut ring);
    // half the ring is free, but the head stands at the busy half
    assert!(ring.fixed(32).is_none());
    assert!(ring.owns_mut(&a));
}

#[test]
fn exhaustion_and_reuse() {
    let mut ring = Ringal::new(RING);
    let mut buffers = Vec::new();
    while let Some(buffer) = ring.fixed(32) {
        buffers.push(buffer);
    }
    assert_eq!(buffers.len(), 28);
    assert!(ring.fixed(32).is_none());
    let oldest = buffers.remove(0);
    oldest.release(&mut ring);
    let again = ring.fixed(32).unwrap();
    assert_eq!(again.header(), 0);
    assert!(ring.fixed(32).is_none());
}

#[test]
fn continuous_reuse_wraps_without_losing_cells() {
    let mut ring = Ringal::new(RING);
    let rounds = RING / (MINALLOCBYTES + U32SIZE) * 10;
    let mut previous = ring.fixed(MINALLOCBYTES).unwrap();
    let mut wraps = 0;
    for _ in 0..rounds {
        let next = ring.fixed(MINALLOCBYTES).unwrap();
        if next.header() < previous.header() {
            wraps += 1;
        }
        previous.release(&mut ring);
        previous = next;
    }
    assert!(wraps >= 9);
    // the segments still take up the whole ring
    let mut at = 0;
    let mut cells = 0;
    while at < ring.len() {
        assert!(ring.is_segment(at));
        let capacity = (ring.word(at) >> 1) as usize;
        cells += 1 + capacity;
        at += 1 + capacity;
    }
    assert_eq!(cells, ring.len());
}

#[test]
fn a_scan_that_comes_full_circle_finds_nothing() {
    let mut ring = Ringal::new(RING);
    let small = ring.fixed(32).unwrap();
    assert!(ring.fixed(RING - 32).is_none());
    small.release(&mut ring);
    // 8 free cells before the head and 246 behind it: no run holds 248
    assert_eq!(ring.head(), 9);
    assert!(ring.fixed(RING - 32).is_none());
    assert_eq!(ring.head(), 9);
    assert_eq!(ring.word(0), 8 << 1);
    assert_eq!(ring.word(9), 246 << 1);
    // once the head has come round, the two runs are one
    ring.fixed(246 * U32SIZE).unwrap().release(&mut ring);
    assert_eq!(ring.head(), 0);
    let large = ring.fixed(RING - 32).unwrap();
    assert_eq!(large.header(), 0);
    assert_eq!(ring.word(0), (255 << 1) | 1);
    assert_eq!(ring.head(), 0);
}

#[test]
fn starting_over_joins_the_free_segments_at_the_end() {
    let mut ring = Ringal::new(RING);
    let a = ring.fixed(100).unwrap();
    let b = ring.fixed(832).unwrap();
    let c = ring.fixed(32).unwrap();
    let d = ring.fixed(44).unwrap();
    assert_eq!((a.header(), b.header(), c.header(), d.header()), (0, 26, 235, 244));
    assert_eq!(ring.head(), 0);
    a.release(&mut ring);
    let a = ring.fixed(100).unwrap();
    b.release(&mut ring);
    let b = ring.fixed(832).unwrap();
    assert_eq!(ring.head(), 235);
    a.release(&mut ring);
    c.release(&mut ring);
    d.release(&mut ring);
    assert_eq!(ring.word(235), 8 << 1);
    assert_eq!(ring.word(244), 11 << 1);
    // 20 cells are free behind the head, 25 at the first cell
    let e = ring.fixed(84).unwrap();
    assert_eq!(e.header(), 0);
    assert_eq!(ring.word(0), (25 << 1) | 1);
    assert_eq!(ring.head(), 26);
    assert_eq!(ring.word(235), 20 << 1);
    assert!(ring.owns_mut(&b));
}

#[test]
fn a_scan_that_starts_over_is_blocked_by_a_busy_segment() {
    let mut ring = Ringal::new(RING);
    let a = ring.fixed(32).unwrap();
    let b = ring.fixed(32).unwrap();
    a.release(&mut ring);
    assert_eq!(ring.head(), 18);
    // 237 cells are free behind the head; the first eight lie before a busy segment
    assert!(ring.fixed(238 * U32SIZE).is_none());
    assert_eq!(ring.word(18), 237 << 1);
    assert!(ring.fixed(237 * U32SIZE).is_some());
    assert!(ring.owns_mut(&b));
}

#[test]
fn a_scan_from_the_first_cell_does_not_start_over() {
    let mut ring = Ringal::new(RING);
    let a = ring.fixed(504).unwrap();
    let b = ring.fixed(504).unwrap();
    a.release(&mut ring);
    b.release(&mut ring);
    assert_eq!(ring.head(), 0);
    // both halves are free; together they hold 255 cells
    assert!(ring.allocate(RING).is_none());
    assert_eq!(ring.word(0), 126 << 1);
    assert_eq!(ring.word(127), 128 << 1);
    let whole = ring.allocate(RING - U32SIZE).unwrap();
    assert_eq!(whole.capacity(&ring), 255);
}

#[test]
fn a_released_buffer_behind_a_busy_one_is_out_of_reach() {
    let mut ring = Ringal::new(RING);
    let _first = ring.fixed(100).unwrap();
    let second = ring.fixed(200).unwrap();
    let header = second.header();
    second.release(&mut ring);
    // the head stands behind the released segment: the scan starts over
    let filler = ring.fixed((255 - 77 - 1) * U32SIZE).unwrap();
    assert_eq!(ring.head(), 0);
    assert!(ring.fixed(200).is_none());
    filler.release(&mut ring);
    let again = ring.fixed_uninit(200);
    assert!(again.is_none());
    assert!(ring.is_segment(header));
}

#[test]
fn a_lone_released_buffer_fits_again() {
    for lead in [0usize, 40, 400, 900] {
        for size in [1usize, 31, 32, 33, 100, 504, 980, 1000, 1020] {
            let mut ring = Ringal::new(RING);
            if lead > 0 {
                ring.fixed(lead).unwrap().release(&mut ring);
            }
            if let Some(buffer) = ring.fixed(size) {
                buffer.release(&mut ring);
                let again = ring.fixed(size).unwrap();
                assert_eq!(again.len(), size);
                assert!(ring.owns_mut(&again));
            } else {
                // only a request that no run of the ring holds is turned down
                assert!(lead > 0 && size > RING - lead - 2 * U32SIZE);
            }
        }
    }
}

#[test]
fn a_writer_knows_whether_its_segment_is_sound() {
    let mut ring = Ringal::new(RING);
    let mut writer = ring.writer(32).unwrap();
    assert!(writer.is_valid());
    assert_eq!(writer.write(&message(40)), Ok(40));
    assert!(writer.is_valid());
    writer.capacity += 1;
    assert!(!writer.is_valid());
    writer.capacity -= 1;
    writer.initialized = writer.capacity + 1;
    assert!(!writer.is_valid());
    writer.initialized = 40;
    assert!(writer.is_valid());
    let buffer = writer.finish();
    assert_eq!(buffer.to_vec(&ring), message(40));
}
