use ringal::{Buffer, Ringal};

const RING: usize = 1024;
const TESTMSG: &[u8] = b"TEST MESSAGE 32 BYTES LONG EXACT";

#[test]
fn freeze_keeps_the_bytes_and_the_busy_bit() {
    let mut ring = Ringal::new(RING);
    let mut buffer = ring.fixed(TESTMSG.len()).unwrap();
    buffer.copy_from_slice(&mut ring, TESTMSG);
    let header = buffer.header();
    let before = ring.word(header);
    let shared = buffer.freeze(&mut ring);
    assert_eq!(ring.word(header), before);
    assert_eq!(shared.to_vec(&ring), TESTMSG);
    assert_eq!(shared.len(), TESTMSG.len());
    assert_eq!(shared.header(), header);
    assert_eq!(ring.holders(&shared), 1);
    assert!(ring.owns(&shared));
}

#[test]
fn freeze_then_release_frees_the_segment_once() {
    let mut ring = Ringal::new(RING);
    let buffer = ring.fixed(32).unwrap();
    let shared = buffer.freeze(&mut ring);
    let slot = shared.slot();
    assert_eq!(ring.word(0) & 1, 1);
    assert!(shared.release(&mut ring));
    assert_eq!(ring.word(0), 8 << 1);
    // the reference count is given back and used again
    let other = ring.fixed(32).unwrap().freeze(&mut ring);
    assert_eq!(other.slot(), slot);
    assert_eq!(ring.holders(&other), 1);
}

#[test]
fn the_last_of_eight_holders_frees_the_segment() {
    let mut ring = Ringal::new(RING);
    let mut buffer = ring.fixed(RING - 4).unwrap();
    let text: Vec<u8> = (0..RING - 4).map(|i| i as u8).collect();
    buffer.copy_from_slice(&mut ring, &text);
    let first = buffer.freeze(&mut ring);
    let mut holders: Vec<Buffer> = Vec::new();
    for _ in 0..7 {
        holders.push(first.share(&mut ring));
    }
    holders.insert(3, first);
    assert_eq!(ring.holders(&holders[0]), 8);
    // let go in an order that is not the order of taking
    for index in [5usize, 0, 3, 1, 2, 1, 0] {
        let holder = holders.remove(index);
        assert_eq!(holder.to_vec(&ring), text);
        assert!(!holder.release(&mut ring));
        assert_eq!(ring.word(0) & 1, 1);
        assert!(ring.fixed(RING - 4).is_none());
    }
    let last = holders.pop().unwrap();
    assert!(holders.is_empty());
    assert_eq!(ring.holders(&last), 1);
    assert!(last.release(&mut ring));
    assert_eq!(ring.word(0) & 1, 0);
    assert!(ring.fixed(RING - 4).is_some());
}

#[test]
fn sixty_four_holders_read_and_let_go() {
    let mut ring = Ringal::new(RING);
    let mut buffer = ring.fixed(TESTMSG.len()).unwrap();
    buffer.copy_from_slice(&mut ring, TESTMSG);
    let buffer = buffer.freeze(&mut ring);
    let clones = 64;
    let mut handles = Vec::with_capacity(clones);
    for _ in 0..clones {
        handles.push(buffer.share(&mut ring));
    }
    assert_eq!(ring.holders(&buffer), 65);
    for handle in handles.iter() {
        assert_eq!(handle.to_vec(&ring), TESTMSG);
    }
    assert!(ring.fixed(RING - TESTMSG.len()).is_none());
    for handle in handles {
        assert!(!handle.release(&mut ring));
    }
    assert!(ring.fixed(RING - TESTMSG.len()).is_none());
    assert!(buffer.release(&mut ring));
    // every cell is free, in one run before the head and one behind it
    assert!(ring.fixed(RING - TESTMSG.len()).is_none());
    assert!(ring.fixed(RING / TESTMSG.len()).is_some());
}

#[test]
fn buffers_given_up_in_any_order_free_the_ring() {
    let mut ring = Ringal::new(RING);
    let iterations = RING / (32 + 4);
    let mut buffers = Vec::with_capacity(iterations);
    for _ in 0..iterations {
        let mut buffer = ring.fixed(32).unwrap();
        buffer.copy_from_slice(&mut ring, TESTMSG);
        assert_eq!(buffer.to_vec(&ring), TESTMSG);
        buffers.push(buffer);
    }
    assert!(ring.fixed(RING - TESTMSG.len()).is_none());
    while !buffers.is_empty() {
        let index = (buffers.len() * 5 + 3) % buffers.len();
        buffers.swap_remove(index).release(&mut ring);
    }
    assert!(ring.fixed(RING / TESTMSG.len()).is_some());
}

#[test]
fn two_shared_buffers_have_counts_of_their_own() {
    let mut ring = Ringal::new(RING);
    let a = ring.fixed(32).unwrap().freeze(&mut ring);
    let b = ring.fixed(32).unwrap().freeze(&mut ring);
    assert_ne!(a.slot(), b.slot());
    let a2 = a.share(&mut ring);
    assert_eq!(ring.holders(&a), 2);
    assert_eq!(ring.holders(&b), 1);
    assert!(b.release(&mut ring));
    assert_eq!(ring.word(9) & 1, 0);
    assert_eq!(ring.word(0) & 1, 1);
    assert!(!a.release(&mut ring));
    assert!(ring.owns(&a2));
    assert!(a2.release(&mut ring));
    assert_eq!(ring.word(0) & 1, 0);
}

#[test]
fn the_ring_knows_its_buffers() {
    let mut ring = Ringal::new(RING);
    let mut other = Ringal::new(RING);
    let buffer = ring.fixed(64).unwrap();
    assert!(ring.owns_mut(&buffer));
    assert!(!other.owns_mut(&buffer));
    let shared = buffer.freeze(&mut ring);
    assert!(ring.owns(&shared));
    assert!(!other.owns(&shared));
    let foreign = other.fixed(32).unwrap();
    assert!(!ring.owns_mut(&foreign));
    let clone = shared.share(&mut ring);
    assert!(!shared.release(&mut ring));
    assert!(clone.release(&mut ring));
    let stale = ring.fixed(64).unwrap();
    assert!(ring.owns_mut(&stale));
}

#[test]
fn round_trip_of_every_length() {
    for len in [0usize, 1, 3, 4, 5, 31, 32, 33, 63, 64, 65, 147, 500, 1019, 1020] {
        let mut ring = Ringal::new(RING);
        let text: Vec<u8> = (0..len).map(|i| (i * 31 + 7) as u8).collect();
        let mut writer = ring.writer(32).unwrap();
        assert_eq!(writer.write(&text), Ok(len));
        let shared = writer.finish().freeze(&mut ring);
        assert_eq!(shared.to_vec(&ring), text);
    }
}
