use std::collections::VecDeque;

use ringal::{Ringal, MINALLOCBYTES, U32SIZE};

const BUFSIZE: usize = 1024;
const CHUNKSIZE: usize = MINALLOCBYTES;
const TESTMSG: &[u8] = b"TEST MESSAGE 32 BYTES LONG EXACT";
const LONGMSG: &[u8] = b"THIS IS A VERY LONG MESSAGE! THIS IS A VERY LONG MESSAGE! \
                       THIS IS A VERY LONG MESSAGE! THIS IS A VERY LONG MESSAGE! \
                       THIS IS A VERY LONG MESSAGE!";
const LONGMSGLEN: usize = LONGMSG.len();

#[test]
fn tests_test_alloc() {
    let mut ringal = Ringal::new(BUFSIZE);
    let header1 = ringal.allocate(CHUNKSIZE).unwrap();
    assert!(header1.available(&ringal));
    assert_eq!(header1.capacity(&ringal), (CHUNKSIZE / U32SIZE) as u32);
    let header2 = ringal.allocate(CHUNKSIZE).unwrap();
    assert_eq!(header2.index(), header1.index() + CHUNKSIZE / U32SIZE + 1);
}

#[test]
fn tests_test_writer() {
    let mut ringal = Ringal::new(BUFSIZE);

    let mut buffer = ringal.writer(CHUNKSIZE).unwrap();
    assert!(buffer.write(TESTMSG).is_ok());
    let buffer = buffer.finish();
    assert_eq!(buffer.to_vec(&ringal), TESTMSG);
    let buffer = buffer.freeze(&mut ringal);
    assert_eq!(buffer.to_vec(&ringal), TESTMSG);
}

#[test]
fn tests_test_extendable_writer() {
    let mut ringal = Ringal::new(BUFSIZE);

    let mut buffer = ringal.writer(CHUNKSIZE).unwrap();
    let result = buffer.write(LONGMSG);
    assert!(result.is_ok());
    let buffer = buffer.finish();
    assert_eq!(buffer.to_vec(&ringal), LONGMSG);
    let header = ringal.allocate(CHUNKSIZE).unwrap();
    let offset = (buffer.header() + 1) * U32SIZE + LONGMSGLEN;
    assert_eq!(offset, header.index() * U32SIZE);
}

#[test]
fn tests_test_alloc_fail() {
    let mut ringal = Ringal::new(BUFSIZE);
    let count = BUFSIZE / (CHUNKSIZE + U32SIZE);
    let mut buffers = Vec::with_capacity(count);
    for _ in 0..count {
        let buffer = ringal.fixed(CHUNKSIZE).unwrap();
        buffers.push(buffer);
    }
    let buffer = ringal.allocate(CHUNKSIZE);
    assert!(buffer.is_none());
}

#[test]
fn tests_test_realloc() {
    let mut ringal = Ringal::new(BUFSIZE);
    let buffer1 = ringal.fixed(BUFSIZE / 2 - U32SIZE * 2).unwrap();
    let _buffer2 = ringal.fixed(BUFSIZE / 2 - U32SIZE * 2).unwrap();
    assert!(ringal.allocate(CHUNKSIZE).is_none());
    buffer1.release(&mut ringal);
    assert!(ringal.allocate(CHUNKSIZE).is_some());
}

#[test]
fn tests_test_continuous_realloc() {
    let mut ringal = Ringal::new(BUFSIZE);
    let iterations = BUFSIZE / (CHUNKSIZE + U32SIZE) * 10;
    let mut buffers = VecDeque::with_capacity(2);
    buffers.push_back(ringal.fixed(MINALLOCBYTES).unwrap());
    for i in MINALLOCBYTES..MINALLOCBYTES * 2 {
        for _ in 0..iterations {
            buffers.push_back(ringal.fixed(i).unwrap());
            buffers.pop_front().unwrap().release(&mut ringal);
        }
    }
}

#[test]
fn test_buffer_drop() {
    let mut ringal = Ringal::new(BUFSIZE);
    let mut buffer = ringal.fixed(TESTMSG.len()).unwrap();
    buffer.copy_from_slice(&mut ringal, TESTMSG);
    assert_eq!(buffer.to_vec(&ringal), TESTMSG);
    assert!(ringal.fixed(BUFSIZE - TESTMSG.len()).is_none());
    buffer.release(&mut ringal);
    // The head stands behind the released segment, and a scan that starts
    // over ends where it meets the head: the head has to come round first.
    let rest = BUFSIZE - TESTMSG.len() - 2 * U32SIZE;
    ringal.fixed(rest).unwrap().release(&mut ringal);
    let buffer = ringal.fixed(BUFSIZE - TESTMSG.len()).unwrap();
    let buffer = buffer.freeze(&mut ringal);
    assert!(ringal.fixed(BUFSIZE - TESTMSG.len()).is_none());
    buffer.release(&mut ringal);
    assert!(ringal.fixed(BUFSIZE - TESTMSG.len()).is_some());
}
