//! The sink's write policy on the bounded buffer.

use logpipe::buffer::{LogBuffer, WriteError};
use logpipe::notice::overflow_notice_bytes;

const NOTICE: &[u8] = b"\nERROR: logger queue is full, dropping messages\n";

#[test]
fn notice_text_is_exact() {
    let bytes = overflow_notice_bytes();
    assert_eq!(bytes.len(), 48);
    assert_eq!(bytes.as_slice(), NOTICE);
}

#[test]
fn accepts_a_write_within_capacity() {
    let mut buf = LogBuffer::new(64);
    assert_eq!(buf.write(b"hello"), Ok(5));
    assert_eq!(buf.len(), 5);
    assert_eq!(buf.capacity(), 64);
}

#[test]
fn empty_write_is_accepted_as_zero() {
    let mut buf = LogBuffer::new(64);
    assert_eq!(buf.write(b""), Ok(0));
    assert_eq!(buf.len(), 0);
}

#[test]
fn short_write_accepts_exactly_the_remaining_capacity() {
    let mut buf = LogBuffer::new(64);
    assert_eq!(buf.write(&[7u8; 60]), Ok(60));
    // 4 bytes remain; a 10-byte write is truncated to them.
    assert_eq!(buf.write(&[8u8; 10]), Ok(4));
    assert_eq!(buf.len(), 64);
}

#[test]
fn full_buffer_reports_queue_full_and_stamps_the_notice() {
    let mut buf = LogBuffer::new(64);
    assert_eq!(buf.write(&[b'x'; 64]), Ok(64));
    assert_eq!(buf.write(b"more"), Err(WriteError::QueueFull));
    // Nothing was appended; the tail now carries the notice.
    assert_eq!(buf.len(), 64);
    let mut scratch = Vec::new();
    buf.swap_contents(&mut scratch);
    assert_eq!(&scratch[..16], &[b'x'; 16]);
    assert_eq!(&scratch[16..], NOTICE);
}

#[test]
fn full_buffer_rejects_even_an_empty_write() {
    let mut buf = LogBuffer::new(64);
    assert_eq!(buf.write(&[b'x'; 64]), Ok(64));
    assert_eq!(buf.write(b""), Err(WriteError::QueueFull));
    assert_eq!(buf.len(), 64);
}

#[test]
fn capacity_sixty_four_scenario() {
    // Capacity 64 bytes, notice 48 bytes: one write of 100 bytes from empty
    // is accepted as a 64-byte short write; any further write reports the
    // queue full and the last 48 bytes of the buffer equal the notice text.
    let mut buf = LogBuffer::new(64);
    assert_eq!(buf.write(&[b'a'; 100]), Ok(64));
    assert_eq!(buf.write(&[b'b'; 3]), Err(WriteError::QueueFull));
    assert_eq!(buf.len(), 64);
    let mut scratch = Vec::new();
    buf.swap_contents(&mut scratch);
    assert_eq!(scratch.len(), 64);
    assert_eq!(&scratch[..16], &[b'a'; 16]);
    assert_eq!(&scratch[16..], NOTICE);
}

#[test]
fn length_never_exceeds_capacity() {
    let mut buf = LogBuffer::new(70);
    let sizes = [3usize, 40, 17, 0, 100, 5, 1, 64, 2];
    for &n in sizes.iter() {
        let _ = buf.write(&vec![b'z'; n]);
        assert!(buf.len() <= buf.capacity());
    }
}

#[test]
fn flush_is_a_noop_acknowledgment() {
    let buf = LogBuffer::new(64);
    assert_eq!(buf.flush(), Ok(()));
}

#[test]
fn swap_takes_everything_and_leaves_the_buffer_empty() {
    let mut buf = LogBuffer::new(64);
    assert_eq!(buf.write(b"abcdef"), Ok(6));
    let mut scratch = Vec::new();
    buf.swap_contents(&mut scratch);
    assert_eq!(scratch, b"abcdef".to_vec());
    assert!(buf.is_empty());
    // The buffer keeps working after the swap.
    assert_eq!(buf.write(b"gh"), Ok(2));
    assert_eq!(buf.len(), 2);
}
