//! The pipeline end to end: writes, drain, rotating store.

use logpipe::buffer::WriteError;
use logpipe::config::Config;
use logpipe::pipeline::LogPipeline;

fn config(buffer_capacity: usize, max_files: usize, max_file_size: usize) -> Config {
    Config {
        file_path: String::from("mtorrent.log"),
        max_files,
        max_file_size,
        buffer_capacity,
    }
}

#[test]
fn config_validity() {
    // The buffer must be larger than the 48-byte overflow notice, and both
    // rotation bounds at least one.
    assert!(config(64, 3, 8).is_valid());
    assert!(!config(48, 3, 8).is_valid());
    assert!(!config(64, 0, 8).is_valid());
    assert!(!config(64, 3, 0).is_valid());
}

#[test]
fn writes_then_drain_persist_their_concatenation() {
    // Writes issued while the writer is paused, total within the buffer
    // capacity: the drain persists exactly their concatenation in call order.
    let mut pipeline = LogPipeline::new(&config(64, 2, 16));
    assert_eq!(pipeline.write(b"alpha"), Ok(5));
    assert_eq!(pipeline.write(b"beta"), Ok(4));
    assert_eq!(pipeline.write(b"gamma"), Ok(5));
    assert_eq!(pipeline.buffer_len(), 14);
    pipeline.drain();
    assert_eq!(pipeline.buffer_len(), 0);
    assert_eq!(pipeline.store().archive_count(), 0);
    assert_eq!(pipeline.store().active().as_slice(), b"alphabetagamma");
    assert_eq!(pipeline.store().persisted_bytes(), b"alphabetagamma".to_vec());
}

#[test]
fn drains_accumulate_in_order() {
    let mut pipeline = LogPipeline::new(&config(64, 4, 32));
    assert_eq!(pipeline.write(b"first "), Ok(6));
    pipeline.drain();
    assert_eq!(pipeline.write(b"second"), Ok(6));
    pipeline.drain();
    assert_eq!(pipeline.store().active().as_slice(), b"first second");
}

#[test]
fn draining_an_empty_buffer_changes_nothing() {
    let mut pipeline = LogPipeline::new(&config(64, 3, 8));
    assert_eq!(pipeline.write(b"abc"), Ok(3));
    pipeline.drain();
    pipeline.drain();
    let store = pipeline.store();
    assert_eq!(store.archive_count(), 0);
    assert_eq!(store.active().as_slice(), b"abc");
}

#[test]
fn rotation_through_the_writer() {
    // One byte more than max_file_size through the writer: exactly two
    // files, the older with the first max_file_size bytes, the newer with
    // the remainder.
    let mut pipeline = LogPipeline::new(&config(64, 3, 8));
    assert_eq!(pipeline.write(b"12345678X"), Ok(9));
    pipeline.drain();
    let store = pipeline.store();
    assert_eq!(store.archive_count(), 1);
    assert_eq!(store.archived(0).as_slice(), b"12345678");
    assert_eq!(store.active().as_slice(), b"X");
    // The split does not reorder anything: the persisted stream is intact.
    assert_eq!(store.persisted_bytes(), b"12345678X".to_vec());
}

#[test]
fn retention_through_the_writer() {
    // max_files + 2 rotations: exactly max_files archives remain, the two
    // oldest deleted.
    let mut pipeline = LogPipeline::new(&config(64, 2, 4));
    for chunk in [&b"1111"[..], b"2222", b"3333", b"4444", b"x"] {
        assert_eq!(pipeline.write(chunk), Ok(chunk.len()));
        pipeline.drain();
    }
    let store = pipeline.store();
    assert_eq!(store.archive_count(), 2);
    assert_eq!(store.archived(0).as_slice(), b"4444");
    assert_eq!(store.archived(1).as_slice(), b"3333");
    assert_eq!(store.active().as_slice(), b"x");
    // The deleted generations are gone from the persisted stream.
    assert_eq!(store.persisted_bytes(), b"33334444x".to_vec());
}

#[test]
fn queue_full_reaches_the_persisted_stream() {
    let mut pipeline = LogPipeline::new(&config(64, 3, 256));
    assert_eq!(pipeline.write(&[b'a'; 200]), Ok(64));
    assert_eq!(pipeline.write(b"lost"), Err(WriteError::QueueFull));
    assert_eq!(pipeline.flush(), Ok(()));
    pipeline.drain();
    let store = pipeline.store();
    assert_eq!(store.archive_count(), 0);
    let active = store.active();
    assert_eq!(active.len(), 64);
    assert_eq!(&active[..16], &[b'a'; 16]);
    assert_eq!(
        &active[16..],
        &b"\nERROR: logger queue is full, dropping messages\n"[..]
    );
}
