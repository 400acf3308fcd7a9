//! The rotating store: size-bounded files, count-bounded archives.

use logpipe::rotation::RotatingStore;

#[test]
fn fills_the_active_file_without_rotating() {
    let mut store = RotatingStore::new(3, 8);
    store.append(b"hello");
    assert_eq!(store.archive_count(), 0);
    assert_eq!(store.active().as_slice(), b"hello");
}

#[test]
fn an_exact_fill_does_not_rotate_yet() {
    let mut store = RotatingStore::new(3, 8);
    store.append(b"12345678");
    assert_eq!(store.archive_count(), 0);
    assert_eq!(store.active().as_slice(), b"12345678");
}

#[test]
fn one_byte_over_the_limit_makes_exactly_two_files() {
    // The older file holds the first max_file_size bytes, the newer the
    // remainder.
    let mut store = RotatingStore::new(3, 8);
    store.append(b"12345678X");
    assert_eq!(store.archive_count(), 1);
    assert_eq!(store.archived(0).as_slice(), b"12345678");
    assert_eq!(store.active().as_slice(), b"X");
}

#[test]
fn archives_are_ordered_newest_first() {
    let mut store = RotatingStore::new(3, 4);
    store.append(b"aaaa");
    store.append(b"bbbb");
    assert_eq!(store.archive_count(), 1);
    assert_eq!(store.archived(0).as_slice(), b"aaaa");
    assert_eq!(store.active().as_slice(), b"bbbb");
    store.append(b"cc");
    assert_eq!(store.archive_count(), 2);
    assert_eq!(store.archived(0).as_slice(), b"bbbb");
    assert_eq!(store.archived(1).as_slice(), b"aaaa");
    assert_eq!(store.active().as_slice(), b"cc");
    store.append(b"dd");
    store.append(b"eeee");
    assert_eq!(store.archive_count(), 3);
    assert_eq!(store.archived(0).as_slice(), b"ccdd");
    assert_eq!(store.archived(1).as_slice(), b"bbbb");
    assert_eq!(store.archived(2).as_slice(), b"aaaa");
    assert_eq!(store.active().as_slice(), b"eeee");
}

#[test]
fn retention_deletes_the_oldest_beyond_the_limit() {
    // Five rotations with max_files = 3: only the three newest archived
    // generations remain; the two oldest are gone.
    let mut store = RotatingStore::new(3, 4);
    store.append(b"1111");
    store.append(b"2222");
    store.append(b"3333");
    store.append(b"4444");
    store.append(b"5555");
    store.append(b"x");
    assert_eq!(store.archive_count(), 3);
    assert_eq!(store.archived(0).as_slice(), b"5555");
    assert_eq!(store.archived(1).as_slice(), b"4444");
    assert_eq!(store.archived(2).as_slice(), b"3333");
    assert_eq!(store.active().as_slice(), b"x");
}

#[test]
fn one_big_append_behaves_like_many_small_ones() {
    let mut all_at_once = RotatingStore::new(2, 4);
    all_at_once.append(b"aaaabbbbccccd");
    let mut byte_by_byte = RotatingStore::new(2, 4);
    for b in b"aaaabbbbccccd".iter() {
        byte_by_byte.append(&[*b]);
    }
    assert_eq!(all_at_once.archive_count(), byte_by_byte.archive_count());
    assert_eq!(all_at_once.archive_count(), 2);
    assert_eq!(all_at_once.archived(0), byte_by_byte.archived(0));
    assert_eq!(all_at_once.archived(1), byte_by_byte.archived(1));
    assert_eq!(all_at_once.archived(0).as_slice(), b"cccc");
    assert_eq!(all_at_once.archived(1).as_slice(), b"bbbb");
    assert_eq!(all_at_once.active().as_slice(), b"d");
}
