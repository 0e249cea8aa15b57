use kvs::codec::encode_command;
use kvs::{Command, CommandPosition, KvStoreReader, Segment};

#[test]
fn reader_resolves_a_record_position() {
    let first = encode_command(&Command::set("k1".to_owned(), "v1".to_owned()));
    let mut data = first.clone();
    let second = encode_command(&Command::set("k2".to_owned(), "v2".to_owned()));
    data.extend_from_slice(second.as_slice());
    let segments = vec![Segment { generation_num: 1, data }];

    let mut reader = KvStoreReader::new();
    let pos = CommandPosition {
        generation_num: 1,
        position: first.len() as u64,
        length: second.len() as u64,
    };
    let cmd = reader.read_command(&segments, 0, pos).unwrap();
    assert!(matches!(cmd, Command::Put { key, value } if key == "k2" && value == "v2"));
}

#[test]
fn fresh_handles_start_with_an_empty_cache() {
    let reader = KvStoreReader::new();
    let clone = reader.fresh_handle();
    // a fresh handle is usable on its own and closing stale descriptors on
    // an empty cache is a no-op
    let mut clone = clone;
    clone.close_stale_handlers(17);
}

#[test]
fn directory_size_sums_segment_bytes() {
    let mut store = kvs::KvStore::open(Vec::new()).unwrap();
    store.set("a".to_owned(), "1".to_owned()).unwrap();
    store.set("b".to_owned(), "2".to_owned()).unwrap();
    let mut sum: u64 = 0;
    let mut i: usize = 0;
    while i < store.segment_count() {
        sum += store.segment_bytes(i).len() as u64;
        i += 1;
    }
    assert_eq!(store.directory_size(), Some(sum));
}
