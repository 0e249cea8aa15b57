use kvs::{KvStore, Segment};

fn snapshot(store: &KvStore) -> Vec<Segment> {
    let mut files: Vec<Segment> = Vec::new();
    let mut i: usize = 0;
    while i < store.segment_count() {
        files.push(Segment {
            generation_num: store.segment_generation(i),
            data: store.segment_bytes(i).clone(),
        });
        i += 1;
    }
    files
}

#[test]
fn explicit_compaction_shrinks_directory_and_keeps_data() {
    let mut store = KvStore::open(Vec::new()).unwrap();
    for i in 0..100u32 {
        for _ in 0..5 {
            store.set(format!("key{}", i), format!("value{}", i)).unwrap();
        }
    }
    let before = store.directory_size().unwrap();
    store.compact().unwrap();
    let after = store.directory_size().unwrap();
    assert!(after < before);
    for i in 0..100u32 {
        assert_eq!(store.get(format!("key{}", i)).unwrap(), Some(format!("value{}", i)));
    }
    // removed keys stay gone across a compaction
    store.remove("key0".to_owned()).unwrap();
    store.compact().unwrap();
    assert_eq!(store.get("key0".to_owned()).unwrap(), None);
    assert_eq!(store.get("key1".to_owned()).unwrap(), Some("value1".to_owned()));
}

#[test]
fn compaction_advances_generations() {
    let mut store = KvStore::open(Vec::new()).unwrap();
    store.set("k".to_owned(), "v".to_owned()).unwrap();
    let before = store.current_generation_number();
    store.compact().unwrap();
    assert_eq!(store.current_generation_number(), before + 2);
    assert_eq!(store.get("k".to_owned()).unwrap(), Some("v".to_owned()));
}

#[test]
fn reopen_accumulates_segments() {
    let mut store = KvStore::open(Vec::new()).unwrap();
    store.set("a".to_owned(), "1".to_owned()).unwrap();
    let mut store = KvStore::open(snapshot(&store)).unwrap();
    store.set("b".to_owned(), "2".to_owned()).unwrap();
    let mut store = KvStore::open(snapshot(&store)).unwrap();
    assert!(store.segment_count() >= 3);
    assert_eq!(store.get("a".to_owned()).unwrap(), Some("1".to_owned()));
    assert_eq!(store.get("b".to_owned()).unwrap(), Some("2".to_owned()));
}

#[test]
fn crash_torn_tail_keeps_surviving_prefix() {
    let mut store = KvStore::open(Vec::new()).unwrap();
    store.set("a".to_owned(), "1".to_owned()).unwrap();
    store.set("b".to_owned(), "2".to_owned()).unwrap();
    let mut files = snapshot(&store);
    // a crash before OS writeback loses a suffix of the active segment:
    // cut into the record of the second set
    let last = files.last_mut().unwrap();
    let cut = last.data.len() - 3;
    last.data.truncate(cut);
    let mut store = KvStore::open(files).unwrap();
    assert_eq!(store.get("a".to_owned()).unwrap(), Some("1".to_owned()));
    assert_eq!(store.get("b".to_owned()).unwrap(), None);
    // the store keeps working after recovery
    store.set("b".to_owned(), "3".to_owned()).unwrap();
    assert_eq!(store.get("b".to_owned()).unwrap(), Some("3".to_owned()));
}

#[test]
fn open_rejects_unsorted_segments() {
    let files = vec![
        Segment { generation_num: 2, data: Vec::new() },
        Segment { generation_num: 1, data: Vec::new() },
    ];
    assert!(KvStore::open(files).is_err());
}

#[test]
fn empty_value_round_trips() {
    let mut store = KvStore::open(Vec::new()).unwrap();
    store.set("k".to_owned(), String::new()).unwrap();
    assert_eq!(store.get("k".to_owned()).unwrap(), Some(String::new()));
}

#[test]
fn unicode_keys_and_values_round_trip() {
    let mut store = KvStore::open(Vec::new()).unwrap();
    store.set("ключ".to_owned(), "значение".to_owned()).unwrap();
    store.set("鍵".to_owned(), "値".to_owned()).unwrap();
    let mut store = KvStore::open(snapshot(&store)).unwrap();
    assert_eq!(store.get("ключ".to_owned()).unwrap(), Some("значение".to_owned()));
    assert_eq!(store.get("鍵".to_owned()).unwrap(), Some("値".to_owned()));
}
