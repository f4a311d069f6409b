use uring::keyspace::{
    high_data, high_index, key_before_or_at, low_data, low_index, make_data_key, make_log_key,
};
use uring::storage::{
    encode_record, join_records, split_records, ConfState, Entry, EntryType, HardState, Snapshot,
    StorageError, URRocksStorage, WriteStorage,
};

fn entry(index: u64, term: u64) -> Entry {
    Entry { term, index, entry_type: EntryType::Normal, data: vec![index as u8, term as u8] }
}

fn run(from: u64, to: u64, term: u64) -> Vec<Entry> {
    (from..=to).map(|i| entry(i, term)).collect()
}

fn conf(voters: &[u64]) -> ConfState {
    ConfState { voters: voters.to_vec(), learners: vec![] }
}

#[test]
fn log_key_is_tag_then_index_little_endian() {
    assert_eq!(make_log_key(1), vec![1, 0, 0, 0, 0, 0, 0, 0, 1, 0, 0, 0, 0, 0, 0, 0]);
    assert_eq!(make_log_key(0x0102), vec![1, 0, 0, 0, 0, 0, 0, 0, 2, 1, 0, 0, 0, 0, 0, 0]);
    assert_eq!(
        make_log_key(u64::MAX),
        vec![1, 0, 0, 0, 0, 0, 0, 0, 255, 255, 255, 255, 255, 255, 255, 255]
    );
}

#[test]
fn data_key_is_tag_then_user_key() {
    assert_eq!(make_data_key("ab"), vec![2, 0, 0, 0, 0, 0, 0, 0, 97, 98]);
    assert_eq!(make_data_key(""), vec![2, 0, 0, 0, 0, 0, 0, 0]);
}

#[test]
fn segments_do_not_overlap() {
    let log = make_log_key(7);
    let data = make_data_key("7");
    assert_ne!(log[0], data[0]);
    assert_ne!(log[0], 0);
    assert_ne!(data[0], 0);
}

#[test]
fn empty_store_starts_at_one() {
    let s = URRocksStorage::new(1);
    assert_eq!(s.first_index(), Ok(1));
    assert_eq!(s.last_index(), Ok(0));
    let st = s.initial_state().unwrap();
    assert_eq!(st.hard_state, HardState { term: 0, vote: 0, commit: 0 });
    assert_eq!(st.conf_state, ConfState::empty());
}

#[test]
fn zero_hard_state_hides_the_configuration() {
    let mut s = URRocksStorage::new(1);
    s.set_conf_state(conf(&[1, 2, 3])).unwrap();
    let st = s.initial_state().unwrap();
    assert_eq!(st.conf_state, ConfState::empty());
    assert_eq!(s.get_conf_state(), conf(&[1, 2, 3]));
}

#[test]
fn new_with_conf_state_starts_at_term_and_commit_one() {
    let s = URRocksStorage::new_with_conf_state(3, conf(&[1, 2]));
    let st = s.initial_state().unwrap();
    assert_eq!(st.hard_state, HardState { term: 1, vote: 0, commit: 1 });
    assert_eq!(st.conf_state, conf(&[1, 2]));
    assert_eq!(s.first_index(), Ok(2));
    assert_eq!(s.last_index(), Ok(1));
}

#[test]
fn append_then_entries_returns_the_range() {
    let mut s = URRocksStorage::new(1);
    s.append(&run(1, 10, 2)).unwrap();
    assert_eq!(s.first_index(), Ok(1));
    assert_eq!(s.last_index(), Ok(10));
    assert_eq!(s.entries(3, 7, None).unwrap(), run(3, 6, 2));
    assert_eq!(s.entries(1, 11, None).unwrap(), run(1, 10, 2));
    assert_eq!(s.entries(5, 5, None).unwrap(), vec![]);
}

#[test]
fn entries_are_capped_and_a_cap_of_zero_counts_as_one() {
    let mut s = URRocksStorage::new(1);
    s.append(&run(1, 10, 2)).unwrap();
    assert_eq!(s.entries(2, 9, Some(3)).unwrap(), run(2, 4, 2));
    assert_eq!(s.entries(2, 9, Some(0)).unwrap(), run(2, 2, 2));
    assert_eq!(s.entries(2, 4, Some(100)).unwrap(), run(2, 3, 2));
}

#[test]
fn append_of_nothing_changes_nothing() {
    let mut s = URRocksStorage::new(1);
    s.append(&run(1, 3, 1)).unwrap();
    s.append(&[]).unwrap();
    assert_eq!(s.entries(1, 4, None).unwrap(), run(1, 3, 1));
}

#[test]
fn append_replaces_an_entry_with_the_same_index() {
    let mut s = URRocksStorage::new(1);
    s.append(&run(1, 5, 1)).unwrap();
    s.append(&[entry(3, 9)]).unwrap();
    assert_eq!(s.term(3), Ok(9));
    assert_eq!(s.entries(1, 6, None).unwrap().len(), 5);
    assert_eq!(s.term(4), Ok(1));
}

#[test]
fn append_out_of_order_keeps_index_order() {
    let mut s = URRocksStorage::new(1);
    s.append(&[entry(5, 1), entry(2, 1), entry(9, 1)]).unwrap();
    assert_eq!(s.first_index(), Ok(2));
    assert_eq!(s.last_index(), Ok(9));
    assert_eq!(s.entries(2, 10, None).unwrap(), vec![entry(2, 1), entry(5, 1), entry(9, 1)]);
    assert_eq!(s.term(4), Err(StorageError::Unavailable));
}

#[test]
fn compaction_round_trip() {
    let mut s = URRocksStorage::new(1);
    s.append(&run(1, 100, 2)).unwrap();
    s.set_hard_state(50, 3).unwrap();
    assert_eq!(s.first_index(), Ok(51));
    assert_eq!(s.term(50), Ok(3));
    assert_eq!(s.entries(51, 101, None).unwrap().len(), 50);
    assert_eq!(s.entries(51, 101, None).unwrap(), run(51, 100, 2));
    assert_eq!(s.get_hard_state(), HardState { term: 3, vote: 0, commit: 50 });
}

#[test]
fn reading_below_the_first_index_is_compacted() {
    let mut s = URRocksStorage::new(1);
    s.append(&run(1, 100, 2)).unwrap();
    s.set_hard_state(50, 3).unwrap();
    assert_eq!(s.entries(50, 60, None), Err(StorageError::Compacted));
    assert_eq!(s.term(49), Err(StorageError::Compacted));
    assert_eq!(s.term(51), Ok(2));
    assert_eq!(s.term(101), Err(StorageError::Unavailable));
}

#[test]
fn hard_state_past_the_log_empties_it() {
    let mut s = URRocksStorage::new(1);
    s.append(&run(1, 5, 1)).unwrap();
    s.set_hard_state(9, 4).unwrap();
    assert_eq!(s.first_index(), Ok(10));
    assert_eq!(s.last_index(), Ok(9));
}

#[test]
fn snapshot_reject() {
    let mut s = URRocksStorage::new(1);
    s.append(&run(1, 100, 2)).unwrap();
    s.set_hard_state(50, 3).unwrap();
    s.set_conf_state(conf(&[1])).unwrap();
    s.put("k", "v".to_string());
    assert_eq!(s.first_index(), Ok(51));
    let stale = Snapshot { index: 10, term: 1, conf_state: conf(&[7, 8]), data: b"{\"key\":\"x\",\"value\":\"y\"}".to_vec() };
    assert_eq!(s.apply_snapshot(stale), Err(StorageError::SnapshotOutOfDate));
    assert_eq!(s.first_index(), Ok(51));
    assert_eq!(s.last_index(), Ok(100));
    assert_eq!(s.get_hard_state(), HardState { term: 3, vote: 0, commit: 50 });
    assert_eq!(s.get_conf_state(), conf(&[1]));
    assert_eq!(s.get("k"), Some("v".to_string()));
    assert_eq!(s.get("x"), None);
}

#[test]
fn snapshot_install_sets_state_and_empties_the_log() {
    let mut s = URRocksStorage::new(1);
    s.append(&run(1, 20, 2)).unwrap();
    s.put("gone", "old".to_string());
    let snap = Snapshot {
        index: 30,
        term: 5,
        conf_state: conf(&[1, 2, 3]),
        data: b"{\"key\":\"a\",\"value\":\"1\"}\nnot json\n{\"key\":\"b\",\"value\":\"2\"}".to_vec(),
    };
    assert_eq!(s.apply_snapshot(snap), Ok(()));
    let st = s.initial_state().unwrap();
    assert_eq!(st.hard_state, HardState { term: 5, vote: 0, commit: 30 });
    assert_eq!(st.conf_state, conf(&[1, 2, 3]));
    assert_eq!(s.first_index(), Ok(31));
    assert_eq!(s.last_index(), Ok(30));
    assert_eq!(s.get("a"), Some("1".to_string()));
    assert_eq!(s.get("b"), Some("2".to_string()));
    assert_eq!(s.get("gone"), None);
}

#[test]
fn snapshot_of_one_store_installs_on_another() {
    let mut a = URRocksStorage::new(1);
    a.put("alpha", "1".to_string());
    a.put("beta", "two words".to_string());
    a.put("line\nbreak", "a\nb".to_string());
    a.put("alpha", "3".to_string());
    a.set_hard_state(4, 2).unwrap();
    a.set_conf_state(conf(&[1, 2])).unwrap();
    let snap = a.snapshot(0).unwrap();
    assert_eq!(snap.index, 4);
    assert_eq!(snap.term, 2);
    let mut b = URRocksStorage::new(2);
    assert_eq!(b.apply_snapshot(snap), Ok(()));
    assert_eq!(b.get("alpha"), Some("3".to_string()));
    assert_eq!(b.get("beta"), Some("two words".to_string()));
    assert_eq!(b.get("line\nbreak"), Some("a\nb".to_string()));
    assert_eq!(b.data_snapshot(), a.data_snapshot());
    assert_eq!(b.get_conf_state(), conf(&[1, 2]));
}

#[test]
fn snapshot_lifts_its_index_to_the_request() {
    let mut s = URRocksStorage::new(1);
    s.set_hard_state(4, 2).unwrap();
    s.put("k", "v".to_string());
    let low = s.snapshot(3).unwrap();
    let high = s.snapshot(9).unwrap();
    assert_eq!(low.index, 4);
    assert_eq!(high.index, 9);
    assert_eq!(high.term, 2);
    assert_eq!(low.data, high.data);
}

#[test]
fn data_snapshot_is_one_json_object_per_line() {
    let mut s = URRocksStorage::new(1);
    assert_eq!(s.data_snapshot(), Vec::<u8>::new());
    s.put("a", "1".to_string());
    s.put("b", "2".to_string());
    assert_eq!(
        s.data_snapshot(),
        b"{\"key\":\"a\",\"value\":\"1\"}\n{\"key\":\"b\",\"value\":\"2\"}".to_vec()
    );
}

#[test]
fn data_segment_get_put_and_clear() {
    let mut s = URRocksStorage::new(1);
    assert_eq!(s.get("k"), None);
    s.put("k", "v1".to_string());
    s.put("k", "v2".to_string());
    s.put("j", "w".to_string());
    assert_eq!(s.get("k"), Some("v2".to_string()));
    assert_eq!(s.get("j"), Some("w".to_string()));
    s.clear_data();
    assert_eq!(s.get("k"), None);
}

#[test]
fn clear_log_to_drops_through_the_index() {
    let mut s = URRocksStorage::new(1);
    s.append(&run(1, 10, 1)).unwrap();
    s.clear_log_to(4);
    assert_eq!(s.first_index(), Ok(5));
    s.clear_log();
    assert_eq!(s.first_index(), Ok(1));
}

#[test]
fn lines_are_cut_at_newlines_and_put_together_again() {
    assert_eq!(split_records(b""), vec![Vec::<u8>::new()]);
    assert_eq!(split_records(b"a\nbc\n"), vec![b"a".to_vec(), b"bc".to_vec(), vec![]]);
    let lines = vec![b"x".to_vec(), vec![], b"yz".to_vec()];
    assert_eq!(join_records(&lines), b"x\n\nyz".to_vec());
    assert_eq!(split_records(&join_records(&lines)), lines);
    assert_eq!(join_records(&vec![]), Vec::<u8>::new());
}

fn fill<S: WriteStorage>(store: &mut S) -> Result<(), StorageError> {
    store.append(&run(1, 6, 2))?;
    store.set_conf_state(conf(&[4, 5]))?;
    store.set_hard_state(3, 2)
}

#[test]
fn a_store_is_written_through_its_trait() {
    let mut s = URRocksStorage::new(1);
    assert_eq!(fill(&mut s), Ok(()));
    assert_eq!(s.first_index(), Ok(4));
    assert_eq!(s.last_index(), Ok(6));
    assert_eq!(s.get_conf_state(), conf(&[4, 5]));
    let stale = Snapshot { index: 2, term: 1, conf_state: conf(&[]), data: vec![] };
    assert_eq!(WriteStorage::apply_snapshot(&mut s, stale), Err(StorageError::SnapshotOutOfDate));
    let snap = Snapshot { index: 8, term: 4, conf_state: conf(&[1]), data: vec![] };
    assert_eq!(WriteStorage::apply_snapshot(&mut s, snap), Ok(()));
    assert_eq!(s.first_index(), Ok(9));
}

#[test]
fn a_record_is_written_as_a_json_object() {
    assert_eq!(
        encode_record(&"k\"1".to_string(), &"line\nbreak".to_string()),
        b"{\"key\":\"k\\\"1\",\"value\":\"line\\nbreak\"}".to_vec()
    );
}

#[test]
fn segment_bounds_enclose_their_keys() {
    assert_eq!(low_index(), vec![1, 0, 0, 0, 0, 0, 0, 0, 0, 0, 0, 0, 0, 0, 0, 0]);
    assert_eq!(
        high_index(),
        vec![1, 0, 0, 0, 0, 0, 0, 0, 255, 255, 255, 255, 255, 255, 255, 255]
    );
    assert_eq!(low_data(), vec![2, 0, 0, 0, 0, 0, 0, 0]);
    assert_eq!(high_data(), vec![3, 0, 0, 0, 0, 0, 0, 0]);
    for idx in [0u64, 1, 255, 256, 70_000, u64::MAX] {
        let key = make_log_key(idx);
        assert!(key_before_or_at(&low_index(), &key));
        assert!(key_before_or_at(&key, &high_index()));
        assert!(!key_before_or_at(&low_data(), &key));
    }
    for user in ["", "a", "zzzz", "\u{ff}"] {
        let key = make_data_key(user);
        assert!(key_before_or_at(&low_data(), &key));
        assert!(key_before_or_at(&key, &high_data()));
        assert!(!key_before_or_at(&high_data(), &key));
        assert!(!key_before_or_at(&key, &high_index()));
    }
}

#[test]
fn keys_are_ordered_byte_by_byte() {
    assert!(key_before_or_at(b"", b""));
    assert!(key_before_or_at(b"", b"a"));
    assert!(!key_before_or_at(b"a", b""));
    assert!(key_before_or_at(b"ab", b"ab"));
    assert!(key_before_or_at(b"ab", b"abc"));
    assert!(!key_before_or_at(b"abc", b"ab"));
    assert!(key_before_or_at(b"ab", b"b"));
    assert!(!key_before_or_at(b"b", b"ab"));
    assert!(key_before_or_at(&make_log_key(1), &make_log_key(2)));
    assert!(key_before_or_at(&make_log_key(254), &make_log_key(255)));
    assert!(key_before_or_at(&make_log_key(256), &make_log_key(1)));
}
