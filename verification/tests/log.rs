use raft_core::error::Error;
use raft_core::raft::codec::{decode_election, encode_election, Entry};
use raft_core::raft::log::Log;
use raft_core::storage::log::memory::Memory;
use raft_core::storage::log::{Bound, Range, Store};

fn entry(index: u64, term: u64, command: u8) -> Entry {
    Entry { index, term, command: Some(vec![command]) }
}

fn setup() -> Log<Memory> {
    let mut log = Log::new(Memory::new()).unwrap();
    log.append(1, Some(vec![0x01])).unwrap();
    log.append(1, Some(vec![0x02])).unwrap();
    log.append(2, Some(vec![0x03])).unwrap();
    log
}

fn all(log: &Log<Memory>) -> Vec<Entry> {
    log.scan(Range::all()).unwrap()
}

#[test]
fn entry_encoding_is_exact() {
    let e = Entry { index: 3, term: 2, command: Some(vec![0xaa, 0xbb]) };
    assert_eq!(
        e.encode(),
        vec![3, 0, 0, 0, 0, 0, 0, 0, 2, 0, 0, 0, 0, 0, 0, 0, 1, 2, 0, 0, 0, 0, 0, 0, 0, 0xaa, 0xbb]
    );
    let noop = Entry { index: 258, term: 1, command: None };
    assert_eq!(noop.encode(), vec![2, 1, 0, 0, 0, 0, 0, 0, 1, 0, 0, 0, 0, 0, 0, 0, 0]);
}

#[test]
fn entry_decoding_inverts_encoding() {
    for e in [
        Entry { index: 1, term: 1, command: None },
        Entry { index: u64::MAX, term: 7, command: Some(vec![]) },
        Entry { index: 9, term: u64::MAX, command: Some(vec![1, 2, 3]) },
    ] {
        assert_eq!(Entry::decode(&e.encode()), Some(e));
    }
}

#[test]
fn entry_decoding_rejects_malformed_bytes() {
    assert_eq!(Entry::decode(&[]), None);
    assert_eq!(Entry::decode(&[0; 16]), None);
    // A no-op with trailing bytes.
    assert_eq!(Entry::decode(&[0; 18]), None);
    // An unknown tag.
    let mut bytes = vec![0; 17];
    bytes[16] = 2;
    assert_eq!(Entry::decode(&bytes), None);
    // A command shorter than its length says.
    let mut bytes = Entry { index: 1, term: 1, command: Some(vec![1, 2]) }.encode();
    bytes.pop();
    assert_eq!(Entry::decode(&bytes), None);
}

#[test]
fn election_record_round_trip() {
    assert_eq!(encode_election(3, None), vec![3, 0, 0, 0, 0, 0, 0, 0, 0]);
    assert_eq!(encode_election(3, Some("ab")), vec![3, 0, 0, 0, 0, 0, 0, 0, 1, b'a', b'b']);
    assert_eq!(decode_election(&encode_election(7, None)), Some((7, None)));
    assert_eq!(
        decode_election(&encode_election(7, Some("nœud"))),
        Some((7, Some("nœud".to_string())))
    );
}

#[test]
fn election_record_rejects_malformed_bytes() {
    assert_eq!(decode_election(&[1, 2, 3]), None);
    assert_eq!(decode_election(&[0, 0, 0, 0, 0, 0, 0, 0, 2]), None);
    assert_eq!(decode_election(&[0, 0, 0, 0, 0, 0, 0, 0, 0, 1]), None);
    // Bytes that are not UTF-8.
    assert_eq!(decode_election(&[0, 0, 0, 0, 0, 0, 0, 0, 1, 0xff, 0xfe]), None);
}

#[test]
fn new_log_is_empty() {
    let log = Log::new(Memory::new()).unwrap();
    assert_eq!(log.last_index(), 0);
    assert_eq!(log.last_term(), 0);
    assert_eq!(log.commit_index(), 0);
    assert_eq!(log.commit_term(), 0);
    assert_eq!(log.load_term().unwrap(), (0, None));
    assert_eq!(log.get(1).unwrap(), None);
    assert_eq!(log.store_size(), 0);
    assert_eq!(log.store_name(), "memory");
}

#[test]
fn new_log_reads_what_the_store_holds() {
    let mut store = Memory::new();
    store.append(entry(1, 1, 0x01).encode()).unwrap();
    store.append(entry(2, 3, 0x02).encode()).unwrap();
    store.append(entry(3, 4, 0x03).encode()).unwrap();
    store.commit(2).unwrap();
    store.set_metadata(b"term_vote", encode_election(4, Some("c"))).unwrap();
    let log = Log::new(store).unwrap();
    assert_eq!(log.last_index(), 3);
    assert_eq!(log.last_term(), 4);
    assert_eq!(log.commit_index(), 2);
    assert_eq!(log.commit_term(), 3);
    assert_eq!(log.load_term().unwrap(), (4, Some("c".to_string())));
    assert_eq!(log.store_size(), 78);
}

#[test]
fn new_log_rejects_a_store_that_holds_no_log() {
    let mut store = Memory::new();
    store.append(vec![1, 2, 3]).unwrap();
    assert!(matches!(Log::new(store), Err(Error::Internal(_))));

    // An entry under another index than its own.
    let mut store = Memory::new();
    store.append(entry(2, 1, 0x01).encode()).unwrap();
    assert!(matches!(Log::new(store), Err(Error::Internal(_))));

    // An election record that does not decode.
    let mut store = Memory::new();
    store.set_metadata(b"term_vote", vec![1]).unwrap();
    assert!(matches!(Log::new(store), Err(Error::Internal(_))));
}

#[test]
fn append_get_has() {
    let mut log = setup();
    assert_eq!(log.append(3, None).unwrap(), Entry { index: 4, term: 3, command: None });
    assert_eq!(log.last_index(), 4);
    assert_eq!(log.last_term(), 3);
    assert_eq!(log.commit_index(), 0);
    assert_eq!(log.get(0).unwrap(), None);
    assert_eq!(log.get(2).unwrap(), Some(entry(2, 1, 0x02)));
    assert_eq!(log.get(4).unwrap(), Some(Entry { index: 4, term: 3, command: None }));
    assert_eq!(log.get(5).unwrap(), None);
    assert!(log.has(0, 0).unwrap());
    assert!(!log.has(0, 1).unwrap());
    assert!(log.has(3, 2).unwrap());
    assert!(!log.has(3, 1).unwrap());
    assert!(!log.has(5, 3).unwrap());
}

#[test]
fn scan_ranges() {
    let log = setup();
    assert_eq!(all(&log), vec![entry(1, 1, 0x01), entry(2, 1, 0x02), entry(3, 2, 0x03)]);
    assert_eq!(log.scan(Range::from_index(0)).unwrap(), all(&log));
    assert_eq!(log.scan(Range::from_index(3)).unwrap(), vec![entry(3, 2, 0x03)]);
    assert_eq!(log.scan(Range::from_index(4)).unwrap(), vec![]);
    assert_eq!(
        log.scan(Range::inclusive(2, 3)).unwrap(),
        vec![entry(2, 1, 0x02), entry(3, 2, 0x03)]
    );
    assert_eq!(
        log.scan(Range::new(Bound::Excluded(1), Bound::Excluded(3))).unwrap(),
        vec![entry(2, 1, 0x02)]
    );
}

#[test]
fn commit_moves_forward_only() {
    let mut log = setup();
    assert_eq!(log.commit(2).unwrap(), 2);
    assert_eq!(log.commit_index(), 2);
    assert_eq!(log.commit_term(), 1);
    assert_eq!(log.commit(2).unwrap(), 2);
    assert!(matches!(log.commit(1), Err(Error::Internal(_))));
    assert!(matches!(log.commit(4), Err(Error::Internal(_))));
    assert_eq!(log.commit_index(), 2);
    assert_eq!(log.commit(3).unwrap(), 3);
    assert_eq!(log.commit_term(), 2);
}

#[test]
fn truncate_spares_what_is_committed() {
    let mut log = setup();
    log.commit(2).unwrap();
    assert_eq!(log.truncate(5).unwrap(), 3);
    assert!(matches!(log.truncate(1), Err(Error::Internal(_))));
    assert_eq!(all(&log).len(), 3);
    assert_eq!(log.truncate(2).unwrap(), 2);
    assert_eq!(log.last_index(), 2);
    assert_eq!(log.last_term(), 1);
    assert_eq!(all(&log), vec![entry(1, 1, 0x01), entry(2, 1, 0x02)]);
}

#[test]
fn splice_appends_at_the_end() {
    let mut log = setup();
    assert_eq!(log.splice(vec![entry(4, 3, 0x04), entry(5, 3, 0x05)]).unwrap(), 5);
    assert_eq!(log.last_term(), 3);
    assert_eq!(all(&log).len(), 5);
    assert_eq!(log.get(5).unwrap(), Some(entry(5, 3, 0x05)));
}

#[test]
fn splice_keeps_what_agrees() {
    let mut log = setup();
    // The log keeps its own entries where index and term agree, even
    // where the command differs.
    assert_eq!(log.splice(vec![entry(2, 1, 0xff), entry(3, 2, 0xfe)]).unwrap(), 3);
    assert_eq!(all(&log), vec![entry(1, 1, 0x01), entry(2, 1, 0x02), entry(3, 2, 0x03)]);
    assert_eq!(log.splice(vec![]).unwrap(), 3);
    // A run that agrees and ends before the log does leaves the rest.
    assert_eq!(log.splice(vec![entry(1, 1, 0x01)]).unwrap(), 3);
}

#[test]
fn splice_cuts_at_the_first_conflict() {
    let mut log = setup();
    log.commit(1).unwrap();
    assert_eq!(
        log.splice(vec![entry(1, 1, 0x01), entry(2, 3, 0x12), entry(3, 3, 0x13)]).unwrap(),
        3
    );
    assert_eq!(all(&log), vec![entry(1, 1, 0x01), entry(2, 3, 0x12), entry(3, 3, 0x13)]);
    assert_eq!(log.last_term(), 3);
    // A shorter run cuts the log shorter.
    assert_eq!(log.splice(vec![entry(2, 4, 0x22)]).unwrap(), 2);
    assert_eq!(all(&log), vec![entry(1, 1, 0x01), entry(2, 4, 0x22)]);
    assert_eq!(log.commit_index(), 1);
}

#[test]
fn splice_rejects_what_it_cannot_take() {
    let mut log = setup();
    log.commit(2).unwrap();
    let before = all(&log);
    // Beyond the end of the log.
    assert!(matches!(log.splice(vec![entry(5, 3, 0x05)]), Err(Error::Internal(_))));
    // At index 0.
    assert!(matches!(log.splice(vec![entry(0, 3, 0x05)]), Err(Error::Internal(_))));
    // Indexes that do not follow each other.
    assert!(matches!(
        log.splice(vec![entry(3, 2, 0x03), entry(5, 3, 0x05)]),
        Err(Error::Internal(_))
    ));
    assert!(matches!(
        log.splice(vec![entry(3, 2, 0x03), entry(3, 2, 0x03)]),
        Err(Error::Internal(_))
    ));
    // A conflict at a committed entry.
    assert!(matches!(
        log.splice(vec![entry(2, 9, 0x09), entry(3, 9, 0x09)]),
        Err(Error::Internal(_))
    ));
    assert_eq!(all(&log), before);
    assert_eq!(log.commit_index(), 2);
}

#[test]
fn save_and_load_term() {
    let mut log = setup();
    log.save_term(1, Some("a")).unwrap();
    assert_eq!(log.load_term().unwrap(), (1, Some("a".to_string())));
    log.save_term(3, None).unwrap();
    assert_eq!(log.load_term().unwrap(), (3, None));
    log.save_term(4, Some("node-c")).unwrap();
    assert_eq!(log.load_term().unwrap(), (4, Some("node-c".to_string())));
    assert_eq!(log.last_index(), 3);
}

#[test]
fn store_size_counts_encoded_entries() {
    let mut log = setup();
    assert_eq!(log.store_size(), 78);
    log.append(2, None).unwrap();
    assert_eq!(log.store_size(), 95);
    log.append(2, Some(vec![])).unwrap();
    assert_eq!(log.store_size(), 120);
}
