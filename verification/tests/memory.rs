use raft_core::error::Error;
use raft_core::storage::log::memory::Memory;
use raft_core::storage::log::{Bound, Range, Store};

fn setup() -> Memory {
    Memory::new()
}

fn filled() -> Memory {
    let mut s = setup();
    s.append(vec![0x01]).unwrap();
    s.append(vec![0x02]).unwrap();
    s.append(vec![0x03]).unwrap();
    s
}

fn all() -> Range {
    Range::new(Bound::Unbounded, Bound::Unbounded)
}

fn test_append() {
    let mut s = setup();
    assert_eq!(0, s.len());
    assert_eq!(1, s.append(vec![0x01]).unwrap());
    assert_eq!(2, s.append(vec![0x02]).unwrap());
    assert_eq!(3, s.append(vec![0x03]).unwrap());
    assert_eq!(3, s.len());
    assert_eq!(vec![vec![1], vec![2], vec![3]], s.scan(all()).unwrap());
}

fn test_commit_truncate() {
    let mut s = setup();
    assert_eq!(0, s.committed());

    // Truncating an empty store should be fine.
    assert_eq!(0, s.truncate(0).unwrap());

    s.append(vec![0x01]).unwrap();
    s.append(vec![0x02]).unwrap();
    s.append(vec![0x03]).unwrap();
    s.commit(1).unwrap();
    assert_eq!(1, s.committed());

    // Truncating beyond the end should be fine.
    assert_eq!(3, s.truncate(4).unwrap());
    assert_eq!(vec![vec![1], vec![2], vec![3]], s.scan(all()).unwrap());

    // Truncating a committed entry should error.
    assert!(matches!(s.truncate(0), Err(Error::Internal(_))));
    assert_eq!(vec![vec![1], vec![2], vec![3]], s.scan(all()).unwrap());

    // Truncating above should work.
    assert_eq!(1, s.truncate(1).unwrap());
    assert_eq!(vec![vec![1]], s.scan(all()).unwrap());
}

fn test_commit() {
    let mut s = filled();
    assert_eq!(0, s.committed());
    s.commit(1).unwrap();
    assert_eq!(1, s.committed());
    s.commit(3).unwrap();
    assert_eq!(3, s.committed());
    // Committing an entry that is not there should error.
    assert!(matches!(s.commit(4), Err(Error::Internal(_))));
    // Committing below the current index should error.
    assert!(matches!(s.commit(2), Err(Error::Internal(_))));
    assert_eq!(3, s.committed());
    // Committing the current index again is fine.
    s.commit(3).unwrap();
    assert_eq!(3, s.committed());
}

fn test_get() {
    let s = filled();
    assert_eq!(None, s.get(0).unwrap());
    assert_eq!(Some(vec![0x01]), s.get(1).unwrap());
    assert_eq!(Some(vec![0x03]), s.get(3).unwrap());
    assert_eq!(None, s.get(4).unwrap());
}

fn test_metadata() {
    let mut s = setup();
    s.set_metadata(b"a", vec![0x01]).unwrap();
    assert_eq!(Some(vec![0x01]), s.get_metadata(b"a").unwrap());
    assert_eq!(None, s.get_metadata(b"b").unwrap());
    s.set_metadata(b"a", vec![0x02]).unwrap();
    assert_eq!(Some(vec![0x02]), s.get_metadata(b"a").unwrap());
}

fn scan(s: &Memory, start: Bound, end: Bound) -> Vec<Vec<u8>> {
    s.scan(Range::new(start, end)).unwrap()
}

fn test_scan() {
    let mut s = filled();
    s.commit(2).unwrap();
    let empty: Vec<Vec<u8>> = Vec::new();

    assert_eq!(vec![vec![1], vec![2], vec![3]], scan(&s, Bound::Unbounded, Bound::Unbounded));

    assert_eq!(vec![vec![1]], scan(&s, Bound::Included(0), Bound::Excluded(2)));
    assert_eq!(vec![vec![1], vec![2]], scan(&s, Bound::Included(1), Bound::Excluded(3)));
    assert_eq!(vec![vec![1], vec![2], vec![3]], scan(&s, Bound::Included(1), Bound::Included(3)));
    assert_eq!(empty, scan(&s, Bound::Included(3), Bound::Excluded(1)));
    assert_eq!(empty, scan(&s, Bound::Included(1), Bound::Excluded(1)));
    assert_eq!(vec![vec![2]], scan(&s, Bound::Included(2), Bound::Included(2)));
    assert_eq!(vec![vec![2], vec![3]], scan(&s, Bound::Included(2), Bound::Excluded(5)));

    assert_eq!(empty, scan(&s, Bound::Unbounded, Bound::Excluded(0)));
    assert_eq!(vec![vec![1]], scan(&s, Bound::Unbounded, Bound::Included(1)));
    assert_eq!(vec![vec![1], vec![2]], scan(&s, Bound::Unbounded, Bound::Excluded(3)));

    assert_eq!(empty, scan(&s, Bound::Included(4), Bound::Unbounded));
    assert_eq!(vec![vec![3]], scan(&s, Bound::Included(3), Bound::Unbounded));
    assert_eq!(vec![vec![2], vec![3]], scan(&s, Bound::Included(2), Bound::Unbounded));
    assert_eq!(vec![vec![3]], scan(&s, Bound::Excluded(2), Bound::Unbounded));
    assert_eq!(empty, scan(&s, Bound::Excluded(u64::MAX), Bound::Unbounded));
}

fn test_size() {
    let mut s = setup();
    assert_eq!(0, s.size());
    s.append(vec![0x01, 0x02]).unwrap();
    s.append(vec![]).unwrap();
    s.append(vec![0x03, 0x04, 0x05]).unwrap();
    assert_eq!(5, s.size());
    assert_eq!("memory", s.name());
}

#[test]
fn tests() {
    test_append();
    test_commit();
    test_commit_truncate();
    test_get();
    test_metadata();
    test_scan();
    test_size();
}
