use raft_core::assoc::{AssocList, Key};
use raft_core::bytes::{append_bytes, bytes_eq, copy_bytes};
use raft_core::error::Error;
use raft_core::raft::message::{Response, Status};
use raft_core::storage::log::{Bound, Range};

#[test]
fn error_messages() {
    assert_eq!(Error::Abort.message(), "Operation aborted");
    assert_eq!(Error::ChannelClosed.message(), "Channel closed");
    assert_eq!(Error::internal("broken").message(), "broken");
    assert_eq!(Error::config("bad name").message(), "bad name");
    assert_eq!(Error::IO("disk full".into()).message(), "disk full");
    assert_eq!(Error::internal("x"), Error::Internal("x".into()));
    assert_eq!(Error::config("x"), Error::Config("x".into()));
}

#[test]
fn error_comparison_and_copy() {
    let all = [
        Error::Abort,
        Error::ChannelClosed,
        Error::Config("a".into()),
        Error::Internal("a".into()),
        Error::IO("a".into()),
        Error::IO("b".into()),
    ];
    for (i, a) in all.iter().enumerate() {
        assert!(a.same(&a.clone()));
        assert_eq!(a.clone(), *a);
        for (j, b) in all.iter().enumerate() {
            assert_eq!(a.same(b), i == j);
        }
    }
}

#[test]
fn byte_helpers() {
    let v = vec![1u8, 2, 3];
    assert_eq!(copy_bytes(&v), v);
    let mut dst = vec![9u8];
    append_bytes(&mut dst, &v);
    append_bytes(&mut dst, &[]);
    assert_eq!(dst, vec![9, 1, 2, 3]);
    assert!(bytes_eq(&[], &[]));
    assert!(bytes_eq(&[1, 2], &[1, 2]));
    assert!(!bytes_eq(&[1, 2], &[1, 3]));
    assert!(!bytes_eq(&[1, 2], &[1, 2, 3]));
    assert!(vec![1u8, 2].same(&vec![1u8, 2]));
    assert!(!"a".to_string().same(&"b".to_string()));
}

#[test]
fn range_constructors() {
    assert_eq!(Range::all(), Range { start: Bound::Unbounded, end: Bound::Unbounded });
    assert_eq!(
        Range::from_index(3),
        Range { start: Bound::Included(3), end: Bound::Unbounded }
    );
    assert_eq!(
        Range::inclusive(2, 5),
        Range { start: Bound::Included(2), end: Bound::Included(5) }
    );
    assert_eq!(
        Range::new(Bound::Excluded(1), Bound::Excluded(4)),
        Range { start: Bound::Excluded(1), end: Bound::Excluded(4) }
    );
}

#[test]
fn association_list_keeps_the_order_of_its_keys() {
    let mut m: AssocList<String, u64> = AssocList::new();
    assert_eq!(m.len(), 0);
    assert!(m.is_wf());
    assert_eq!(m.get(&"a".to_string()), None);
    m.insert("a".into(), 1);
    m.insert("b".into(), 2);
    m.insert("c".into(), 3);
    m.insert("b".into(), 20);
    assert_eq!(m.len(), 3);
    assert!(m.is_wf());
    assert_eq!(m.get(&"b".to_string()), Some(&20));
    assert_eq!(m.position(&"c".to_string()), Some(2));
    assert_eq!(m.position(&"z".to_string()), None);
    assert_eq!(m.at(1), (&"b".to_string(), &20));
    assert_eq!(m.values(), vec![1, 20, 3]);
    let copy = m.copy();
    assert_eq!(copy, m);

    assert_eq!(m.remove(&"a".to_string()), Some(1));
    assert_eq!(m.remove(&"a".to_string()), None);
    assert_eq!(m.values(), vec![20, 3]);
    assert_eq!(m.take(), vec![("b".to_string(), 20), ("c".to_string(), 3)]);
    assert_eq!(m.len(), 0);
    assert_eq!(copy.len(), 3);
}

#[test]
fn association_list_with_byte_keys() {
    let mut m: AssocList<Vec<u8>, Vec<u8>> = AssocList::new();
    m.insert(vec![1], vec![10]);
    m.insert(vec![1, 2], vec![20]);
    m.insert(vec![], vec![30]);
    assert_eq!(m.get(&vec![1, 2]), Some(&vec![20]));
    assert_eq!(m.get(&vec![]), Some(&vec![30]));
    assert_eq!(m.get(&vec![2]), None);
}

#[test]
fn responses_are_told_apart() {
    let status = || Status {
        server: "a".into(),
        leader: "a".into(),
        term: 1,
        node_last_index: AssocList::new(),
        commit_index: 0,
        apply_index: 0,
        storage: "memory".into(),
        storage_size: 0,
    };
    assert_eq!(Response::State(vec![1, 2]).into_state(), Ok(vec![1, 2]));
    assert!(matches!(Response::Status(status()).into_state(), Err(Error::Internal(_))));
    assert_eq!(Response::Status(status()).into_status(), Ok(status()));
    assert!(matches!(Response::State(vec![]).into_status(), Err(Error::Internal(_))));
}
