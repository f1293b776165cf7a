use raft_core::error::Error;
use raft_core::raft::log::Log;
use raft_core::raft::message::{Address, Event, Message, Request};
use raft_core::raft::node::Node;
use raft_core::storage::log::memory::Memory;
use raft_core::storage::log::{Range, Store, StoreView};
use std::cell::Cell;

// A store that fails each operation once its allowance is used up.
struct Flaky {
    inner: Memory,
    left: Cell<u32>,
}

impl Flaky {
    fn new(left: u32) -> Flaky {
        Flaky { inner: Memory::new(), left: Cell::new(left) }
    }

    fn spend(&self) -> Result<(), Error> {
        if self.left.get() == 0 {
            return Err(Error::IO("store failed".into()));
        }
        self.left.set(self.left.get() - 1);
        Ok(())
    }
}

impl Store for Flaky {
    // What the proofs speak of is never run.
    fn view(&self) -> StoreView {
        unreachable!()
    }

    fn inv(&self) -> bool {
        unreachable!()
    }

    fn reliable(&self) -> bool {
        unreachable!()
    }

    fn lemma_inv(&self) {
        unreachable!()
    }

    fn kind() -> vstd::seq::Seq<char> {
        unreachable!()
    }

    fn name(&self) -> String {
        "flaky".into()
    }

    fn append(&mut self, entry: Vec<u8>) -> Result<u64, Error> {
        self.spend()?;
        self.inner.append(entry)
    }

    fn commit(&mut self, index: u64) -> Result<(), Error> {
        self.spend()?;
        self.inner.commit(index)
    }

    fn committed(&self) -> u64 {
        self.inner.committed()
    }

    fn get(&self, index: u64) -> Result<Option<Vec<u8>>, Error> {
        self.spend()?;
        self.inner.get(index)
    }

    fn len(&self) -> u64 {
        self.inner.len()
    }

    fn scan(&self, range: Range) -> Result<Vec<Vec<u8>>, Error> {
        self.spend()?;
        self.inner.scan(range)
    }

    fn size(&self) -> u64 {
        self.inner.size()
    }

    fn truncate(&mut self, index: u64) -> Result<u64, Error> {
        self.spend()?;
        self.inner.truncate(index)
    }

    fn get_metadata(&self, key: &[u8]) -> Result<Option<Vec<u8>>, Error> {
        self.spend()?;
        self.inner.get_metadata(key)
    }

    fn set_metadata(&mut self, key: &[u8], value: Vec<u8>) -> Result<(), Error> {
        self.spend()?;
        self.inner.set_metadata(key, value)
    }
}

#[test]
fn log_runs_on_any_store() {
    let mut log = Log::new(Flaky::new(100)).unwrap();
    log.append(1, Some(vec![1])).unwrap();
    log.append(1, None).unwrap();
    log.commit(1).unwrap();
    assert_eq!(log.last_index(), 2);
    assert_eq!(log.commit_index(), 1);
    assert_eq!(log.store_name(), "flaky");
    assert_eq!(log.store_size(), 43);
}

#[test]
fn log_hands_on_the_failures_of_its_store() {
    // The allowance is used up by opening the log.
    assert!(matches!(Log::new(Flaky::new(0)), Err(Error::IO(_))));

    let mut log = Log::new(Flaky::new(2)).unwrap();
    log.append(1, Some(vec![1])).unwrap();
    assert!(matches!(log.append(1, Some(vec![2])), Err(Error::IO(_))));
    // The log is as it was.
    assert_eq!(log.last_index(), 1);
    assert_eq!(log.last_term(), 1);
    assert!(matches!(log.get(1), Err(Error::IO(_))));
    assert!(matches!(log.commit(1), Err(Error::IO(_))));
    assert_eq!(log.commit_index(), 0);
    assert!(matches!(log.save_term(2, None), Err(Error::IO(_))));
    assert!(matches!(log.load_term(), Err(Error::IO(_))));
    assert!(matches!(log.scan(Range::all()), Err(Error::IO(_))));
}

#[test]
fn node_fails_with_its_store() {
    // Opening the log and starting the node take one read each.
    let log = Log::new(Flaky::new(2)).unwrap();
    let node = Node::new("a", vec![], log, 0).unwrap();
    assert!(node.is_leader());
    let r = node.step(Message {
        from: Address::Client,
        to: Address::Local,
        term: 0,
        event: Event::ClientRequest { id: vec![1], request: Request::Mutate(vec![1]) },
    });
    assert!(matches!(r, Err(Error::IO(_))));
}
