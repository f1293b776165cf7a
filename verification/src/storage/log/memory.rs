//! A log store that lives in memory.

use super::{raw, total_size, Bound, Range, Store, StoreView};
use crate::assoc::AssocList;
use crate::bytes::copy_bytes;
use crate::error::Error;
use vstd::prelude::*;
use vstd::string::StringExecFns;

verus! {

/// The total size of a prefix grows by the length of the entry that joins it.
pub proof fn lemma_total_size_step(entries: Seq<Seq<u8>>, i: int)
    requires
        0 <= i < entries.len(),
    ensures
        total_size(entries.take(i + 1)) == total_size(entries.take(i)) + entries[i].len(),
{
    assert(entries.take(i + 1).drop_last() =~= entries.take(i));
}

/// An in-memory log store.
pub struct Memory {
    log: Vec<Vec<u8>>,
    committed: u64,
    metadata: AssocList<Vec<u8>, Vec<u8>>,
}

impl Memory {
    /// Creates a new, empty in-memory log.
    pub fn new() -> (r: Self)
        ensures
            r.inv(),
            r.reliable(),
            r@ == (StoreView {
                entries: Seq::<Seq<u8>>::empty(),
                committed: 0,
                metadata: Map::<Seq<u8>, Seq<u8>>::empty(),
            }),
    {
        let r = Memory { log: Vec::new(), committed: 0, metadata: AssocList::new() };
        assert(r@.entries =~= Seq::<Seq<u8>>::empty());
        assert(r@.metadata =~= Map::<Seq<u8>, Seq<u8>>::empty());
        r
    }
}

impl Store for Memory {
    closed spec fn view(&self) -> StoreView {
        StoreView {
            entries: raw(self.log@),
            committed: self.committed,
            metadata: self.metadata@,
        }
    }

    closed spec fn inv(&self) -> bool {
        &&& self.committed <= self.log@.len() <= u64::MAX
        &&& self.metadata.wf()
    }

    open spec fn reliable(&self) -> bool {
        true
    }

    proof fn lemma_inv(&self) {
    }

    open spec fn kind() -> Seq<char> {
        "memory"@
    }

    fn name(&self) -> (s: String) {
        String::from_str("memory")
    }

    fn append(&mut self, entry: Vec<u8>) -> (r: Result<u64, Error>)
        ensures
            old(self)@.entries.len() < u64::MAX ==> r is Ok,
    {
        if self.log.len() as u64 == u64::MAX {
            return Err(Error::internal("Cannot append to a full log"));
        }
        let ghost bytes = entry@;
        self.log.push(entry);
        assert(self@.entries =~= old(self)@.entries.push(bytes));
        Ok(self.log.len() as u64)
    }

    fn commit(&mut self, index: u64) -> (r: Result<(), Error>) {
        if index > self.log.len() as u64 {
            return Err(Error::internal("Cannot commit non-existant index"));
        }
        if index < self.committed {
            return Err(Error::internal("Cannot commit below current index"));
        }
        self.committed = index;
        Ok(())
    }

    fn committed(&self) -> (r: u64) {
        self.committed
    }

    fn get(&self, index: u64) -> (r: Result<Option<Vec<u8>>, Error>) {
        if index == 0 || index > self.log.len() as u64 {
            Ok(None)
        } else {
            Ok(Some(copy_bytes(&self.log[(index - 1) as usize])))
        }
    }

    fn len(&self) -> (r: u64) {
        self.log.len() as u64
    }

    fn scan(&self, range: Range) -> (r: Result<Vec<Vec<u8>>, Error>) {
        let len: u64 = self.log.len() as u64;
        let upto: u64 = match range.end {
            Bound::Included(n) => if n <= len { n } else { len },
            Bound::Excluded(n) => if n == 0 { 0 } else if n - 1 <= len { n - 1 } else { len },
            Bound::Unbounded => len,
        };
        let skipped: u64 = match range.start {
            Bound::Included(n) => if n == 0 { 0 } else { n - 1 },
            Bound::Excluded(n) => n,
            Bound::Unbounded => 0,
        };
        let from: u64 = if skipped <= upto { skipped } else { upto };
        let mut found: Vec<Vec<u8>> = Vec::new();
        let end: usize = upto as usize;
        let mut i: usize = from as usize;
        while i < end
            invariant
                self.inv(),
                end == upto,
                from <= i <= upto <= self.log@.len(),
                from == range.from(self@.entries.len()),
                upto == range.upto(self@.entries.len()),
                raw(found@) == self@.entries.subrange(from as int, i as int),
            decreases upto - i,
        {
            let ghost prev = found@;
            found.push(copy_bytes(&self.log[i]));
            i += 1;
            proof {
                let want = self@.entries.subrange(from as int, i as int);
                assert(self@.entries.len() == self.log@.len());
                assert(raw(prev).len() == prev.len());
                assert(self@.entries.subrange(from as int, i - 1).len() == i - 1 - from);
                assert(raw(found@).len() == want.len());
                assert forall|k: int| 0 <= k < want.len() implies raw(found@)[k] == want[k] by {
                    if k < prev.len() {
                        assert(raw(prev)[k] == self@.entries.subrange(from as int, i - 1)[k]);
                    }
                }
                assert(raw(found@) =~= want);
            }
        }
        Ok(found)
    }

    fn size(&self) -> (r: u64) {
        let mut total: u64 = 0;
        let mut i: usize = 0;
        while i < self.log.len()
            invariant
                self.inv(),
                0 <= i <= self.log@.len(),
                total == if total_size(self@.entries.take(i as int)) <= u64::MAX {
                    total_size(self@.entries.take(i as int))
                } else {
                    u64::MAX as nat
                },
            decreases self.log@.len() - i,
        {
            let n: u64 = self.log[i].len() as u64;
            proof {
                lemma_total_size_step(self@.entries, i as int);
            }
            total = if n > u64::MAX - total { u64::MAX } else { total + n };
            i += 1;
        }
        assert(self@.entries.take(i as int) =~= self@.entries);
        total
    }

    fn truncate(&mut self, index: u64) -> (r: Result<u64, Error>) {
        if index < self.committed {
            return Err(Error::internal("Cannot truncate below committed index"));
        }
        if index < self.log.len() as u64 {
            self.log.truncate(index as usize);
            assert(self@.entries =~= old(self)@.entries.take(index as int));
        }
        Ok(self.log.len() as u64)
    }

    fn get_metadata(&self, key: &[u8]) -> (r: Result<Option<Vec<u8>>, Error>) {
        let k = vstd::slice::slice_to_vec(key);
        match self.metadata.get(&k) {
            Some(v) => Ok(Some(copy_bytes(v))),
            None => Ok(None),
        }
    }

    fn set_metadata(&mut self, key: &[u8], value: Vec<u8>) -> (r: Result<(), Error>) {
        self.metadata.insert(vstd::slice::slice_to_vec(key), value);
        Ok(())
    }
}

} // verus!
