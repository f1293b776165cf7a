//! The store of raw log entries: its contract, and the ranges it is scanned by.

pub mod memory;

use crate::error::Error;
use vstd::prelude::*;

verus! {

/// One end of a range of entry indexes.
#[derive(Clone, Copy, Debug, PartialEq, Eq, Structural)]
pub enum Bound {
    Included(u64),
    Excluded(u64),
    Unbounded,
}

/// A range of entry indexes. Indexes count from 1.
#[derive(Clone, Copy, Debug, PartialEq, Eq, Structural)]
pub struct Range {
    pub start: Bound,
    pub end: Bound,
}

impl Range {
    /// Whether the index lies in the range.
    pub open spec fn contains(self, index: int) -> bool {
        &&& index >= 1
        &&& match self.start {
            Bound::Included(n) => n <= index,
            Bound::Excluded(n) => n < index,
            Bound::Unbounded => true,
        }
        &&& match self.end {
            Bound::Included(n) => index <= n,
            Bound::Excluded(n) => index < n,
            Bound::Unbounded => true,
        }
    }

    /// How many entries of a store of `len` entries lie at or before the
    /// range's end.
    pub open spec fn upto(self, len: nat) -> nat {
        match self.end {
            Bound::Included(n) => if n <= len { n as nat } else { len },
            Bound::Excluded(n) => if n == 0 { 0 } else if n - 1 <= len { (n - 1) as nat } else { len },
            Bound::Unbounded => len,
        }
    }

    /// How many entries of a store of `len` entries lie before the range's
    /// start, and never more than `upto(len)`.
    pub open spec fn from(self, len: nat) -> nat {
        let skipped: nat = match self.start {
            Bound::Included(n) => if n == 0 { 0 } else { (n - 1) as nat },
            Bound::Excluded(n) => n as nat,
            Bound::Unbounded => 0,
        };
        if skipped <= self.upto(len) { skipped } else { self.upto(len) }
    }

    /// The entries of `entries` whose index lies in the range, in order.
    pub open spec fn select<T>(self, entries: Seq<T>) -> Seq<T> {
        entries.subrange(self.from(entries.len()) as int, self.upto(entries.len()) as int)
    }

    /// `select` keeps the entry at offset `i` exactly when the index `i + 1`
    /// lies in the range.
    pub proof fn lemma_select_is_contains(self, len: nat, i: int)
        requires
            0 <= i < len,
        ensures
            self.contains(i + 1) <==> self.from(len) <= i < self.upto(len),
    {
    }

    /// The range between the two bounds.
    pub fn new(start: Bound, end: Bound) -> (r: Range)
        ensures
            r == (Range { start, end }),
    {
        Range { start, end }
    }

    /// The range from `start` on, with no end.
    pub fn from_index(start: u64) -> (r: Range)
        ensures
            r == (Range { start: Bound::Included(start), end: Bound::Unbounded }),
    {
        Range { start: Bound::Included(start), end: Bound::Unbounded }
    }

    /// The range from `start` to `end`, both included.
    pub fn inclusive(start: u64, end: u64) -> (r: Range)
        ensures
            r == (Range { start: Bound::Included(start), end: Bound::Included(end) }),
    {
        Range { start: Bound::Included(start), end: Bound::Included(end) }
    }

    /// The range that holds every index.
    pub fn all() -> (r: Range)
        ensures
            r == (Range { start: Bound::Unbounded, end: Bound::Unbounded }),
    {
        Range { start: Bound::Unbounded, end: Bound::Unbounded }
    }
}

/// What a store holds: the raw entries in order (the entry of index `i` at
/// offset `i - 1`), the index up to which they are committed, and the metadata.
pub struct StoreView {
    pub entries: Seq<Seq<u8>>,
    pub committed: u64,
    pub metadata: Map<Seq<u8>, Seq<u8>>,
}

/// The raw entries that a vector of byte vectors holds.
pub open spec fn raw(entries: Seq<Vec<u8>>) -> Seq<Seq<u8>> {
    Seq::new(entries.len(), |i: int| entries[i]@)
}

/// The sum of the lengths of the entries.
pub open spec fn total_size(entries: Seq<Seq<u8>>) -> nat
    decreases entries.len(),
{
    if entries.len() == 0 {
        0
    } else {
        total_size(entries.drop_last()) + entries.last().len()
    }
}

/// A log store: raw entries under indexes that count from 1, a commit mark,
/// and a small key/value space for metadata.
///
/// An operation fails with `Internal` exactly where its arguments are out of
/// bounds. A store that is not `reliable` may also fail any operation with
/// `IO`. A failed operation leaves the store as it was.
pub trait Store: Sized {
    /// What the store holds.
    spec fn view(&self) -> StoreView;

    /// The store's own consistency.
    spec fn inv(&self) -> bool;

    /// Whether no operation fails for a reason outside its arguments.
    spec fn reliable(&self) -> bool;

    /// Every store keeps its commit mark within its entries.
    proof fn lemma_inv(&self)
        requires
            self.inv(),
        ensures
            self@.committed <= self@.entries.len() <= u64::MAX,
    ;

    /// The name of the kind of store.
    spec fn kind() -> Seq<char>;

    /// A short name for the kind of store.
    fn name(&self) -> (s: String)
        ensures
            s@ == Self::kind(),
    ;

    /// Appends an entry, and returns its index.
    fn append(&mut self, entry: Vec<u8>) -> (r: Result<u64, Error>)
        requires
            old(self).inv(),
        ensures
            final(self).inv(),
            final(self).reliable() == old(self).reliable(),
            match r {
                Ok(index) => {
                    &&& index == old(self)@.entries.len() + 1
                    &&& final(self)@ == (StoreView {
                        entries: old(self)@.entries.push(entry@),
                        ..old(self)@
                    })
                },
                Err(e) => {
                    &&& final(self)@ == old(self)@
                    &&& {
                        ||| e@ is Internal && old(self)@.entries.len() >= u64::MAX
                        ||| e@ is IO && !old(self).reliable()
                    }
                },
            },
    ;

    /// Moves the commit mark to `index`.
    fn commit(&mut self, index: u64) -> (r: Result<(), Error>)
        requires
            old(self).inv(),
        ensures
            final(self).inv(),
            final(self).reliable() == old(self).reliable(),
            match r {
                Ok(()) => {
                    &&& old(self)@.committed <= index <= old(self)@.entries.len()
                    &&& final(self)@ == (StoreView { committed: index, ..old(self)@ })
                },
                Err(e) => {
                    &&& final(self)@ == old(self)@
                    &&& {
                        ||| e@ is Internal && (index > old(self)@.entries.len() || index
                            < old(self)@.committed)
                        ||| e@ is IO && !old(self).reliable()
                    }
                },
            },
    ;

    /// The commit mark.
    fn committed(&self) -> (r: u64)
        requires
            self.inv(),
        ensures
            r == self@.committed,
    ;

    /// The entry at `index`, if there is one.
    fn get(&self, index: u64) -> (r: Result<Option<Vec<u8>>, Error>)
        requires
            self.inv(),
        ensures
            match r {
                Ok(Some(entry)) => 1 <= index <= self@.entries.len() && entry@
                    == self@.entries[index - 1],
                Ok(None) => index == 0 || index > self@.entries.len(),
                Err(e) => e@ is IO && !self.reliable(),
            },
    ;

    /// The number of entries.
    fn len(&self) -> (r: u64)
        requires
            self.inv(),
        ensures
            r == self@.entries.len(),
    ;

    /// The entries whose index lies in `range`, in order.
    fn scan(&self, range: Range) -> (r: Result<Vec<Vec<u8>>, Error>)
        requires
            self.inv(),
        ensures
            match r {
                Ok(entries) => raw(entries@) == range.select(self@.entries),
                Err(e) => e@ is IO && !self.reliable(),
            },
    ;

    /// The number of bytes in all entries together, or `u64::MAX` where that
    /// number does not fit.
    fn size(&self) -> (r: u64)
        requires
            self.inv(),
        ensures
            r == if total_size(self@.entries) <= u64::MAX {
                total_size(self@.entries)
            } else {
                u64::MAX as nat
            },
    ;

    /// Removes the entries above `index`, and returns the number left.
    fn truncate(&mut self, index: u64) -> (r: Result<u64, Error>)
        requires
            old(self).inv(),
        ensures
            final(self).inv(),
            final(self).reliable() == old(self).reliable(),
            match r {
                Ok(len) => {
                    &&& index >= old(self)@.committed
                    &&& len == final(self)@.entries.len()
                    &&& final(self)@ == (StoreView {
                        entries: if index < old(self)@.entries.len() {
                            old(self)@.entries.take(index as int)
                        } else {
                            old(self)@.entries
                        },
                        ..old(self)@
                    })
                },
                Err(e) => {
                    &&& final(self)@ == old(self)@
                    &&& {
                        ||| e@ is Internal && index < old(self)@.committed
                        ||| e@ is IO && !old(self).reliable()
                    }
                },
            },
    ;

    /// The metadata value under `key`, if there is one.
    fn get_metadata(&self, key: &[u8]) -> (r: Result<Option<Vec<u8>>, Error>)
        requires
            self.inv(),
        ensures
            match r {
                Ok(Some(value)) => self@.metadata.contains_key(key@) && value@
                    == self@.metadata[key@],
                Ok(None) => !self@.metadata.contains_key(key@),
                Err(e) => e@ is IO && !self.reliable(),
            },
    ;

    /// Puts `value` under `key` in the metadata.
    fn set_metadata(&mut self, key: &[u8], value: Vec<u8>) -> (r: Result<(), Error>)
        requires
            old(self).inv(),
        ensures
            final(self).inv(),
            final(self).reliable() == old(self).reliable(),
            match r {
                Ok(()) => final(self)@ == (StoreView {
                    metadata: old(self)@.metadata.insert(key@, value@),
                    ..old(self)@
                }),
                Err(e) => final(self)@ == old(self)@ && e@ is IO && !old(self).reliable(),
            },
    ;
}

} // verus!
