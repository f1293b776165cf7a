//! The replicated log: entries under dense indexes that count from 1, a
//! commit mark that only moves forward, and the election record.

use crate::error::Error;
use crate::raft::codec::{
    decode_election, decode_entry, decode_term_vote, encode_election, entry_views,
    lemma_decode_encode_term_vote, Entry, EntryView,
};
use crate::storage::log::{raw, Range, Store, StoreView};
use vstd::prelude::*;
use vstd::utf8::encode_utf8;

verus! {

/// The metadata key under which the election record is kept.
pub open spec fn election_key() -> Seq<u8> {
    encode_utf8("term_vote"@)
}

/// The entries that the raw entries of a store decode to.
pub open spec fn decoded(entries: Seq<Seq<u8>>) -> Seq<EntryView> {
    Seq::new(entries.len(), |i: int| decode_entry(entries[i])->0)
}

/// Whether each raw entry decodes to an entry that carries its own index.
pub open spec fn entries_ok(entries: Seq<Seq<u8>>) -> bool {
    forall|i: int|
        0 <= i < entries.len() ==> (#[trigger] decode_entry(entries[i])) is Some && decode_entry(
            entries[i],
        )->0.index == i + 1
}

/// Whether the election record, where there is one, decodes.
pub open spec fn election_ok(metadata: Map<Seq<u8>, Seq<u8>>) -> bool {
    metadata.contains_key(election_key()) ==> decode_term_vote(metadata[election_key()]) is Some
}

/// The election record that the metadata holds: term 0 and no vote where
/// none was saved.
pub open spec fn election_of(metadata: Map<Seq<u8>, Seq<u8>>) -> (u64, Option<Seq<char>>) {
    if metadata.contains_key(election_key()) {
        decode_term_vote(metadata[election_key()])->Some_0
    } else {
        (0, None)
    }
}

/// Whether a store holds a log.
pub open spec fn store_ok(s: StoreView) -> bool {
    &&& s.committed <= s.entries.len() <= u64::MAX
    &&& entries_ok(s.entries)
    &&& election_ok(s.metadata)
}

/// The log that a store holds.
pub open spec fn log_of(s: StoreView) -> LogView {
    LogView {
        entries: decoded(s.entries),
        commit_index: s.committed,
        term: election_of(s.metadata).0,
        voted_for: election_of(s.metadata).1,
    }
}

/// The number of bytes that an entry takes in the store.
pub open spec fn entry_size(e: EntryView) -> nat {
    match e.command {
        None => 17,
        Some(c) => 25 + c.len(),
    }
}

/// The number of bytes that the entries take in the store.
pub open spec fn entries_size(entries: Seq<EntryView>) -> nat
    decreases entries.len(),
{
    if entries.len() == 0 {
        0
    } else {
        entries_size(entries.drop_last()) + entry_size(entries.last())
    }
}

/// The raw entries of a store that holds a log have the size of the log's
/// entries.
pub proof fn lemma_entries_size(entries: Seq<Seq<u8>>)
    requires
        entries_ok(entries),
    ensures
        crate::storage::log::total_size(entries) == entries_size(decoded(entries)),
    decreases entries.len(),
{
    if entries.len() > 0 {
        let front = entries.drop_last();
        assert forall|i: int| 0 <= i < front.len() implies (#[trigger] decode_entry(
            front[i],
        )) is Some && decode_entry(front[i])->0.index == i + 1 by {
            assert(front[i] == entries[i]);
        }
        lemma_entries_size(front);
        assert(decoded(entries).drop_last() =~= decoded(front));
        assert(decode_entry(entries[entries.len() - 1]) is Some);
    }
}

/// The mathematical value of a [`Log`]: the entries in order (the entry of
/// index `i` at offset `i - 1`), the commit mark, and the election record.
pub struct LogView {
    pub entries: Seq<EntryView>,
    pub commit_index: u64,
    pub term: u64,
    pub voted_for: Option<Seq<char>>,
}

impl LogView {
    /// The commit mark lies within the entries, and each entry carries its
    /// own index.
    pub open spec fn valid(self) -> bool {
        &&& self.commit_index <= self.entries.len() <= u64::MAX
        &&& forall|i: int| 0 <= i < self.entries.len() ==> (#[trigger] self.entries[i]).index == i + 1
    }

    /// The number of bytes that the entries take in the store, or `u64::MAX`
    /// where that number does not fit.
    pub open spec fn size(self) -> u64 {
        if entries_size(self.entries) <= u64::MAX {
            entries_size(self.entries) as u64
        } else {
            u64::MAX
        }
    }

    /// The index of the last entry, or 0 for an empty log.
    pub open spec fn last_index(self) -> u64 {
        self.entries.len() as u64
    }

    /// The entry at `index`, if there is one.
    pub open spec fn get(self, index: u64) -> Option<EntryView> {
        if 1 <= index <= self.entries.len() {
            Some(self.entries[index - 1])
        } else {
            None
        }
    }

    /// The term of the entry at `index`, or 0 where there is none.
    pub open spec fn term_at(self, index: u64) -> u64 {
        if 1 <= index <= self.entries.len() {
            self.entries[index - 1].term
        } else {
            0
        }
    }

    /// The term of the last entry, or 0 for an empty log.
    pub open spec fn last_term(self) -> u64 {
        self.term_at(self.last_index())
    }

    /// The term of the entry at the commit mark, or 0 where nothing is
    /// committed.
    pub open spec fn commit_term(self) -> u64 {
        self.term_at(self.commit_index)
    }

    /// Whether the log holds an entry at `index` with the term `term`. The
    /// place before the first entry has the term 0.
    pub open spec fn has(self, index: u64, term: u64) -> bool {
        if index == 0 {
            term == 0
        } else {
            index <= self.entries.len() && self.entries[index - 1].term == term
        }
    }

    /// The log with one more entry.
    pub open spec fn append(self, term: u64, command: Option<Seq<u8>>) -> LogView {
        LogView {
            entries: self.entries.push(
                EntryView { index: (self.entries.len() + 1) as u64, term, command },
            ),
            ..self
        }
    }

    /// The log without the entries above `index`.
    pub open spec fn truncate(self, index: u64) -> LogView {
        LogView {
            entries: if index < self.entries.len() {
                self.entries.take(index as int)
            } else {
                self.entries
            },
            ..self
        }
    }

    /// Whether `later` keeps what `self` has committed: the commit mark has
    /// not moved back, and the entries up to the old mark are the same.
    pub open spec fn committed_kept(self, later: LogView) -> bool {
        &&& self.commit_index <= later.commit_index
        &&& self.commit_index <= later.entries.len()
        &&& later.entries.take(self.commit_index as int) == self.entries.take(
            self.commit_index as int,
        )
    }

    /// Whether `es` is a run that can be spliced in: its indexes follow each
    /// other, and it starts within the log or just behind it.
    pub open spec fn accepts(self, es: Seq<EntryView>) -> bool {
        es.len() > 0 ==> {
            &&& 1 <= es[0].index <= self.entries.len() + 1
            &&& forall|i: int| 0 <= i < es.len() ==> (#[trigger] es[i]).index == es[0].index + i
        }
    }

    /// Whether the log holds an entry with the index and term of `e`.
    pub open spec fn agrees(self, e: EntryView) -> bool {
        1 <= e.index <= self.entries.len() && self.entries[e.index - 1].term == e.term
    }

    /// Whether `k` entries at the front of `es` agree with the log and the
    /// next one, if there is one, does not.
    pub open spec fn conflict_at(self, es: Seq<EntryView>, k: int) -> bool {
        &&& 0 <= k <= es.len()
        &&& forall|i: int| 0 <= i < k ==> self.agrees(#[trigger] es[i])
        &&& k < es.len() ==> !self.agrees(es[k])
    }

    /// The number of entries at the front of `es` that agree with the log.
    pub open spec fn agreeing(self, es: Seq<EntryView>) -> int {
        choose|k: int| self.conflict_at(es, k)
    }

    /// Whether splicing `es` in would remove a committed entry.
    pub open spec fn splice_hits_committed(self, es: Seq<EntryView>) -> bool {
        self.agreeing(es) < es.len() && es[self.agreeing(es)].index <= self.commit_index
    }

    /// The log after the run `es` is spliced in: unchanged where all of `es`
    /// agrees with it, and else cut before the first entry that does not
    /// agree and continued with that entry and those behind it.
    pub open spec fn splice(self, es: Seq<EntryView>) -> LogView {
        let k = self.agreeing(es);
        if k >= es.len() {
            self
        } else {
            LogView {
                entries: self.entries.take(es[k].index - 1) + es.subrange(k, es.len() as int),
                ..self
            }
        }
    }

    /// Some offset is the first conflict: the search from `j` on finds it.
    pub proof fn lemma_conflict_exists(self, es: Seq<EntryView>, j: int)
        requires
            0 <= j <= es.len(),
            forall|i: int| 0 <= i < j ==> self.agrees(#[trigger] es[i]),
        ensures
            self.conflict_at(es, self.agreeing(es)),
        decreases es.len() - j,
    {
        if j < es.len() && self.agrees(es[j]) {
            self.lemma_conflict_exists(es, j + 1);
        } else {
            assert(self.conflict_at(es, j));
        }
    }

    /// Appending keeps the log valid and what is committed.
    pub proof fn lemma_append(self, term: u64, command: Option<Seq<u8>>)
        requires
            self.valid(),
            self.entries.len() < u64::MAX,
        ensures
            self.append(term, command).valid(),
            self.committed_kept(self.append(term, command)),
    {
        let after = self.append(term, command);
        assert(after.entries.take(self.commit_index as int) =~= self.entries.take(
            self.commit_index as int,
        ));
    }

    /// Splicing a run in that is accepted and that spares what is committed
    /// keeps the log valid and what is committed.
    pub proof fn lemma_splice(self, es: Seq<EntryView>)
        requires
            self.valid(),
            self.accepts(es),
            !self.splice_hits_committed(es),
        ensures
            self.splice(es).valid(),
            self.committed_kept(self.splice(es)),
            self.splice(es).commit_index == self.commit_index,
            self.splice(es).term == self.term,
            self.splice(es).voted_for == self.voted_for,
    {
        self.lemma_conflict_exists(es, 0);
        let k = self.agreeing(es);
        let after = self.splice(es);
        if k < es.len() {
            let cut = es[k].index;
            assert(es[k].index == es[0].index + k);
            if k > 0 {
                assert(self.agrees(es[k - 1]));
                assert(es[k - 1].index == es[0].index + (k - 1));
            }
            assert(1 <= cut <= self.entries.len() + 1);
            assert(self.commit_index < cut);
            let kept = self.entries.take(cut - 1);
            assert(after.entries == kept + es.subrange(k, es.len() as int));
            assert forall|i: int| 0 <= i < after.entries.len() implies (
            #[trigger] after.entries[i]).index == i + 1 by {
                if i >= cut - 1 {
                    let j = k + (i - (cut - 1));
                    assert(after.entries[i] == es[j]);
                    assert(es[j].index == es[0].index + j);
                }
            }
            let last = es[es.len() - 1];
            assert(last.index == es[0].index + (es.len() - 1));
            assert(after.entries.len() == last.index);
            assert(after.entries.take(self.commit_index as int) =~= self.entries.take(
                self.commit_index as int,
            ));
        } else {
            assert(after.entries.take(self.commit_index as int) =~= self.entries.take(
                self.commit_index as int,
            ));
        }
    }

    /// Only one offset is the first conflict.
    pub proof fn lemma_agreeing(self, es: Seq<EntryView>, k: int)
        requires
            self.conflict_at(es, k),
        ensures
            self.agreeing(es) == k,
    {
        let c = self.agreeing(es);
        assert(self.conflict_at(es, c));
        if c < k {
            assert(self.agrees(es[c]));
        } else if k < c {
            assert(self.agrees(es[k]));
        }
    }
}

/// A replicated log over a store.
pub struct Log<S> {
    store: S,
    last_index: u64,
    last_term: u64,
    commit_index: u64,
    commit_term: u64,
}

impl<S: Store> Log<S> {
    /// What the log holds.
    pub closed spec fn view(&self) -> LogView {
        log_of(self.store@)
    }

    /// The log's consistency: the store holds a log, and the log's own
    /// record of its last and committed entries is that of the store.
    pub closed spec fn wf(&self) -> bool {
        &&& self.store.inv()
        &&& store_ok(self.store@)
        &&& self.last_index == self@.last_index()
        &&& self.last_term == self@.last_term()
        &&& self.commit_index == self@.commit_index
        &&& self.commit_term == self@.commit_term()
    }

    /// Whether the store behind the log never fails on its own account.
    pub closed spec fn reliable(&self) -> bool {
        self.store.reliable()
    }

    /// The name of the kind of store behind the log.
    pub open spec fn kind() -> Seq<char> {
        S::kind()
    }


    /// A consistent log has a valid value.
    pub proof fn lemma_valid(&self)
        requires
            self.wf(),
        ensures
            self@.valid(),
    {
    }

    /// Opens the log that `store` holds.
    ///
    /// Fails with `Internal` exactly where the store does not hold a log:
    /// where a raw entry does not decode to an entry with its own index, or
    /// the election record does not decode.
    pub fn new(store: S) -> (r: Result<Self, Error>)
        requires
            store.inv(),
        ensures
            match r {
                Ok(log) => {
                    &&& log.wf()
                    &&& store_ok(store@)
                    &&& log@ == log_of(store@)
                    &&& log.reliable() == store.reliable()
                },
                Err(e) => {
                    ||| e@ is Internal && !store_ok(store@)
                    ||| e@ is IO && !store.reliable()
                },
            },
    {
        proof {
            store.lemma_inv();
        }
        let len: u64 = store.len();
        let committed: u64 = store.committed();
        let mut last_term: u64 = 0;
        let mut commit_term: u64 = 0;
        let mut index: u64 = 0;
        while index < len
            invariant
                store.inv(),
                len == store@.entries.len(),
                committed == store@.committed,
                committed <= len,
                0 <= index <= len,
                entries_ok(store@.entries.take(index as int)),
                last_term == log_of(store@).term_at(index),
                commit_term == if committed <= index {
                    log_of(store@).term_at(committed)
                } else {
                    0
                },
            decreases len - index,
        {
            index += 1;
            let bytes = match store.get(index)? {
                Some(bytes) => bytes,
                None => {
                    return Err(Error::internal("Entry not found"));
                },
            };
            let entry = match Entry::decode(bytes.as_slice()) {
                Some(entry) => entry,
                None => {
                    return Err(Error::internal("Entry cannot be decoded"));
                },
            };
            if entry.index != index {
                return Err(Error::internal("Entry carries another index"));
            }
            last_term = entry.term;
            if index == committed {
                commit_term = entry.term;
            }
            proof {
                let prev = store@.entries.take(index - 1);
                let now = store@.entries.take(index as int);
                assert forall|i: int| 0 <= i < now.len() implies (#[trigger] decode_entry(
                    now[i],
                )) is Some && decode_entry(now[i])->0.index == i + 1 by {
                    if i < index - 1 {
                        assert(now[i] == prev[i]);
                    }
                }
            }
        }
        assert(store@.entries.take(index as int) =~= store@.entries);
        let key = "term_vote".as_bytes();
        match store.get_metadata(key)? {
            Some(bytes) => {
                if decode_election(bytes.as_slice()).is_none() {
                    return Err(Error::internal("Election record cannot be decoded"));
                }
            },
            None => {},
        }
        Ok(Log { store, last_index: len, last_term, commit_index: committed, commit_term })
    }

    /// The index of the last entry, or 0 for an empty log.
    pub fn last_index(&self) -> (r: u64)
        requires
            self.wf(),
        ensures
            r == self@.last_index(),
            r == self@.entries.len(),
    {
        self.last_index
    }

    /// The term of the last entry, or 0 for an empty log.
    pub fn last_term(&self) -> (r: u64)
        requires
            self.wf(),
        ensures
            r == self@.last_term(),
    {
        self.last_term
    }

    /// The index of the last committed entry, or 0 where there is none.
    pub fn commit_index(&self) -> (r: u64)
        requires
            self.wf(),
        ensures
            r == self@.commit_index,
    {
        self.commit_index
    }

    /// The term of the last committed entry, or 0 where there is none.
    pub fn commit_term(&self) -> (r: u64)
        requires
            self.wf(),
        ensures
            r == self@.commit_term(),
    {
        self.commit_term
    }

    /// The name of the kind of store behind the log.
    pub fn store_name(&self) -> (r: String)
        requires
            self.wf(),
        ensures
            r@ == Self::kind(),
    {
        self.store.name()
    }

    /// The number of bytes that the store holds for the entries, or
    /// `u64::MAX` where that number does not fit.
    pub fn store_size(&self) -> (r: u64)
        requires
            self.wf(),
        ensures
            r == self@.size(),
    {
        proof {
            lemma_entries_size(self.store@.entries);
        }
        self.store.size()
    }

    /// Appends a command to the log, and returns the new entry. The entry is
    /// not yet committed.
    pub fn append(&mut self, term: u64, command: Option<Vec<u8>>) -> (r: Result<Entry, Error>)
        requires
            old(self).wf(),
        ensures
            final(self).wf(),
            final(self).reliable() == old(self).reliable(),
            match r {
                Ok(entry) => {
                    &&& entry@ == (EntryView {
                        index: (old(self)@.entries.len() + 1) as u64,
                        term,
                        command: match command {
                            Some(c) => Some(c@),
                            None => None,
                        },
                    })
                    &&& final(self)@ == old(self)@.append(term, entry@.command)
                },
                Err(e) => {
                    &&& final(self)@ == old(self)@
                    &&& {
                        ||| e@ is Internal && old(self)@.entries.len() >= u64::MAX
                        ||| e@ is IO && !old(self).reliable()
                    }
                },
            },
    {
        if self.last_index == u64::MAX {
            return Err(Error::internal("Cannot append to a full log"));
        }
        let entry = Entry { index: self.last_index + 1, term, command };
        let bytes = entry.encode();
        self.store.append(bytes)?;
        self.last_index = entry.index;
        self.last_term = entry.term;
        proof {
            let before = old(self).store@.entries;
            let after = self.store@.entries;
            assert forall|i: int| 0 <= i < after.len() implies (#[trigger] decode_entry(
                after[i],
            )) is Some && decode_entry(after[i])->0.index == i + 1 by {
                if i < before.len() {
                    assert(after[i] == before[i]);
                }
            }
            assert(decoded(after) =~= decoded(before).push(entry@));
        }
        Ok(entry)
    }

    /// The entry at `index`, if there is one. There is none at index 0.
    pub fn get(&self, index: u64) -> (r: Result<Option<Entry>, Error>)
        requires
            self.wf(),
        ensures
            match r {
                Ok(Some(entry)) => self@.get(index) == Some(entry@),
                Ok(None) => self@.get(index) is None,
                Err(e) => e@ is IO && !self.reliable(),
            },
    {
        match self.store.get(index)? {
            Some(bytes) => {
                match Entry::decode(bytes.as_slice()) {
                    Some(entry) => Ok(Some(entry)),
                    None => {
                        proof {
                            assert(decode_entry(self.store@.entries[index - 1]) is Some);
                        }
                        Ok(None)
                    },
                }
            },
            None => Ok(None),
        }
    }

    /// Whether the log holds an entry at `index` with the term `term`. The
    /// place before the first entry, index 0, has the term 0.
    pub fn has(&self, index: u64, term: u64) -> (r: Result<bool, Error>)
        requires
            self.wf(),
        ensures
            match r {
                Ok(b) => b == self@.has(index, term),
                Err(e) => e@ is IO && !self.reliable(),
            },
    {
        match self.get(index)? {
            Some(entry) => Ok(entry.term == term),
            None => Ok(index == 0 && term == 0),
        }
    }

    /// The entries whose index lies in `range`, in order.
    pub fn scan(&self, range: Range) -> (r: Result<Vec<Entry>, Error>)
        requires
            self.wf(),
        ensures
            match r {
                Ok(entries) => entry_views(entries@) == range.select(self@.entries),
                Err(e) => e@ is IO && !self.reliable(),
            },
    {
        let found = self.store.scan(range)?;
        let ghost all = self.store@.entries;
        let ghost from = range.from(all.len()) as int;
        let mut entries: Vec<Entry> = Vec::new();
        let mut i: usize = 0;
        assert(raw(found@).len() == found@.len());
        while i < found.len()
            invariant
                self.wf(),
                from + found@.len() == range.upto(all.len()) <= all.len(),
                all == self.store@.entries,
                from == range.from(all.len()),
                raw(found@) == range.select(all),
                0 <= i <= found@.len(),
                entries@.len() == i,
                forall|j: int| 0 <= j < i ==> (#[trigger] entries@[j])@ == decoded(all)[from + j],
            decreases found@.len() - i,
        {
            proof {
                assert(raw(found@)[i as int] == all[from + i]);
                assert(decode_entry(all[from + i]) is Some);
            }
            match Entry::decode(found[i].as_slice()) {
                Some(entry) => {
                    entries.push(entry);
                },
                None => {
                    assert(false);
                },
            }
            i += 1;
        }
        proof {
            assert(raw(found@).len() == found@.len());
            assert(entry_views(entries@) =~= range.select(self@.entries));
        }
        Ok(entries)
    }

    /// Commits the entries up to `index`, and returns `index`.
    ///
    /// Fails with `Internal` exactly where `index` lies behind the last
    /// entry or before the commit mark.
    pub fn commit(&mut self, index: u64) -> (r: Result<u64, Error>)
        requires
            old(self).wf(),
        ensures
            final(self).wf(),
            final(self).reliable() == old(self).reliable(),
            match r {
                Ok(i) => {
                    &&& i == index
                    &&& old(self)@.commit_index <= index <= old(self)@.entries.len()
                    &&& final(self)@ == (LogView { commit_index: index, ..old(self)@ })
                },
                Err(e) => {
                    &&& final(self)@ == old(self)@
                    &&& {
                        ||| e@ is Internal && (index > old(self)@.entries.len() || index
                            < old(self)@.commit_index)
                        ||| e@ is IO && !old(self).reliable()
                    }
                },
            },
    {
        if index > self.last_index {
            return Err(Error::internal("Cannot commit an entry that is not there"));
        }
        if index < self.commit_index {
            return Err(Error::internal("Cannot commit below the commit index"));
        }
        let term: u64 = match self.get(index)? {
            Some(entry) => entry.term,
            None => 0,
        };
        self.store.commit(index)?;
        self.commit_index = index;
        self.commit_term = term;
        Ok(index)
    }

    /// Removes the entries above `index`, and returns the index of the last
    /// entry left.
    ///
    /// Fails with `Internal` exactly where `index` lies before the commit
    /// mark: a committed entry is never removed.
    pub fn truncate(&mut self, index: u64) -> (r: Result<u64, Error>)
        requires
            old(self).wf(),
        ensures
            final(self).wf(),
            final(self).reliable() == old(self).reliable(),
            match r {
                Ok(last) => {
                    &&& index >= old(self)@.commit_index
                    &&& final(self)@ == old(self)@.truncate(index)
                    &&& last == final(self)@.entries.len()
                },
                Err(e) => {
                    &&& final(self)@ == old(self)@
                    &&& {
                        ||| e@ is Internal && index < old(self)@.commit_index
                        ||| e@ is IO && !old(self).reliable()
                    }
                },
            },
    {
        if index < self.commit_index {
            return Err(Error::internal("Cannot truncate below the commit index"));
        }
        if index >= self.last_index {
            return Ok(self.last_index);
        }
        let term: u64 = match self.get(index)? {
            Some(entry) => entry.term,
            None => 0,
        };
        let last = self.store.truncate(index)?;
        self.last_index = last;
        self.last_term = term;
        proof {
            let before = old(self).store@.entries;
            let after = self.store@.entries;
            assert forall|i: int| 0 <= i < after.len() implies (#[trigger] decode_entry(
                after[i],
            )) is Some && decode_entry(after[i])->0.index == i + 1 by {
                assert(after[i] == before[i]);
            }
            assert(decoded(after) =~= decoded(before).take(index as int));
        }
        Ok(last)
    }

    /// Splices a run of entries from a leader into the log, and returns the
    /// index of the last entry of the log.
    ///
    /// An entry that the log already holds with the same term is kept. At the
    /// first entry that the log does not hold so, the log is cut before that
    /// entry's index, and that entry and those behind it are appended.
    ///
    /// Fails with `Internal`, and leaves the log as it was, exactly where the
    /// run is not accepted (its indexes do not follow each other, or it
    /// starts at index 0 or beyond the end of the log), or where the cut
    /// would remove a committed entry.
    pub fn splice(&mut self, entries: Vec<Entry>) -> (r: Result<u64, Error>)
        requires
            old(self).wf(),
        ensures
            final(self).wf(),
            final(self).reliable() == old(self).reliable(),
            old(self)@.committed_kept(final(self)@),
            final(self)@.commit_index == old(self)@.commit_index,
            final(self)@.term == old(self)@.term,
            final(self)@.voted_for == old(self)@.voted_for,
            match r {
                Ok(last) => {
                    &&& old(self)@.accepts(entry_views(entries@))
                    &&& !old(self)@.splice_hits_committed(entry_views(entries@))
                    &&& final(self)@ == old(self)@.splice(entry_views(entries@))
                    &&& last == final(self)@.entries.len()
                },
                Err(e) => {
                    ||| {
                        &&& e@ is Internal
                        &&& final(self)@ == old(self)@
                        &&& (!old(self)@.accepts(entry_views(entries@))
                            || old(self)@.splice_hits_committed(entry_views(entries@)))
                    }
                    ||| e@ is IO && !old(self).reliable()
                },
            },
    {
        let ghost es = entry_views(entries@);
        let ghost before = self@;
        let n: usize = entries.len();
        if n == 0 {
            proof {
                before.lemma_agreeing(es, 0);
            }
            return Ok(self.last_index);
        }
        let first: u64 = entries[0].index;
        if first == 0 || first - 1 > self.last_index {
            assert(es[0].index == first);
            return Err(Error::internal("Spliced entries must begin within the log"));
        }
        let mut i: usize = 0;
        while i < n
            invariant
                self.wf(),
                *self == *old(self),
                n == entries@.len(),
                es == entry_views(entries@),
                first == es[0].index,
                0 <= i <= n,
                forall|j: int| 0 <= j < i ==> (#[trigger] es[j]).index == first + j,
            decreases n - i,
        {
            let index: u64 = entries[i].index;
            assert(es[i as int].index == index);
            if index < first || index - first != i as u64 {
                return Err(Error::internal("Spliced entries must be contiguous"));
            }
            i += 1;
        }
        assert(before.accepts(es));
        let mut k: usize = 0;
        while k < n
            invariant
                self.wf(),
                self@ == before,
                *self == *old(self),
                n == entries@.len(),
                es == entry_views(entries@),
                before.accepts(es),
                0 <= k <= n,
                forall|j: int| 0 <= j < k ==> before.agrees(#[trigger] es[j]),
            ensures
                before.conflict_at(es, k as int),
            decreases n - k,
        {
            assert(es[k as int] == entries@[k as int]@);
            let agrees = match self.get(entries[k].index)? {
                Some(current) => current.term == entries[k].term,
                None => false,
            };
            if !agrees {
                break ;
            }
            k += 1;
        }
        proof {
            before.lemma_agreeing(es, k as int);
        }
        if k == n {
            return Ok(self.last_index);
        }
        let cut: u64 = entries[k].index;
        assert(es[k as int].index == cut);
        if cut <= self.commit_index {
            return Err(Error::internal("Cannot splice below the commit index"));
        }
        proof {
            self.lemma_valid();
            if k > 0 {
                assert(before.agrees(es[k - 1]));
                assert(es[k - 1].index == es[0].index + (k - 1));
            }
            assert(es[k as int].index == es[0].index + k);
            assert(cut - 1 <= before.entries.len());
        }
        self.truncate(cut - 1)?;
        let ghost kept = before.entries.take(cut - 1);
        assert(self@.entries =~= kept);
        assert(before.committed_kept(self@)) by {
            assert(self@.entries.take(before.commit_index as int) =~= before.entries.take(
                before.commit_index as int,
            ));
        }
        let mut entries = entries;
        let mut j: usize = k;
        while j < n
            invariant
                self.wf(),
                self.reliable() == old(self).reliable(),
                before == old(self)@,
                n == entries@.len(),
                k <= j <= n,
                es.len() == n,
                forall|m: int| j <= m < n ==> (#[trigger] entries@[m])@ == es[m],
                forall|m: int| 0 <= m < n ==> (#[trigger] es[m]).index == es[0].index + m,
                cut == es[k as int].index,
                cut >= 1,
                kept.len() == cut - 1,
                before.commit_index < cut,
                kept.take(before.commit_index as int) == before.entries.take(
                    before.commit_index as int,
                ),
                self@ == (LogView { entries: kept + es.subrange(k as int, j as int), ..before }),
            decreases n - j,
        {
            let term: u64 = entries[j].term;
            let command: Option<Vec<u8>> = entries[j].command.take();
            let ghost prev = self@;
            assert(es[j as int].index == cut + (j - k));
            assert(prev.entries.len() == cut - 1 + (j - k));
            let ghost want = es[j as int];
            match self.append(term, command) {
                Ok(_) => {},
                Err(e) => {
                    proof {
                        assert(self@.entries.take(before.commit_index as int) =~= kept.take(
                            before.commit_index as int,
                        ));
                    }
                    return Err(e);
                },
            }
            j += 1;
            proof {
                assert(self@.entries =~= kept + es.subrange(k as int, j as int));
            }
        }
        proof {
            assert(self@.entries.take(before.commit_index as int) =~= kept.take(
                before.commit_index as int,
            ));
        }
        Ok(self.last_index)
    }

    /// The election record: the term and the vote that were saved last, or
    /// term 0 and no vote where none was saved.
    pub fn load_term(&self) -> (r: Result<(u64, Option<String>), Error>)
        requires
            self.wf(),
        ensures
            match r {
                Ok((term, vote)) => term == self@.term && self@.voted_for == match vote {
                    Some(s) => Some(s@),
                    None => None,
                },
                Err(e) => e@ is IO && !self.reliable(),
            },
    {
        match self.store.get_metadata("term_vote".as_bytes())? {
            Some(bytes) => match decode_election(bytes.as_slice()) {
                Some(record) => Ok(record),
                None => {
                    assert(false);
                    Ok((0, None))
                },
            },
            None => Ok((0, None)),
        }
    }

    /// Saves the election record. Term and vote are written in one piece:
    /// after a failure the log holds the old record.
    pub fn save_term(&mut self, term: u64, voted_for: Option<&str>) -> (r: Result<(), Error>)
        requires
            old(self).wf(),
        ensures
            final(self).wf(),
            final(self).reliable() == old(self).reliable(),
            match r {
                Ok(()) => final(self)@ == (LogView {
                    term,
                    voted_for: match voted_for {
                        Some(s) => Some(s@),
                        None => None,
                    },
                    ..old(self)@
                }),
                Err(e) => final(self)@ == old(self)@ && e@ is IO && !old(self).reliable(),
            },
    {
        let bytes = encode_election(term, voted_for);
        proof {
            lemma_decode_encode_term_vote(
                term,
                match voted_for {
                    Some(s) => Some(s@),
                    None => None,
                },
            );
        }
        self.store.set_metadata("term_vote".as_bytes(), bytes)
    }
}

} // verus!
