//! How a log entry and the election record are laid out in bytes.
//!
//! An entry is its index and its term, each as eight bytes with the least
//! significant first, then one byte that says whether a command follows, and,
//! where one does, the command's length in eight bytes and the command.
//! The election record is the term in eight bytes, one byte that says whether
//! a vote follows, and, where one does, the name voted for in UTF-8.

use crate::bytes::{append_bytes, copy_bytes};
use vstd::bytes::{
    lemma_auto_spec_u64_to_from_le_bytes, spec_u64_from_le_bytes, spec_u64_to_le_bytes,
    u64_from_le_bytes, u64_to_le_bytes,
};
use vstd::prelude::*;
use vstd::slice::slice_subrange;
use vstd::utf8::{
    decode_utf8, encode_utf8, encode_utf8_decode_utf8, encode_utf8_valid_utf8, valid_utf8,
};

verus! {

/// One entry of the replicated log. A missing command is a no-op.
#[derive(Debug, PartialEq, Eq)]
pub struct Entry {
    pub index: u64,
    pub term: u64,
    pub command: Option<Vec<u8>>,
}

/// The mathematical value of an [`Entry`].
pub struct EntryView {
    pub index: u64,
    pub term: u64,
    pub command: Option<Seq<u8>>,
}

impl View for Entry {
    type V = EntryView;

    open spec fn view(&self) -> EntryView {
        EntryView {
            index: self.index,
            term: self.term,
            command: match self.command {
                Some(c) => Some(c@),
                None => None,
            },
        }
    }
}

/// A copy of the bytes, where there are any.
pub fn copy_command(c: &Option<Vec<u8>>) -> (r: Option<Vec<u8>>)
    ensures
        r is Some == c is Some,
        r is Some ==> r->0@ == c->0@,
{
    match c {
        Some(v) => Some(copy_bytes(v)),
        None => None,
    }
}

impl Clone for Entry {
    fn clone(&self) -> (r: Self)
        ensures
            r@ == self@,
    {
        Entry { index: self.index, term: self.term, command: copy_command(&self.command) }
    }
}

/// The views of the entries of a vector.
pub open spec fn entry_views(entries: Seq<Entry>) -> Seq<EntryView> {
    Seq::new(entries.len(), |i: int| entries[i]@)
}

/// The bytes of an entry whose command, if any, is shorter than 2^64 bytes.
pub open spec fn encode_entry(e: EntryView) -> Seq<u8> {
    spec_u64_to_le_bytes(e.index) + spec_u64_to_le_bytes(e.term) + match e.command {
        None => seq![0u8],
        Some(c) => seq![1u8] + spec_u64_to_le_bytes(c.len() as u64) + c,
    }
}

/// The entry that the bytes hold, if they are the bytes of an entry.
pub open spec fn decode_entry(b: Seq<u8>) -> Option<EntryView> {
    if b.len() < 17 {
        None
    } else {
        let index = spec_u64_from_le_bytes(b.subrange(0, 8));
        let term = spec_u64_from_le_bytes(b.subrange(8, 16));
        if b[16] == 0u8 && b.len() == 17 {
            Some(EntryView { index, term, command: None })
        } else if b[16] == 1u8 && b.len() >= 25 && spec_u64_from_le_bytes(b.subrange(17, 25))
            == b.len() - 25 {
            Some(EntryView { index, term, command: Some(b.subrange(25, b.len() as int)) })
        } else {
            None
        }
    }
}

/// Decoding what was encoded gives the entry back.
pub proof fn lemma_decode_encode_entry(e: EntryView)
    requires
        e.command is Some ==> e.command->0.len() <= u64::MAX,
    ensures
        decode_entry(encode_entry(e)) == Some(e),
{
    lemma_auto_spec_u64_to_from_le_bytes();
    let b = encode_entry(e);
    assert(b.subrange(0, 8) =~= spec_u64_to_le_bytes(e.index));
    assert(b.subrange(8, 16) =~= spec_u64_to_le_bytes(e.term));
    match e.command {
        None => {
            assert(b.len() == 17);
            assert(b[16] == 0u8);
        },
        Some(c) => {
            assert(b.len() == 25 + c.len());
            assert(b[16] == 1u8);
            assert(b.subrange(17, 25) =~= spec_u64_to_le_bytes(c.len() as u64));
            assert(b.subrange(25, b.len() as int) =~= c);
        },
    }
}

/// Only one sequence of bytes decodes to a given entry.
pub proof fn lemma_encode_decode_entry(b: Seq<u8>)
    requires
        decode_entry(b) is Some,
    ensures
        encode_entry(decode_entry(b)->0) == b,
{
    lemma_auto_spec_u64_to_from_le_bytes();
    let e = decode_entry(b)->0;
    assert(spec_u64_to_le_bytes(spec_u64_from_le_bytes(b.subrange(0, 8))) == b.subrange(0, 8));
    assert(spec_u64_to_le_bytes(spec_u64_from_le_bytes(b.subrange(8, 16))) == b.subrange(8, 16));
    if b[16] == 0u8 && b.len() == 17 {
        assert(encode_entry(e) =~= b);
    } else {
        assert(spec_u64_to_le_bytes(spec_u64_from_le_bytes(b.subrange(17, 25))) == b.subrange(
            17,
            25,
        ));
        assert(encode_entry(e) =~= b);
    }
}

impl Entry {
    /// The bytes of the entry.
    pub fn encode(&self) -> (r: Vec<u8>)
        ensures
            r@ == encode_entry(self@),
            decode_entry(r@) == Some(self@),
    {
        let mut r = u64_to_le_bytes(self.index);
        let term = u64_to_le_bytes(self.term);
        append_bytes(&mut r, term.as_slice());
        match &self.command {
            None => {
                r.push(0u8);
                assert(r@ =~= encode_entry(self@));
            },
            Some(c) => {
                r.push(1u8);
                let len = u64_to_le_bytes(c.len() as u64);
                append_bytes(&mut r, len.as_slice());
                append_bytes(&mut r, c.as_slice());
                assert(r@ =~= encode_entry(self@));
            },
        }
        proof {
            lemma_decode_encode_entry(self@);
        }
        r
    }

    /// The entry that the bytes hold, if they are the bytes of an entry.
    pub fn decode(b: &[u8]) -> (r: Option<Entry>)
        ensures
            match r {
                Some(e) => decode_entry(b@) == Some(e@),
                None => decode_entry(b@) is None,
            },
    {
        if b.len() < 17 {
            return None;
        }
        let index = u64_from_le_bytes(slice_subrange(b, 0, 8));
        let term = u64_from_le_bytes(slice_subrange(b, 8, 16));
        if b[16] == 0u8 && b.len() == 17 {
            Some(Entry { index, term, command: None })
        } else if b[16] == 1u8 && b.len() >= 25 {
            let len = u64_from_le_bytes(slice_subrange(b, 17, 25));
            if len == (b.len() - 25) as u64 {
                let mut c: Vec<u8> = Vec::new();
                append_bytes(&mut c, slice_subrange(b, 25, b.len()));
                assert(c@ =~= b@.subrange(25, b@.len() as int));
                Some(Entry { index, term, command: Some(c) })
            } else {
                None
            }
        } else {
            None
        }
    }
}

/// The bytes of the election record.
pub open spec fn encode_term_vote(term: u64, voted_for: Option<Seq<char>>) -> Seq<u8> {
    spec_u64_to_le_bytes(term) + match voted_for {
        None => seq![0u8],
        Some(name) => seq![1u8] + encode_utf8(name),
    }
}

/// The election record that the bytes hold, if they hold one.
pub open spec fn decode_term_vote(b: Seq<u8>) -> Option<(u64, Option<Seq<char>>)> {
    if b.len() < 9 {
        None
    } else {
        let term = spec_u64_from_le_bytes(b.subrange(0, 8));
        if b[8] == 0u8 && b.len() == 9 {
            Some((term, None))
        } else if b[8] == 1u8 && valid_utf8(b.subrange(9, b.len() as int)) {
            Some((term, Some(decode_utf8(b.subrange(9, b.len() as int)))))
        } else {
            None
        }
    }
}

/// Decoding the bytes of an election record gives the record back.
pub proof fn lemma_decode_encode_term_vote(term: u64, voted_for: Option<Seq<char>>)
    ensures
        decode_term_vote(encode_term_vote(term, voted_for)) == Some((term, voted_for)),
{
    lemma_auto_spec_u64_to_from_le_bytes();
    let b = encode_term_vote(term, voted_for);
    assert(b.subrange(0, 8) =~= spec_u64_to_le_bytes(term));
    match voted_for {
        None => {
            assert(b.len() == 9);
            assert(b[8] == 0u8);
        },
        Some(name) => {
            assert(b[8] == 1u8);
            assert(b.subrange(9, b.len() as int) =~= encode_utf8(name));
            encode_utf8_valid_utf8(name);
            encode_utf8_decode_utf8(name);
        },
    }
}

/// The text that the bytes spell in UTF-8.
///
/// This is `String::from_utf8` of the standard library, which is taken on
/// trust: it gives the text whose UTF-8 encoding the bytes are, and gives
/// none exactly where the bytes are not valid UTF-8.
#[verifier::external_body]
fn text_from_utf8(bytes: Vec<u8>) -> (r: Option<String>)
    ensures
        match r {
            Some(s) => valid_utf8(bytes@) && s@ == decode_utf8(bytes@),
            None => !valid_utf8(bytes@),
        },
{
    match String::from_utf8(bytes) {
        Ok(s) => Some(s),
        Err(_) => None,
    }
}

/// The bytes of the election record.
pub fn encode_election(term: u64, voted_for: Option<&str>) -> (r: Vec<u8>)
    ensures
        r@ == encode_term_vote(
            term,
            match voted_for {
                Some(s) => Some(s@),
                None => None,
            },
        ),
{
    let mut r = u64_to_le_bytes(term);
    match voted_for {
        None => {
            r.push(0u8);
        },
        Some(name) => {
            r.push(1u8);
            append_bytes(&mut r, name.as_bytes());
        },
    }
    assert(r@ =~= encode_term_vote(
        term,
        match voted_for {
            Some(s) => Some(s@),
            None => None,
        },
    ));
    r
}

/// The election record that the bytes hold, if they hold one.
pub fn decode_election(b: &[u8]) -> (r: Option<(u64, Option<String>)>)
    ensures
        match r {
            Some((term, vote)) => decode_term_vote(b@) == Some(
                (
                    term,
                    match vote {
                        Some(s) => Some(s@),
                        None => None,
                    },
                ),
            ),
            None => decode_term_vote(b@) is None,
        },
{
    if b.len() < 9 {
        return None;
    }
    let term = u64_from_le_bytes(slice_subrange(b, 0, 8));
    if b[8] == 0u8 && b.len() == 9 {
        Some((term, None))
    } else if b[8] == 1u8 {
        let mut name: Vec<u8> = Vec::new();
        append_bytes(&mut name, slice_subrange(b, 9, b.len()));
        assert(name@ =~= b@.subrange(9, b@.len() as int));
        match text_from_utf8(name) {
            Some(s) => Some((term, Some(s))),
            None => None,
        }
    } else {
        None
    }
}

} // verus!
