//! The proof that what a leader has committed is in the log of every
//! leader of a later term, in the runs in which no follower acknowledges
//! more than its leader has.
//!
//! A follower that has taken entries names the end of its own log in its
//! answer, and its leader counts the follower's log as its own up to there.
//! That is sound where the follower's log is the leader's log, or the
//! beginning of it. It is not where the follower's log goes on, behind the
//! entries that it was sent, with entries of an earlier leader that the
//! leader of its term never had. The proof here is of the runs without such
//! an answer: see `Cluster::honest`.

use crate::raft::cluster::{acknowledges, begins, between, carries, grants_to, vote, Cluster};
use crate::raft::codec::EntryView;
use crate::raft::log::LogView;
use crate::raft::matching::{lemma_splice_snapshot, same_term_at};
use crate::raft::message::{AddressView, EventView, MessageView};
use crate::raft::node::commitment::{
    acknowledged, last_term_of, peer_lasts, records, sound, tallies, up_to_date,
};
use crate::raft::node::election::{elects, granted, tally, voter};
use crate::assoc::{distinct_keys, values_of};
use crate::raft::node::commitment::lemma_count_ge_first;
use crate::raft::node::leader::count_ge;
use crate::raft::node::replication::{is_prefix, replicates, snapshot, snapshot_between, spliced};
use crate::raft::node::safety::{commits_own, progress, Input};
use vstd::prelude::*;

verus! {

/// Whether the terms of the entries of the log do not fall.
pub open spec fn monotone(log: Seq<EntryView>) -> bool {
    forall|i: int, j: int| 0 <= i <= j < log.len() ==> (#[trigger] log[i]).term <= (#[trigger] log[j]).term
}

/// Whether no entry of the log is of a term above `term`.
pub open spec fn bounded(log: Seq<EntryView>, term: u64) -> bool {
    forall|i: int| 0 <= i < log.len() ==> (#[trigger] log[i]).term <= term
}

/// Whether each entry of the log is of a term below `term`.
pub open spec fn below(log: Seq<EntryView>, term: u64) -> bool {
    forall|i: int| 0 <= i < log.len() ==> (#[trigger] log[i]).term < term
}

/// The beginning of the beginning of a log is a beginning of the log.
pub proof fn lemma_prefix_trans(a: Seq<EntryView>, b: Seq<EntryView>, c: Seq<EntryView>)
    requires
        is_prefix(a, b),
        is_prefix(b, c),
    ensures
        is_prefix(a, c),
{
    assert forall|i: int| 0 <= i < a.len() implies #[trigger] c[i] == a[i] by {
        assert(b[i] == a[i]);
    }
}

/// A log up to some entry is a beginning of the log.
pub proof fn lemma_take_prefix(a: Seq<EntryView>, k: int)
    requires
        0 <= k <= a.len(),
    ensures
        is_prefix(a.take(k), a),
{
}

/// Two beginnings of one log are each other's beginning, one way or the
/// other.
pub proof fn lemma_prefixes_ordered(a: Seq<EntryView>, b: Seq<EntryView>, c: Seq<EntryView>)
    requires
        is_prefix(a, c),
        is_prefix(b, c),
    ensures
        is_prefix(a, b) || is_prefix(b, a),
{
    if a.len() <= b.len() {
        assert forall|i: int| 0 <= i < a.len() implies #[trigger] b[i] == a[i] by {
            assert(c[i] == a[i] && c[i] == b[i]);
        }
    } else {
        assert forall|i: int| 0 <= i < b.len() implies #[trigger] a[i] == b[i] by {
            assert(c[i] == a[i] && c[i] == b[i]);
        }
    }
}

/// A beginning of a log is the log up to its length.
pub proof fn lemma_prefix_take(a: Seq<EntryView>, b: Seq<EntryView>)
    requires
        is_prefix(a, b),
    ensures
        a == b.take(a.len() as int),
{
    assert(a =~= b.take(a.len() as int));
}

/// A follower that splices in the end of a log that is a beginning of its
/// own log keeps its own log.
pub proof fn lemma_splice_shorter(log: LogView, led: Seq<EntryView>, w: MessageView)
    requires
        log.valid(),
        snapshot(led, w),
        is_prefix(led, log.entries),
    ensures
        log.splice(w.event->ReplicateEntries_entries).entries == log.entries,
{
    let b = w.event->ReplicateEntries_base_index as int;
    let es = w.event->ReplicateEntries_entries;
    assert forall|j: int| 0 <= j < es.len() implies log.agrees(#[trigger] es[j]) by {
        assert(es[j] == led[b + j]);
        assert(log.entries[b + j] == led[b + j]);
    }
    assert(log.conflict_at(es, es.len() as int));
    log.lemma_agreeing(es, es.len() as int);
}

impl Cluster {
    /// Whether some leader of the term `t` has had a log with an entry of
    /// that term at offset `i`.
    pub open spec fn owned(self, t: u64, i: int) -> bool {
        exists|s: Seq<EntryView>| #[trigger] self.led_at.contains((t, s)) && 0 <= i < s.len() && s[i].term == t
    }

    /// Whether some leader of the term of the message has had a log of
    /// which the message hands on the end.
    pub open spec fn led_snapshot_at(self, w: MessageView) -> bool {
        exists|x: Seq<EntryView>| #[trigger] self.led_at.contains((w.term, x)) && snapshot(x, w)
    }

    /// Whether each log that a leader has had in a term is a log of the
    /// cluster with its entries at their indexes, in a term that was won.
    pub open spec fn led_known(self) -> bool {
        forall|t: u64, x: Seq<EntryView>| #[trigger]
            self.led_at.contains((t, x)) ==> {
                &&& self.led.contains(x)
                &&& self.term_won(t)
                &&& bounded(x, t)
            }
    }

    /// Whether the log of each leader begins with each log that it has had
    /// in its term.
    pub open spec fn led_kept(self) -> bool {
        forall|t: u64, x: Seq<EntryView>, c: Seq<char>|
            #![trigger self.led_at.contains((t, x)), self.won.contains((c, t))]
            self.led_at.contains((t, x)) && self.won.contains((c, t)) && self.nodes[c].term
                == t ==> is_prefix(x, self.nodes[c].log.entries)
    }

    /// Whether of two logs that a leader has had in one term one is the
    /// beginning of the other.
    pub open spec fn led_ordered(self) -> bool {
        forall|t: u64, x: Seq<EntryView>, y: Seq<EntryView>|
            #![trigger self.led_at.contains((t, x)), self.led_at.contains((t, y))]
            self.led_at.contains((t, x)) && self.led_at.contains((t, y)) ==> is_prefix(x, y)
                || is_prefix(y, x)
    }

    /// Whether each message with entries hands on the end of a log that
    /// the leader of its term has had.
    pub open spec fn replicas_led_at(self) -> bool {
        forall|w: MessageView| #[trigger]
            self.sent.contains(w) && w.event is ReplicateEntries ==> self.led_snapshot_at(w)
    }

    /// Whether the log of each leader is known as one that it has had in
    /// its term.
    pub open spec fn leaders_logged(self) -> bool {
        forall|id: Seq<char>| #[trigger]
            self.nodes.contains_key(id) && self.nodes[id].role is Leader ==> self.led_at.contains(
                (self.nodes[id].term, self.nodes[id].log.entries),
            )
    }

    /// Whether each entry of each log stands, at its place, in a log that
    /// a leader of its term has had.
    pub open spec fn entries_owned(self) -> bool {
        forall|x: Seq<EntryView>, i: int| #[trigger]
            self.holds_entry(x, i) ==> self.owned(x[i].term, i)
    }

    /// Whether the terms of the entries of each log do not fall.
    pub open spec fn logs_monotone(self) -> bool {
        forall|x: Seq<EntryView>| #[trigger] self.has_log(x) ==> monotone(x)
    }

    /// Whether no entry of the log of a node is of a term above the
    /// node's.
    pub open spec fn logs_bounded(self) -> bool {
        forall|id: Seq<char>| #[trigger]
            self.nodes.contains_key(id) ==> bounded(self.nodes[id].log.entries, self.nodes[id].term)
    }

    /// What holds of the logs that the leaders have had.
    pub open spec fn tagged(self) -> bool {
        &&& self.led_known()
        &&& self.led_kept()
        &&& self.led_ordered()
        &&& self.replicas_led_at()
        &&& self.leaders_logged()
        &&& self.entries_owned()
        &&& self.logs_monotone()
        &&& self.logs_bounded()
    }

    /// All that holds of a cluster of the two proofs before this one.
    pub open spec fn settled(self) -> bool {
        &&& self.inv()
        &&& self.history()
        &&& self.logs_inv()
    }

    /// Whether the step is one of the node `id` from `n` to `m`, of which
    /// all is known that the node's rules give.
    pub open spec fn stepped(self, after: Cluster, id: Seq<char>, input: Input) -> bool {
        &&& self.next(after, id, input)
        &&& after.nodes[id].wf()
        &&& elects(self.nodes[id], input, after.nodes[id])
        &&& replicates(self.nodes[id], input, after.nodes[id])
        &&& records(self.nodes[id], input, after.nodes[id])
        &&& tallies(self.nodes[id], input, after.nodes[id])
        &&& after.nodes[id].role is Leader ==> commits_own(self.nodes[id], after.nodes[id])
        &&& progress(self.nodes[id], after.nodes[id])
    }

    /// Each step is one of which all is known that the node's rules give.
    pub proof fn lemma_stepped(self, after: Cluster, id: Seq<char>, input: Input)
        requires
            self.inv(),
            self.next(after, id, input),
        ensures
            self.stepped(after, id, input),
    {
        let n = self.nodes[id];
        match input {
            Input::Message(msg) => {
                n.lemma_step(msg);
                n.lemma_step_elects(msg);
                n.lemma_step_replicates(msg);
                n.lemma_step_records(msg);
                n.lemma_step_tallies(msg);
            },
            Input::Tick => {
                n.lemma_tick();
                n.lemma_tick_elects();
                n.lemma_tick_replicates();
                n.lemma_tick_records();
                n.lemma_tick_tallies();
            },
        }
    }

    /// The log of a node that does not lead after its step is the log
    /// that it had, or a log that the leader of its term has had.
    pub proof fn lemma_follower_log(self, after: Cluster, id: Seq<char>, input: Input)
        requires
            self.settled(),
            self.tagged(),
            self.stepped(after, id, input),
            !(after.nodes[id].role is Leader),
        ensures
            after.nodes[id].log.entries == self.nodes[id].log.entries || {
                &&& self.led_at.contains((after.nodes[id].term, after.nodes[id].log.entries))
                &&& !is_prefix(after.nodes[id].log.entries, self.nodes[id].log.entries)
            },
    {
        let n = self.nodes[id];
        let m = after.nodes[id];
        if m.log.entries != n.log.entries {
            assert(spliced(n, input, m));
            match input {
                Input::Message(w) => {
                    match w.event {
                        EventView::ReplicateEntries { base_index, base_term, entries } => {
                            let log = choose|log: LogView|
                                {
                                    &&& log.valid()
                                    &&& log.entries == n.log.entries
                                    &&& base_index == 0 || log.has(base_index, base_term)
                                    &&& log.accepts(entries)
                                    &&& !log.splice_hits_committed(entries)
                                    &&& m.log.entries == (#[trigger] log.splice(entries)).entries
                                };
                            assert(self.sent.contains(w));
                            assert(self.led_snapshot_at(w));
                            let led = choose|x: Seq<EntryView>| #[trigger]
                                self.led_at.contains((w.term, x)) && snapshot(x, w);
                            assert(self.led.contains(led));
                            assert(self.kept_by(n.log.entries));
                            assert(self.has_log(n.log.entries) && self.has_log(led));
                            lemma_splice_snapshot(log, led, w);
                            if is_prefix(led, log.entries) {
                                lemma_splice_shorter(log, led, w);
                            }
                        },
                        _ => {},
                    }
                },
                Input::Tick => {},
            }
        }
    }

    /// No log that a leader has had in a term is known before a node comes
    /// to lead in that term.
    pub proof fn lemma_none_led(self, after: Cluster, id: Seq<char>, input: Input, x: Seq<EntryView>)
        requires
            self.settled(),
            self.tagged(),
            after.history(),
            self.stepped(after, id, input),
            after.nodes[id].role is Leader,
            self.led_at.contains((after.nodes[id].term, x)),
        ensures
            self.won.contains((id, after.nodes[id].term)),
            self.nodes[id].role is Leader,
            self.nodes[id].term == after.nodes[id].term,
            is_prefix(x, self.nodes[id].log.entries),
    {
        let t = after.nodes[id].term;
        assert(self.term_won(t));
        let c = choose|c: Seq<char>| #[trigger] self.won.contains((c, t));
        assert(after.won.contains((c, t)) && after.won.contains((id, t)));
        assert(c == id);
    }

    /// What holds of the logs that the leaders have had holds after every
    /// step.
    pub proof fn lemma_next_tagged(self, after: Cluster, id: Seq<char>, input: Input)
        requires
            self.settled(),
            self.tagged(),
            after.settled(),
            self.stepped(after, id, input),
        ensures
            after.tagged(),
    {
        self.lemma_next_led_known(after, id, input);
        self.lemma_next_led_kept(after, id, input);
        self.lemma_next_led_ordered(after, id, input);
        self.lemma_next_replicas_led_at(after, id, input);
        self.lemma_next_entries_owned(after, id, input);
        self.lemma_next_monotone(after, id, input);
    }

    /// Each log that a leader has had is still known.
    pub proof fn lemma_next_led_known(self, after: Cluster, id: Seq<char>, input: Input)
        requires
            self.settled(),
            self.tagged(),
            after.settled(),
            self.stepped(after, id, input),
        ensures
            after.led_known(),
            after.leaders_logged(),
            after.logs_bounded(),
    {
        let n = self.nodes[id];
        let m = after.nodes[id];
        assert(self.kept_by(n.log.entries));
        assert(bounded(n.log.entries, n.term));
        assert forall|t: u64, x: Seq<EntryView>| #[trigger] after.led_at.contains((t, x)) implies {
            &&& after.led.contains(x)
            &&& after.term_won(t)
            &&& bounded(x, t)
        } by {
            if self.led_at.contains((t, x)) {
                assert(self.term_won(t));
                let c = choose|c: Seq<char>| #[trigger] self.won.contains((c, t));
                assert(after.won.contains((c, t)));
            } else {
                let k = choose|k: int|
                    n.log.entries.len() <= k <= m.log.entries.len() && x == #[trigger] m.log.entries.take(k);
                assert(begins(x, m.log.entries));
                assert(after.won.contains((id, t)));
                assert forall|i: int| 0 <= i < x.len() implies (#[trigger] x[i]).term <= t by {
                    assert(x[i] == m.log.entries[i]);
                    if i < n.log.entries.len() {
                        assert(m.log.entries[i] == n.log.entries[i]);
                    }
                }
            }
        }
        assert forall|j: Seq<char>| #[trigger]
            after.nodes.contains_key(j) && after.nodes[j].role is Leader implies after.led_at.contains(
            (after.nodes[j].term, after.nodes[j].log.entries),
        ) by {
            assert(self.nodes.contains_key(j));
            if j == id {
                assert(m.log.entries.take(m.log.entries.len() as int) =~= m.log.entries);
                assert(between(n.log.entries.len(), m.log.entries, m.log.entries));
            }
        }
        assert forall|j: Seq<char>| #[trigger] after.nodes.contains_key(j) implies bounded(
            after.nodes[j].log.entries,
            after.nodes[j].term,
        ) by {
            assert(self.nodes.contains_key(j));
            if j == id {
                if m.role is Leader {
                    assert forall|i: int| 0 <= i < m.log.entries.len() implies (
                    #[trigger] m.log.entries[i]).term <= m.term by {
                        if i < n.log.entries.len() {
                            assert(m.log.entries[i] == n.log.entries[i]);
                        }
                    }
                } else {
                    self.lemma_follower_log(after, id, input);
                }
            }
        }
    }

    /// The log of each leader still begins with each log that it has had.
    pub proof fn lemma_next_led_kept(self, after: Cluster, id: Seq<char>, input: Input)
        requires
            self.settled(),
            self.tagged(),
            after.settled(),
            self.stepped(after, id, input),
        ensures
            after.led_kept(),
    {
        let n = self.nodes[id];
        let m = after.nodes[id];
        assert forall|t: u64, x: Seq<EntryView>, c: Seq<char>|
            #![trigger after.led_at.contains((t, x)), after.won.contains((c, t))]
            after.led_at.contains((t, x)) && after.won.contains((c, t)) && after.nodes[c].term
                == t implies is_prefix(x, after.nodes[c].log.entries) by {
            assert(after.nodes.contains_key(c));
            if self.led_at.contains((t, x)) {
                if c == id {
                    assert(m.role is Leader);
                    self.lemma_none_led(after, id, input, x);
                    lemma_prefix_trans(x, n.log.entries, m.log.entries);
                } else {
                    assert(self.won.contains((c, t)));
                }
            } else {
                assert(after.won.contains((id, t)));
                assert(c == id);
                let k = choose|k: int|
                    n.log.entries.len() <= k <= m.log.entries.len() && x == #[trigger] m.log.entries.take(k);
                lemma_take_prefix(m.log.entries, k);
            }
        }
    }

    /// Of two logs that a leader has had in one term one is still the
    /// beginning of the other.
    pub proof fn lemma_next_led_ordered(self, after: Cluster, id: Seq<char>, input: Input)
        requires
            self.settled(),
            self.tagged(),
            after.settled(),
            self.stepped(after, id, input),
        ensures
            after.led_ordered(),
    {
        let n = self.nodes[id];
        let m = after.nodes[id];
        assert forall|t: u64, x: Seq<EntryView>, y: Seq<EntryView>|
            #![trigger after.led_at.contains((t, x)), after.led_at.contains((t, y))]
            after.led_at.contains((t, x)) && after.led_at.contains((t, y)) implies is_prefix(x, y)
            || is_prefix(y, x) by {
            let old_x = self.led_at.contains((t, x));
            let old_y = self.led_at.contains((t, y));
            if old_x && old_y {
            } else if !old_x && !old_y {
                let kx = choose|k: int|
                    n.log.entries.len() <= k <= m.log.entries.len() && x == #[trigger] m.log.entries.take(k);
                let ky = choose|k: int|
                    n.log.entries.len() <= k <= m.log.entries.len() && y == #[trigger] m.log.entries.take(k);
                lemma_take_prefix(m.log.entries, kx);
                lemma_take_prefix(m.log.entries, ky);
                lemma_prefixes_ordered(x, y, m.log.entries);
            } else {
                let (o, f) = if old_x {
                    (x, y)
                } else {
                    (y, x)
                };
                self.lemma_none_led(after, id, input, o);
                let k = choose|k: int|
                    n.log.entries.len() <= k <= m.log.entries.len() && f == #[trigger] m.log.entries.take(k);
                assert forall|i: int| 0 <= i < o.len() implies #[trigger] f[i] == o[i] by {
                    assert(n.log.entries[i] == o[i]);
                    assert(m.log.entries[i] == n.log.entries[i]);
                }
                assert(is_prefix(o, f));
            }
        }
    }

    /// Each message with entries still hands on the end of a log that the
    /// leader of its term has had.
    pub proof fn lemma_next_replicas_led_at(self, after: Cluster, id: Seq<char>, input: Input)
        requires
            self.settled(),
            self.tagged(),
            after.settled(),
            self.stepped(after, id, input),
        ensures
            after.replicas_led_at(),
    {
        let n = self.nodes[id];
        let m = after.nodes[id];
        assert forall|w: MessageView| #[trigger]
            after.sent.contains(w) && w.event is ReplicateEntries implies after.led_snapshot_at(
            w,
        ) by {
            if self.sent.contains(w) {
                assert(self.led_snapshot_at(w));
                let x = choose|x: Seq<EntryView>| #[trigger]
                    self.led_at.contains((w.term, x)) && snapshot(x, w);
                assert(after.led_at.contains((w.term, x)));
            } else {
                let i = choose|i: int|
                    n.outbox.len() <= i < m.outbox.len() && carries(m, #[trigger] m.outbox[i], w);
                assert(m.outbox[i].event is ReplicateEntries);
                assert(snapshot_between(n, m, m.outbox[i]));
                let k = choose|k: int|
                    n.log.entries.len() <= k <= m.log.entries.len() && snapshot(
                        #[trigger] m.log.entries.take(k),
                        m.outbox[i],
                    );
                let x = m.log.entries.take(k);
                assert(m.role is Leader);
                assert(m.outbox[i].term == m.term);
                assert(between(n.log.entries.len(), x, m.log.entries));
                assert(after.led_at.contains((w.term, x)));
                assert(snapshot(x, w));
            }
        }
    }

    /// Each entry still stands in a log that a leader of its term has had.
    pub proof fn lemma_next_entries_owned(self, after: Cluster, id: Seq<char>, input: Input)
        requires
            self.settled(),
            self.tagged(),
            after.settled(),
            self.stepped(after, id, input),
        ensures
            after.entries_owned(),
    {
        let n = self.nodes[id];
        let m = after.nodes[id];
        assert(self.kept_by(n.log.entries));
        assert forall|x: Seq<EntryView>, i: int| #[trigger] after.holds_entry(x, i) implies after.owned(
            x[i].term,
            i,
        ) by {
            self.lemma_after_log(after, id, input, x);
            if self.has_log(x) {
                assert(self.holds_entry(x, i));
                assert(self.owned(x[i].term, i));
                let s = choose|s: Seq<EntryView>| #[trigger]
                    self.led_at.contains((x[i].term, s)) && 0 <= i < s.len() && s[i].term
                        == x[i].term;
                assert(after.led_at.contains((x[i].term, s)));
            } else {
                let k = choose|k: int| 0 <= k <= m.log.entries.len() && x == #[trigger] m.log.entries.take(k);
                assert(x[i] == m.log.entries[i]);
                if i < n.log.entries.len() {
                    assert(m.log.entries[i] == n.log.entries[i]);
                    assert(self.holds_entry(n.log.entries, i));
                    assert(self.owned(n.log.entries[i].term, i));
                    let s = choose|s: Seq<EntryView>| #[trigger]
                        self.led_at.contains((x[i].term, s)) && 0 <= i < s.len() && s[i].term
                            == x[i].term;
                    assert(after.led_at.contains((x[i].term, s)));
                } else {
                    let s = m.log.entries.take(i + 1);
                    assert(between(n.log.entries.len(), s, m.log.entries));
                    assert(after.led_at.contains((m.term, s)));
                    assert(s[i] == m.log.entries[i]);
                }
            }
        }
    }

    /// The terms of the entries of each log still do not fall.
    pub proof fn lemma_next_monotone(self, after: Cluster, id: Seq<char>, input: Input)
        requires
            self.settled(),
            self.tagged(),
            after.settled(),
            self.stepped(after, id, input),
        ensures
            after.logs_monotone(),
    {
        let n = self.nodes[id];
        let m = after.nodes[id];
        assert(self.kept_by(n.log.entries));
        assert(self.has_log(n.log.entries));
        assert(bounded(n.log.entries, n.term));
        assert forall|x: Seq<EntryView>| #[trigger] after.has_log(x) implies monotone(x) by {
            self.lemma_after_log(after, id, input, x);
            if !self.has_log(x) {
                let k = choose|k: int| 0 <= k <= m.log.entries.len() && x == #[trigger] m.log.entries.take(k);
                assert forall|i: int, j: int| 0 <= i <= j < x.len() implies (#[trigger] x[i]).term
                    <= (#[trigger] x[j]).term by {
                    assert(x[i] == m.log.entries[i] && x[j] == m.log.entries[j]);
                    if j < n.log.entries.len() {
                        assert(m.log.entries[i] == n.log.entries[i]);
                        assert(m.log.entries[j] == n.log.entries[j]);
                    } else if i < n.log.entries.len() {
                        assert(m.log.entries[i] == n.log.entries[i]);
                    }
                }
            }
        }
    }
}

impl Cluster {
    /// Whether the leader of the term `t` has had a log that begins with
    /// `x`.
    pub open spec fn led_prefix(self, t: u64, x: Seq<EntryView>) -> bool {
        exists|s: Seq<EntryView>| #[trigger] self.led_at.contains((t, s)) && is_prefix(x, s)
    }

    /// Whether the node `q` has acknowledged, in the term `t`, a log of
    /// the length `len`.
    pub open spec fn acked_len(self, q: Seq<char>, t: u64, len: nat) -> bool {
        exists|s: Seq<EntryView>| #[trigger] self.acked.contains((q, t, s)) && s.len() == len
    }

    /// Whether some leader of a term above `t` and not above `upto` has
    /// had a log that does not begin with `p`.
    pub open spec fn overwritten(self, t: u64, upto: int, p: Seq<EntryView>) -> bool {
        exists|t2: u64, s2: Seq<EntryView>| #[trigger]
            self.led_at.contains((t2, s2)) && t < t2 <= upto && !is_prefix(p, s2)
    }

    /// Whether no message goes from a node to itself.
    pub open spec fn no_self(self) -> bool {
        forall|w: MessageView| #[trigger] self.sent.contains(w) ==> w.to != w.from
    }

    /// Whether each node that has acknowledged a log in a term is of that
    /// term or beyond it, and acknowledged a log that the leader of the
    /// term has had, or the beginning of one.
    pub open spec fn acks_honest(self) -> bool {
        forall|q: Seq<char>, t: u64, s: Seq<EntryView>| #[trigger]
            self.acked.contains((q, t, s)) ==> {
                &&& self.nodes.contains_key(q)
                &&& self.nodes[q].term >= t
                &&& self.led_prefix(t, s)
            }
    }

    /// Whether each message that acknowledges entries is known with the
    /// log that its sender had.
    pub open spec fn acks_recorded(self) -> bool {
        forall|w: MessageView| #[trigger]
            self.sent.contains(w) && w.event is AcceptEntries ==> self.acked_len(
                w.from->Peer_0,
                w.term,
                w.event->AcceptEntries_last_index as nat,
            )
    }

    /// Whether each node still holds what it has acknowledged, up to each
    /// entry, unless a leader of a later term that the node has reached
    /// has had a log without it.
    pub open spec fn acks_retained(self) -> bool {
        forall|q: Seq<char>, t: u64, s: Seq<EntryView>, k: int|
            #![trigger self.acked.contains((q, t, s)), s.take(k)]
            self.acked.contains((q, t, s)) && 0 <= k <= s.len() ==> is_prefix(
                s.take(k),
                self.nodes[q].log.entries,
            ) || self.overwritten(t, self.nodes[q].term as int, s.take(k))
    }

    /// Whether each leader has noted of a peer only what the peer has
    /// acknowledged in the leader's term.
    pub open spec fn leaders_informed(self) -> bool {
        forall|id: Seq<char>, j: int|
            #![trigger peer_lasts(self.nodes[id])[j]]
            self.nodes.contains_key(id) && self.nodes[id].role is Leader && 0 <= j < peer_lasts(
                self.nodes[id],
            ).len() && peer_lasts(self.nodes[id])[j].1 > 0 ==> {
                &&& peer_lasts(self.nodes[id])[j].0 != id
                &&& self.acked_len(
                    peer_lasts(self.nodes[id])[j].0,
                    self.nodes[id].term,
                    peer_lasts(self.nodes[id])[j].1 as nat,
                )
            }
    }

    /// Whether each leader counts as one that has acknowledged each log
    /// that it has had.
    pub open spec fn leaders_acked(self) -> bool {
        forall|t: u64, s: Seq<EntryView>, c: Seq<char>|
            #![trigger self.led_at.contains((t, s)), self.won.contains((c, t))]
            self.led_at.contains((t, s)) && self.won.contains((c, t)) ==> self.acked.contains(
                (c, t, s),
            )
    }

    /// What holds of what the nodes have acknowledged.
    pub open spec fn acks_inv(self) -> bool {
        &&& self.no_self()
        &&& self.acks_honest()
        &&& self.acks_recorded()
        &&& self.acks_retained()
        &&& self.leaders_informed()
        &&& self.leaders_acked()
    }

    /// Whether the node that took the step has acknowledged no more than
    /// the leader of its term has: where it acknowledges entries, its log
    /// is one that the leader has had, or the beginning of one.
    pub open spec fn honest(self, after: Cluster, id: Seq<char>) -> bool {
        acknowledges(self.nodes[id], after.nodes[id]) ==> after.led_prefix(
            after.nodes[id].term,
            after.nodes[id].log.entries,
        )
    }

    /// What holds of what the nodes have acknowledged holds after every
    /// step in which the node is honest.
    pub proof fn lemma_next_acks(self, after: Cluster, id: Seq<char>, input: Input)
        requires
            self.settled(),
            self.tagged(),
            self.acks_inv(),
            after.settled(),
            after.tagged(),
            self.stepped(after, id, input),
            self.honest(after, id),
        ensures
            after.acks_inv(),
    {
        self.lemma_next_acks_honest(after, id, input);
        self.lemma_next_acks_retained(after, id, input);
        self.lemma_next_leaders_informed(after, id, input);
    }

    /// Each acknowledgement is still honest and known.
    pub proof fn lemma_next_acks_honest(self, after: Cluster, id: Seq<char>, input: Input)
        requires
            self.settled(),
            self.tagged(),
            self.acks_inv(),
            after.settled(),
            after.tagged(),
            self.stepped(after, id, input),
            self.honest(after, id),
        ensures
            after.no_self(),
            after.acks_honest(),
            after.acks_recorded(),
            after.leaders_acked(),
    {
        let n = self.nodes[id];
        let m = after.nodes[id];
        assert forall|w: MessageView| #[trigger] after.sent.contains(w) implies w.to != w.from by {
            if !self.sent.contains(w) {
                let i = choose|i: int|
                    n.outbox.len() <= i < m.outbox.len() && carries(m, #[trigger] m.outbox[i], w);
            }
        }
        assert forall|q: Seq<char>, t: u64, s: Seq<EntryView>| #[trigger]
            after.acked.contains((q, t, s)) implies {
            &&& after.nodes.contains_key(q)
            &&& after.nodes[q].term >= t
            &&& after.led_prefix(t, s)
        } by {
            if self.acked.contains((q, t, s)) {
                assert(self.nodes.contains_key(q));
                assert(self.led_prefix(t, s));
                let s1 = choose|s1: Seq<EntryView>| #[trigger]
                    self.led_at.contains((t, s1)) && is_prefix(s, s1);
                assert(after.led_at.contains((t, s1)));
            } else if s == m.log.entries && acknowledges(n, m) {
            } else {
                assert(after.led_at.contains((t, s)));
                assert(is_prefix(s, s));
            }
        }
        assert forall|w: MessageView| #[trigger]
            after.sent.contains(w) && w.event is AcceptEntries implies after.acked_len(
            w.from->Peer_0,
            w.term,
            w.event->AcceptEntries_last_index as nat,
        ) by {
            if self.sent.contains(w) {
                let s = choose|s: Seq<EntryView>| #[trigger]
                    self.acked.contains((w.from->Peer_0, w.term, s)) && s.len()
                        == w.event->AcceptEntries_last_index as nat;
                assert(after.acked.contains((w.from->Peer_0, w.term, s)));
            } else {
                let i = choose|i: int|
                    n.outbox.len() <= i < m.outbox.len() && carries(m, #[trigger] m.outbox[i], w);
                assert(m.outbox[i].event is AcceptEntries);
                assert(acknowledges(n, m));
                assert(m.outbox[i].term == m.term);
                assert(after.acked.contains((id, m.term, m.log.entries)));
            }
        }
        assert forall|t: u64, s: Seq<EntryView>, c: Seq<char>|
            #![trigger after.led_at.contains((t, s)), after.won.contains((c, t))]
            after.led_at.contains((t, s)) && after.won.contains((c, t)) implies after.acked.contains(
            (c, t, s),
        ) by {
            if self.led_at.contains((t, s)) {
                if !self.won.contains((c, t)) {
                    assert(c == id && t == m.term);
                    self.lemma_none_led(after, id, input, s);
                }
            } else {
                assert(after.won.contains((id, t)));
                assert(c == id);
            }
        }
    }

    /// Each node still holds what it has acknowledged, unless a later
    /// leader has had a log without it.
    pub proof fn lemma_next_acks_retained(self, after: Cluster, id: Seq<char>, input: Input)
        requires
            self.settled(),
            self.tagged(),
            self.acks_inv(),
            after.settled(),
            after.tagged(),
            self.stepped(after, id, input),
            self.honest(after, id),
        ensures
            after.acks_retained(),
    {
        let n = self.nodes[id];
        let m = after.nodes[id];
        assert forall|q: Seq<char>, t: u64, s: Seq<EntryView>, k: int|
            #![trigger after.acked.contains((q, t, s)), s.take(k)]
            after.acked.contains((q, t, s)) && 0 <= k <= s.len() implies is_prefix(
            s.take(k),
            after.nodes[q].log.entries,
        ) || after.overwritten(t, after.nodes[q].term as int, s.take(k)) by {
            let p = s.take(k);
            if !self.acked.contains((q, t, s)) {
                if s == m.log.entries && acknowledges(n, m) {
                } else {
                    let kk = choose|kk: int|
                        n.log.entries.len() <= kk <= m.log.entries.len() && s == #[trigger] m.log.entries.take(kk);
                }
                assert(is_prefix(p, m.log.entries));
            } else {
                assert(self.nodes.contains_key(q));
                if self.overwritten(t, self.nodes[q].term as int, p) {
                    let (t2, s2) = choose|t2: u64, s2: Seq<EntryView>| #[trigger]
                        self.led_at.contains((t2, s2)) && t < t2 <= self.nodes[q].term as int
                            && !is_prefix(p, s2);
                    assert(after.led_at.contains((t2, s2)));
                    assert(after.nodes[q].term >= self.nodes[q].term);
                } else if q == id {
                    assert(is_prefix(p, n.log.entries));
                    if m.role is Leader {
                        lemma_prefix_trans(p, n.log.entries, m.log.entries);
                    } else {
                        self.lemma_follower_log(after, id, input);
                        if m.log.entries != n.log.entries && !is_prefix(p, m.log.entries) {
                            assert(self.led_at.contains((m.term, m.log.entries)));
                            assert(after.led_at.contains((m.term, m.log.entries)));
                            if t == m.term {
                                // Both are logs of the leader of this term.
                                assert(self.led_prefix(t, s));
                                let s1 = choose|s1: Seq<EntryView>| #[trigger]
                                    self.led_at.contains((t, s1)) && is_prefix(s, s1);
                                lemma_take_prefix(s, k);
                                lemma_prefix_trans(p, s, s1);
                                if is_prefix(s1, m.log.entries) {
                                    lemma_prefix_trans(p, s1, m.log.entries);
                                } else {
                                    assert(is_prefix(m.log.entries, s1));
                                    lemma_prefixes_ordered(p, m.log.entries, s1);
                                    assert(is_prefix(m.log.entries, p));
                                    lemma_prefix_trans(m.log.entries, p, n.log.entries);
                                }
                            } else {
                                assert(t < m.term);
                            }
                        }
                    }
                }
            }
        }
    }

    /// Each leader has still noted of a peer only what the peer has
    /// acknowledged.
    pub proof fn lemma_next_leaders_informed(self, after: Cluster, id: Seq<char>, input: Input)
        requires
            self.settled(),
            self.tagged(),
            self.acks_inv(),
            after.settled(),
            after.tagged(),
            after.acks_recorded(),
            self.stepped(after, id, input),
        ensures
            after.leaders_informed(),
    {
        let n = self.nodes[id];
        let m = after.nodes[id];
        assert forall|c: Seq<char>, j: int|
            #![trigger peer_lasts(after.nodes[c])[j]]
            after.nodes.contains_key(c) && after.nodes[c].role is Leader && 0 <= j < peer_lasts(
                after.nodes[c],
            ).len() && peer_lasts(after.nodes[c])[j].1 > 0 implies {
            &&& peer_lasts(after.nodes[c])[j].0 != c
            &&& after.acked_len(
                peer_lasts(after.nodes[c])[j].0,
                after.nodes[c].term,
                peer_lasts(after.nodes[c])[j].1 as nat,
            )
        } by {
            assert(self.nodes.contains_key(c));
            let p = peer_lasts(after.nodes[c])[j];
            if c != id || (n.role is Leader && peer_lasts(n).contains(p)) {
                let jj = if c != id {
                    j
                } else {
                    choose|jj: int| 0 <= jj < peer_lasts(n).len() && peer_lasts(n)[jj] == p
                };
                assert(peer_lasts(self.nodes[c])[jj] == p);
                assert(self.acked_len(p.0, self.nodes[c].term, p.1 as nat));
                let s = choose|s: Seq<EntryView>| #[trigger]
                    self.acked.contains((p.0, self.nodes[c].term, s)) && s.len() == p.1 as nat;
                assert(after.acked.contains((p.0, after.nodes[c].term, s)));
            } else {
                assert(acknowledged(n, input, p));
                match input {
                    Input::Message(w) => {
                        assert(self.sent.contains(w));
                        assert(after.sent.contains(w));
                        assert(w.to == AddressView::Peer(id));
                        assert(after.acked_len(
                            w.from->Peer_0,
                            w.term,
                            w.event->AcceptEntries_last_index as nat,
                        ));
                    },
                    Input::Tick => {},
                }
            }
        }
    }
}

impl Cluster {
    /// Whether the log, where it is not empty, is the beginning of a log
    /// that the leader of the term of its last entry has had.
    pub open spec fn anchored(self, x: Seq<EntryView>) -> bool {
        x.len() > 0 ==> self.led_prefix(last_term_of(x), x)
    }

    /// Whether another node than `c` has come to lead in the term `u`.
    pub open spec fn rival(self, c: Seq<char>, u: u64) -> bool {
        exists|c2: Seq<char>| #[trigger] self.won.contains((c2, u)) && c2 != c
    }

    /// Whether the node `c` stood for election in the term `u` with a log
    /// that `s` begins with.
    pub open spec fn ran_prefix(self, c: Seq<char>, u: u64, s: Seq<EntryView>) -> bool {
        exists|x: Seq<EntryView>| #[trigger] self.ran.contains((c, u, x)) && is_prefix(x, s)
    }

    /// Whether the node `c` stood for election in the term `u` with a log
    /// that ends at `last_index` with the term `last_term`.
    pub open spec fn ran_as(self, c: Seq<char>, u: u64, last_index: u64, last_term: u64) -> bool {
        exists|x: Seq<EntryView>| #[trigger]
            self.ran.contains((c, u, x)) && x.len() == last_index && last_term_of(x) == last_term
    }

    /// Whether the node `c` stood for election in the term `u` with a log
    /// that is at least as far as `l`.
    pub open spec fn ran_ahead(self, c: Seq<char>, u: u64, l: Seq<EntryView>) -> bool {
        exists|x: Seq<EntryView>| #[trigger]
            self.ran.contains((c, u, x)) && up_to_date(last_term_of(x), x.len() as u64, l)
    }

    /// Whether the vote of `v` for `c` in the term `u` is known with the
    /// log that `v` had.
    pub open spec fn vote_known(self, v: Seq<char>, c: Seq<char>, u: u64) -> bool {
        exists|l: Seq<EntryView>| #[trigger] self.voted.contains((v, c, u, l))
    }

    /// Whether `votes` elected the node `c` in the term `u`: a quorum of
    /// nodes, none twice, each the node itself or a voter whose vote is
    /// known with the log that it had.
    pub open spec fn elected_by(self, c: Seq<char>, u: u64, votes: Seq<Seq<char>>) -> bool {
        &&& votes.no_duplicates()
        &&& votes.len() >= self.nodes[c].quorum()
        &&& forall|i: int|
            0 <= i < votes.len() ==> self.nodes.contains_key(#[trigger] votes[i]) && (votes[i]
                == c || self.vote_known(votes[i], c, u))
    }

    /// Whether each node that stood for election is of that term or beyond
    /// it, and stood with a log of earlier terms that is known.
    pub open spec fn ran_known(self) -> bool {
        forall|c: Seq<char>, u: u64, x: Seq<EntryView>| #[trigger]
            self.ran.contains((c, u, x)) ==> {
                &&& self.nodes.contains_key(c)
                &&& self.nodes[c].term >= u
                &&& x.len() <= u64::MAX
                &&& below(x, u)
                &&& self.anchored(x)
            }
    }

    /// Whether each node stood for election in a term with one log.
    pub open spec fn ran_unique(self) -> bool {
        forall|c: Seq<char>, u: u64, x: Seq<EntryView>, y: Seq<EntryView>|
            #![trigger self.ran.contains((c, u, x)), self.ran.contains((c, u, y))]
            self.ran.contains((c, u, x)) && self.ran.contains((c, u, y)) ==> x == y
    }

    /// Whether each candidate is known to stand with its log.
    pub open spec fn candidates_ran(self) -> bool {
        forall|id: Seq<char>| #[trigger]
            self.nodes.contains_key(id) && self.nodes[id].role is Candidate ==> self.ran.contains(
                (id, self.nodes[id].term, self.nodes[id].log.entries),
            )
    }

    /// Whether each log that a leader has had begins with the log that it
    /// stood for election with.
    pub open spec fn winners_ran(self) -> bool {
        forall|t: u64, s: Seq<EntryView>, c: Seq<char>|
            #![trigger self.led_at.contains((t, s)), self.won.contains((c, t))]
            self.led_at.contains((t, s)) && self.won.contains((c, t)) ==> self.ran_prefix(c, t, s)
    }

    /// Whether each message that asks for a vote tells the end of the log
    /// that its sender stood for election with.
    pub open spec fn solicits_ran(self) -> bool {
        forall|w: MessageView| #[trigger]
            self.sent.contains(w) && w.event is SolicitVote ==> self.ran_as(
                w.from->Peer_0,
                w.term,
                w.event->SolicitVote_last_index,
                w.event->SolicitVote_last_term,
            )
    }

    /// Whether each node stood for election with what it had acknowledged
    /// in earlier terms, up to each entry, unless a leader of a term
    /// between has had a log without it.
    pub open spec fn ran_good(self) -> bool {
        forall|c: Seq<char>, u: u64, x: Seq<EntryView>, t: u64, s: Seq<EntryView>, k: int|
            #![trigger self.ran.contains((c, u, x)), self.acked.contains((c, t, s)), s.take(k)]
            self.ran.contains((c, u, x)) && self.acked.contains((c, t, s)) && t < u && 0 <= k
                <= s.len() ==> is_prefix(s.take(k), x) || self.overwritten(t, u - 1, s.take(k))
    }

    /// Whether each vote that is known went to a candidate whose log was
    /// at least as far as the voter's, which is known.
    pub open spec fn votes_checked(self) -> bool {
        forall|v: Seq<char>, c: Seq<char>, u: u64, l: Seq<EntryView>| #[trigger]
            self.voted.contains((v, c, u, l)) ==> {
                &&& self.nodes.contains_key(v)
                &&& self.nodes[v].term >= u
                &&& monotone(l)
                &&& self.anchored(l)
                &&& self.ran_ahead(c, u, l)
            }
    }

    /// Whether each voter voted with what it had acknowledged in earlier
    /// terms, up to each entry, unless a leader of a term between has had
    /// a log without it, or another than the candidate had come to lead.
    pub open spec fn votes_good(self) -> bool {
        forall|v: Seq<char>, c: Seq<char>, u: u64, l: Seq<EntryView>, t: u64, s: Seq<EntryView>, k: int|
            #![trigger self.voted.contains((v, c, u, l)), self.acked.contains((v, t, s)), s.take(k)]
            self.voted.contains((v, c, u, l)) && self.acked.contains((v, t, s)) && t < u && 0
                <= k <= s.len() ==> is_prefix(s.take(k), l) || self.overwritten(
                t,
                u - 1,
                s.take(k),
            ) || self.rival(c, u)
    }

    /// Whether each vote for a candidate that has not come to lead is
    /// known with the log that the voter had.
    pub open spec fn early_votes(self) -> bool {
        forall|w: MessageView| #[trigger]
            self.sent.contains(w) && w.event is GrantVote && !self.won.contains(
                (w.to->Peer_0, w.term),
            ) ==> self.vote_known(w.from->Peer_0, w.to->Peer_0, w.term)
    }

    /// Whether each node that has come to lead was elected by votes that
    /// are known.
    pub open spec fn winners_elected(self) -> bool {
        forall|c: Seq<char>, u: u64| #[trigger]
            self.won.contains((c, u)) ==> exists|votes: Seq<Seq<char>>| self.elected_by(c, u, votes)
    }

    /// What holds of the votes that the nodes have cast.
    pub open spec fn votes_inv(self) -> bool {
        &&& self.ran_known()
        &&& self.ran_unique()
        &&& self.candidates_ran()
        &&& self.winners_ran()
        &&& self.solicits_ran()
        &&& self.ran_good()
        &&& self.votes_checked()
        &&& self.votes_good()
        &&& self.early_votes()
        &&& self.winners_elected()
    }

    /// A log of the cluster is the beginning of a log that the leader of
    /// the term of its last entry has had.
    pub proof fn lemma_anchored(self, x: Seq<EntryView>)
        requires
            self.settled(),
            self.tagged(),
            self.has_log(x),
        ensures
            self.anchored(x),
    {
        if x.len() > 0 {
            let i = x.len() - 1;
            assert(self.holds_entry(x, i));
            assert(self.owned(x[i].term, i));
            let s = choose|s: Seq<EntryView>| #[trigger]
                self.led_at.contains((x[i].term, s)) && 0 <= i < s.len() && s[i].term == x[i].term;
            assert(self.led.contains(s));
            assert(self.has_log(s));
            assert(same_term_at(x, s, i));
            assert(x.take(i + 1) =~= x);
            assert forall|j: int| 0 <= j < x.len() implies #[trigger] s[j] == x[j] by {
                assert(s.take(i + 1)[j] == x.take(i + 1)[j]);
            }
            assert(is_prefix(x, s));
        }
    }

    /// Being anchored lasts.
    pub proof fn lemma_anchored_stays(self, after: Cluster, x: Seq<EntryView>)
        requires
            self.anchored(x),
            forall|t: u64, s: Seq<EntryView>| self.led_at.contains((t, s)) ==> after.led_at.contains((t, s)),
        ensures
            after.anchored(x),
    {
        if x.len() > 0 {
            let s = choose|s: Seq<EntryView>| #[trigger]
                self.led_at.contains((last_term_of(x), s)) && is_prefix(x, s);
            assert(after.led_at.contains((last_term_of(x), s)));
        }
    }

    /// Being overwritten lasts.
    pub proof fn lemma_overwritten_stays(self, after: Cluster, t: u64, upto: int, later: int, p: Seq<EntryView>)
        requires
            self.overwritten(t, upto, p),
            upto <= later,
            forall|t: u64, s: Seq<EntryView>| self.led_at.contains((t, s)) ==> after.led_at.contains((t, s)),
        ensures
            after.overwritten(t, later, p),
    {
        let (t2, s2) = choose|t2: u64, s2: Seq<EntryView>| #[trigger]
            self.led_at.contains((t2, s2)) && t < t2 <= upto && !is_prefix(p, s2);
        assert(after.led_at.contains((t2, s2)));
    }

    /// What holds of the votes holds after every step.
    pub proof fn lemma_next_votes(self, after: Cluster, id: Seq<char>, input: Input)
        requires
            self.settled(),
            self.tagged(),
            self.acks_inv(),
            self.votes_inv(),
            after.settled(),
            after.tagged(),
            after.acks_inv(),
            self.stepped(after, id, input),
        ensures
            after.votes_inv(),
    {
        self.lemma_next_ran(after, id, input);
        self.lemma_next_winners_ran(after, id, input);
        self.lemma_next_ran_good(after, id, input);
        self.lemma_next_votes_checked(after, id, input);
        self.lemma_next_votes_good(after, id, input);
        self.lemma_next_winners_elected(after, id, input);
    }

    /// Each node that stood for election is still known to have.
    pub proof fn lemma_next_ran(self, after: Cluster, id: Seq<char>, input: Input)
        requires
            self.settled(),
            self.tagged(),
            self.acks_inv(),
            self.votes_inv(),
            after.settled(),
            after.tagged(),
            self.stepped(after, id, input),
        ensures
            after.ran_known(),
            after.ran_unique(),
            after.candidates_ran(),
            after.solicits_ran(),
    {
        let n = self.nodes[id];
        let m = after.nodes[id];
        assert(self.kept_by(n.log.entries));
        assert(self.has_log(n.log.entries));
        assert(bounded(n.log.entries, n.term));
        assert forall|c: Seq<char>, u: u64, x: Seq<EntryView>| #[trigger]
            after.ran.contains((c, u, x)) implies {
            &&& after.nodes.contains_key(c)
            &&& after.nodes[c].term >= u
            &&& x.len() <= u64::MAX
            &&& below(x, u)
            &&& after.anchored(x)
        } by {
            if self.ran.contains((c, u, x)) {
                assert(self.nodes.contains_key(c));
                self.lemma_anchored_stays(after, x);
            } else {
                self.lemma_anchored(x);
                self.lemma_anchored_stays(after, x);
            }
        }
        assert forall|w: MessageView| #[trigger]
            after.sent.contains(w) && w.event is SolicitVote implies after.ran_as(
            w.from->Peer_0,
            w.term,
            w.event->SolicitVote_last_index,
            w.event->SolicitVote_last_term,
        ) by {
            if self.sent.contains(w) {
                let x = choose|x: Seq<EntryView>| #[trigger]
                    self.ran.contains((w.from->Peer_0, w.term, x)) && x.len()
                        == w.event->SolicitVote_last_index && last_term_of(x)
                        == w.event->SolicitVote_last_term;
                assert(after.ran.contains((w.from->Peer_0, w.term, x)));
            } else {
                let i = choose|i: int|
                    n.outbox.len() <= i < m.outbox.len() && carries(m, #[trigger] m.outbox[i], w);
                assert(m.outbox[i].event is SolicitVote);
                assert(m.outbox[i].term == m.term);
                assert(after.ran.contains((id, m.term, m.log.entries)));
            }
        }
        assert forall|j: Seq<char>| #[trigger]
            after.nodes.contains_key(j) && after.nodes[j].role is Candidate implies after.ran.contains(
            (j, after.nodes[j].term, after.nodes[j].log.entries),
        ) by {
            assert(self.nodes.contains_key(j));
        }
        assert forall|c: Seq<char>, u: u64, x: Seq<EntryView>, y: Seq<EntryView>|
            #![trigger after.ran.contains((c, u, x)), after.ran.contains((c, u, y))]
            after.ran.contains((c, u, x)) && after.ran.contains((c, u, y)) implies x == y by {
            if self.ran.contains((c, u, x)) {
                assert(self.nodes.contains_key(c));
            }
            if self.ran.contains((c, u, y)) {
                assert(self.nodes.contains_key(c));
            }
        }
    }

    /// Each log that a leader has had still begins with the log that it
    /// stood for election with.
    pub proof fn lemma_next_winners_ran(self, after: Cluster, id: Seq<char>, input: Input)
        requires
            self.settled(),
            self.tagged(),
            self.acks_inv(),
            self.votes_inv(),
            after.settled(),
            after.tagged(),
            self.stepped(after, id, input),
        ensures
            after.winners_ran(),
    {
        let n = self.nodes[id];
        let m = after.nodes[id];
        assert forall|t: u64, s: Seq<EntryView>, c: Seq<char>|
            #![trigger after.led_at.contains((t, s)), after.won.contains((c, t))]
            after.led_at.contains((t, s)) && after.won.contains((c, t)) implies after.ran_prefix(
            c,
            t,
            s,
        ) by {
            if self.led_at.contains((t, s)) {
                if !self.won.contains((c, t)) {
                    assert(c == id && t == m.term);
                    self.lemma_none_led(after, id, input, s);
                }
                assert(self.ran_prefix(c, t, s));
                let x = choose|x: Seq<EntryView>| #[trigger]
                    self.ran.contains((c, t, x)) && is_prefix(x, s);
                assert(after.ran.contains((c, t, x)));
            } else {
                assert(after.won.contains((id, t)));
                assert(c == id);
                let k = choose|k: int|
                    n.log.entries.len() <= k <= m.log.entries.len() && s == #[trigger] m.log.entries.take(k);
                assert forall|i: int| 0 <= i < n.log.entries.len() implies #[trigger] s[i]
                    == n.log.entries[i] by {
                    assert(m.log.entries[i] == n.log.entries[i]);
                }
                assert(is_prefix(n.log.entries, s));
                if n.role is Leader {
                    assert(self.led_at.contains((n.term, n.log.entries)));
                    assert(self.won.contains((id, n.term)));
                    assert(self.ran_prefix(id, n.term, n.log.entries));
                    let x = choose|x: Seq<EntryView>| #[trigger]
                        self.ran.contains((id, n.term, x)) && is_prefix(x, n.log.entries);
                    lemma_prefix_trans(x, n.log.entries, s);
                    assert(after.ran.contains((id, t, x)));
                } else {
                    assert(n.role is Candidate);
                    assert(self.ran.contains((id, n.term, n.log.entries)));
                    assert(after.ran.contains((id, t, n.log.entries)));
                }
            }
        }
    }

    /// Each node still stood for election with what it had acknowledged.
    pub proof fn lemma_next_ran_good(self, after: Cluster, id: Seq<char>, input: Input)
        requires
            self.settled(),
            self.tagged(),
            self.acks_inv(),
            self.votes_inv(),
            after.settled(),
            after.tagged(),
            self.stepped(after, id, input),
        ensures
            after.ran_good(),
    {
        let n = self.nodes[id];
        let m = after.nodes[id];
        assert forall|c: Seq<char>, u: u64, x: Seq<EntryView>, t: u64, s: Seq<EntryView>, k: int|
            #![trigger after.ran.contains((c, u, x)), after.acked.contains((c, t, s)), s.take(k)]
            after.ran.contains((c, u, x)) && after.acked.contains((c, t, s)) && t < u && 0 <= k
                <= s.len() implies is_prefix(s.take(k), x) || after.overwritten(
            t,
            u - 1,
            s.take(k),
        ) by {
            let p = s.take(k);
            let old_ran = self.ran.contains((c, u, x));
            let old_ack = self.acked.contains((c, t, s));
            if old_ran {
                assert(self.nodes.contains_key(c));
            }
            if old_ran && old_ack {
                if !is_prefix(p, x) {
                    self.lemma_overwritten_stays(after, t, u - 1, u - 1, p);
                }
            } else if old_ack {
                // The node stands for election now, with the log that it has.
                assert(c == id && x == n.log.entries);
                if !is_prefix(p, n.log.entries) {
                    self.lemma_overwritten_stays(after, t, n.term as int, u - 1, p);
                }
            } else {
                assert(c == id && t == m.term);
            }
        }
    }

    /// Each vote that is known still went to a candidate whose log was at
    /// least as far as the voter's.
    pub proof fn lemma_next_votes_checked(self, after: Cluster, id: Seq<char>, input: Input)
        requires
            self.settled(),
            self.tagged(),
            self.acks_inv(),
            self.votes_inv(),
            after.settled(),
            after.tagged(),
            self.stepped(after, id, input),
        ensures
            after.votes_checked(),
            after.early_votes(),
    {
        let n = self.nodes[id];
        let m = after.nodes[id];
        assert(self.kept_by(n.log.entries));
        assert(self.has_log(n.log.entries));
        assert forall|v: Seq<char>, c: Seq<char>, u: u64, l: Seq<EntryView>| #[trigger]
            after.voted.contains((v, c, u, l)) implies {
            &&& after.nodes.contains_key(v)
            &&& after.nodes[v].term >= u
            &&& monotone(l)
            &&& after.anchored(l)
            &&& after.ran_ahead(c, u, l)
        } by {
            if self.voted.contains((v, c, u, l)) {
                assert(self.nodes.contains_key(v));
                self.lemma_anchored_stays(after, l);
                let x = choose|x: Seq<EntryView>| #[trigger]
                    self.ran.contains((c, u, x)) && up_to_date(
                        last_term_of(x),
                        x.len() as u64,
                        l,
                    );
                assert(after.ran.contains((c, u, x)));
            } else {
                let i = choose|i: int|
                    n.outbox.len() <= i < m.outbox.len() && (#[trigger] m.outbox[i]).event
                        is GrantVote && m.outbox[i].to == AddressView::Peer(c);
                let w = input->Message_0;
                assert(l == n.log.entries);
                self.lemma_anchored(l);
                self.lemma_anchored_stays(after, l);
                assert(self.sent.contains(w));
                assert(self.ran_as(
                    w.from->Peer_0,
                    w.term,
                    w.event->SolicitVote_last_index,
                    w.event->SolicitVote_last_term,
                ));
                let x = choose|x: Seq<EntryView>| #[trigger]
                    self.ran.contains((c, u, x)) && x.len() == w.event->SolicitVote_last_index
                        && last_term_of(x) == w.event->SolicitVote_last_term;
                assert(after.ran.contains((c, u, x)));
                assert(x.len() as u64 == w.event->SolicitVote_last_index);
            }
        }
        assert forall|w: MessageView| #[trigger]
            after.sent.contains(w) && w.event is GrantVote && !after.won.contains(
                (w.to->Peer_0, w.term),
            ) implies after.vote_known(w.from->Peer_0, w.to->Peer_0, w.term) by {
            if self.sent.contains(w) {
                assert(!self.won.contains((w.to->Peer_0, w.term)));
                let l = choose|l: Seq<EntryView>| #[trigger]
                    self.voted.contains((w.from->Peer_0, w.to->Peer_0, w.term, l));
                assert(after.voted.contains((w.from->Peer_0, w.to->Peer_0, w.term, l)));
            } else {
                let i = choose|i: int|
                    n.outbox.len() <= i < m.outbox.len() && carries(m, #[trigger] m.outbox[i], w);
                assert(m.outbox[i].event is GrantVote);
                assert(m.outbox[i].term == m.term);
                assert(m.outbox[i].to == w.to);
                assert(grants_to(n, m, w.to->Peer_0));
                assert(!self.won.contains((w.to->Peer_0, w.term)));
                assert(after.voted.contains((id, w.to->Peer_0, m.term, m.log.entries)));
            }
        }
    }

    /// Each voter still voted with what it had acknowledged.
    pub proof fn lemma_next_votes_good(self, after: Cluster, id: Seq<char>, input: Input)
        requires
            self.settled(),
            self.tagged(),
            self.acks_inv(),
            self.votes_inv(),
            after.settled(),
            after.tagged(),
            self.stepped(after, id, input),
        ensures
            after.votes_good(),
    {
        let n = self.nodes[id];
        let m = after.nodes[id];
        assert forall|
            v: Seq<char>,
            c: Seq<char>,
            u: u64,
            l: Seq<EntryView>,
            t: u64,
            s: Seq<EntryView>,
            k: int,
        |
            #![trigger after.voted.contains((v, c, u, l)), after.acked.contains((v, t, s)), s.take(k)]
            after.voted.contains((v, c, u, l)) && after.acked.contains((v, t, s)) && t < u && 0
                <= k <= s.len() implies is_prefix(s.take(k), l) || after.overwritten(
            t,
            u - 1,
            s.take(k),
        ) || after.rival(c, u) by {
            let p = s.take(k);
            let old_vote = self.voted.contains((v, c, u, l));
            let old_ack = self.acked.contains((v, t, s));
            if old_vote {
                assert(self.nodes.contains_key(v));
            }
            if old_vote && old_ack {
                if is_prefix(p, l) {
                } else if self.overwritten(t, u - 1, p) {
                    self.lemma_overwritten_stays(after, t, u - 1, u - 1, p);
                } else {
                    let c2 = choose|c2: Seq<char>| #[trigger] self.won.contains((c2, u)) && c2 != c;
                    assert(after.won.contains((c2, u)));
                }
            } else if old_ack {
                // The node votes now, with the log that it has.
                assert(v == id && l == n.log.entries && u == m.term);
                assert(self.nodes.contains_key(v));
                if !is_prefix(p, n.log.entries) {
                    assert(self.overwritten(t, n.term as int, p));
                    let (t2, s2) = choose|t2: u64, s2: Seq<EntryView>| #[trigger]
                        self.led_at.contains((t2, s2)) && t < t2 <= n.term as int && !is_prefix(
                            p,
                            s2,
                        );
                    assert(after.led_at.contains((t2, s2)));
                    if t2 == u {
                        assert(self.term_won(u));
                        let c2 = choose|c2: Seq<char>| #[trigger] self.won.contains((c2, u));
                        assert(after.won.contains((c2, u)));
                        assert(c2 != c);
                    }
                }
            } else {
                assert(v == id && t == m.term);
            }
        }
    }

    /// Each node that has come to lead was elected by votes that are
    /// still known.
    pub proof fn lemma_next_winners_elected(self, after: Cluster, id: Seq<char>, input: Input)
        requires
            self.settled(),
            self.tagged(),
            self.acks_inv(),
            self.votes_inv(),
            after.settled(),
            after.tagged(),
            after.early_votes(),
            self.stepped(after, id, input),
        ensures
            after.winners_elected(),
    {
        let n = self.nodes[id];
        let m = after.nodes[id];
        assert forall|c: Seq<char>, u: u64| #[trigger] after.won.contains((c, u)) implies exists|
            votes: Seq<Seq<char>>,
        |
            after.elected_by(c, u, votes) by {
            if self.won.contains((c, u)) {
                assert(self.nodes.contains_key(c));
                let votes = choose|votes: Seq<Seq<char>>| self.elected_by(c, u, votes);
                assert forall|i: int| 0 <= i < votes.len() implies after.nodes.contains_key(
                    #[trigger] votes[i],
                ) && (votes[i] == c || after.vote_known(votes[i], c, u)) by {
                    if votes[i] != c {
                        let l = choose|l: Seq<EntryView>| #[trigger]
                            self.voted.contains((votes[i], c, u, l));
                        assert(after.voted.contains((votes[i], c, u, l)));
                    }
                }
                assert(after.nodes[c].quorum() == self.nodes[c].quorum());
                assert(after.elected_by(c, u, votes));
            } else {
                assert(c == id && u == m.term);
                assert(!(n.role is Leader));
                assert(n.role is Candidate && granted(n, input));
                let votes = tally(n, voter(input));
                self.lemma_granted_backed(id, input);
                assert(votes.no_duplicates());
                assert forall|i: int| 0 <= i < votes.len() implies after.nodes.contains_key(
                    #[trigger] votes[i],
                ) && (votes[i] == c || after.vote_known(votes[i], c, u)) by {
                    if votes[i] != id {
                        let w = vote(votes[i], id, n.term);
                        assert(self.sent.contains(w));
                        assert(self.vote_known(votes[i], id, n.term));
                        let l = choose|l: Seq<EntryView>| #[trigger]
                            self.voted.contains((votes[i], id, n.term, l));
                        assert(after.voted.contains((votes[i], id, n.term, l)));
                    }
                }
                assert(after.elected_by(c, u, votes));
            }
        }
    }
}

/// The keys of the pairs whose values reach `x`, in order.
pub open spec fn reaching(pairs: Seq<(Seq<char>, u64)>, x: u64) -> Seq<Seq<char>>
    decreases pairs.len(),
{
    if pairs.len() == 0 {
        Seq::empty()
    } else if pairs.last().1 >= x {
        reaching(pairs.drop_last(), x).push(pairs.last().0)
    } else {
        reaching(pairs.drop_last(), x)
    }
}

/// Whether some pair has the key `key` and a value that reaches `x`.
pub open spec fn reaches_in(pairs: Seq<(Seq<char>, u64)>, key: Seq<char>, x: u64) -> bool {
    exists|j: int| 0 <= j < pairs.len() && (#[trigger] pairs[j]).0 == key && pairs[j].1 >= x
}

/// With distinct keys, the keys whose values reach `x` are as many as the
/// values that reach `x`, and none of them stands twice.
pub proof fn lemma_reaching(pairs: Seq<(Seq<char>, u64)>, x: u64)
    requires
        distinct_keys(pairs),
    ensures
        reaching(pairs, x).no_duplicates(),
        reaching(pairs, x).len() == count_ge(values_of(pairs), x),
        forall|i: int|
            0 <= i < reaching(pairs, x).len() ==> reaches_in(
                pairs,
                #[trigger] reaching(pairs, x)[i],
                x,
            ),
    decreases pairs.len(),
{
    if pairs.len() > 0 {
        let front = pairs.drop_last();
        assert(distinct_keys(front)) by {
            assert forall|i: int, j: int| 0 <= i < j < front.len() implies (#[trigger] front[i]).0
                != (#[trigger] front[j]).0 by {
                assert(front[i] == pairs[i] && front[j] == pairs[j]);
            }
        }
        lemma_reaching(front, x);
        assert(values_of(pairs).drop_last() =~= values_of(front));
        assert(values_of(pairs).last() == pairs.last().1);
        let r = reaching(front, x);
        assert forall|i: int| 0 <= i < r.len() implies reaches_in(pairs, #[trigger] r[i], x) by {
            assert(reaches_in(front, r[i], x));
            let j = choose|j: int| 0 <= j < front.len() && (#[trigger] front[j]).0 == r[i] && front[j].1 >= x;
            assert(pairs[j] == front[j]);
        }
        if pairs.last().1 >= x {
            let key = pairs.last().0;
            assert forall|i: int| 0 <= i < r.len() implies r[i] != key by {
                assert(reaches_in(front, r[i], x));
                let j = choose|j: int| 0 <= j < front.len() && (#[trigger] front[j]).0 == r[i] && front[j].1 >= x;
                assert(pairs[j] == front[j]);
                assert(pairs[j].0 != pairs[pairs.len() - 1].0);
            }
            let full = r.push(key);
            assert(reaches_in(pairs, key, x)) by {
                assert(pairs[pairs.len() - 1].0 == key);
            }
            assert forall|i: int| 0 <= i < full.len() implies reaches_in(
                pairs,
                #[trigger] full[i],
                x,
            ) by {
                if i < r.len() {
                    assert(full[i] == r[i]);
                }
            }
            assert forall|i: int, j: int| 0 <= i < full.len() && 0 <= j < full.len() && i
                != j implies full[i] != full[j] by {
                if i < r.len() && j < r.len() {
                    assert(r[i] != r[j]);
                }
            }
        }
    }
}

impl Cluster {
    /// Whether the node `q` has acknowledged, in the term `t`, a log that
    /// begins with `p`.
    pub open spec fn acked_over(self, q: Seq<char>, t: u64, p: Seq<EntryView>) -> bool {
        exists|s: Seq<EntryView>| #[trigger] self.acked.contains((q, t, s)) && is_prefix(p, s)
    }

    /// Whether `voters` are a quorum of nodes, none twice, each of which
    /// has acknowledged, in the term `t`, a log that begins with `p`.
    pub open spec fn quorum_acked(self, t: u64, p: Seq<EntryView>, voters: Seq<Seq<char>>) -> bool {
        &&& voters.no_duplicates()
        &&& forall|id: Seq<char>| #[trigger]
            self.nodes.contains_key(id) ==> voters.len() >= self.nodes[id].quorum()
        &&& forall|i: int|
            0 <= i < voters.len() ==> self.nodes.contains_key(#[trigger] voters[i])
                && self.acked_over(voters[i], t, p)
    }

    /// Whether what a leader has committed ends with an entry of its term,
    /// and was acknowledged by a quorum in that term.
    pub open spec fn committed_backed(self) -> bool {
        forall|t: u64, p: Seq<EntryView>| #[trigger]
            self.committed.contains((t, p)) ==> {
                &&& p.len() >= 1
                &&& p.last().term == t
                &&& exists|voters: Seq<Seq<char>>| self.quorum_acked(t, p, voters)
            }
    }

    /// All that holds of a cluster in the runs in which the nodes are
    /// honest.
    pub open spec fn known(self) -> bool {
        &&& self.settled()
        &&& self.tagged()
        &&& self.acks_inv()
        &&& self.votes_inv()
        &&& self.committed_backed()
    }

    /// What a quorum has acknowledged stays acknowledged by a quorum when
    /// more is acknowledged.
    pub proof fn lemma_backing_stays(self, after: Cluster, t: u64, p: Seq<EntryView>)
        requires
            exists|voters: Seq<Seq<char>>| self.quorum_acked(t, p, voters),
            after.nodes.dom() == self.nodes.dom(),
            forall|j: Seq<char>| #[trigger]
                self.nodes.contains_key(j) ==> after.nodes[j].peers == self.nodes[j].peers,
            forall|q: Seq<char>, t: u64, s: Seq<EntryView>| #[trigger]
                self.acked.contains((q, t, s)) ==> after.acked.contains((q, t, s)),
        ensures
            exists|voters: Seq<Seq<char>>| after.quorum_acked(t, p, voters),
    {
        let voters = choose|voters: Seq<Seq<char>>| self.quorum_acked(t, p, voters);
        assert forall|i: int| 0 <= i < voters.len() implies after.nodes.contains_key(
            #[trigger] voters[i],
        ) && after.acked_over(voters[i], t, p) by {
            assert(self.nodes.contains_key(voters[i]));
            let s = choose|s: Seq<EntryView>| #[trigger]
                self.acked.contains((voters[i], t, s)) && is_prefix(p, s);
            assert(after.acked.contains((voters[i], t, s)));
        }
        assert forall|j: Seq<char>| #[trigger] after.nodes.contains_key(j) implies voters.len()
            >= after.nodes[j].quorum() by {
            assert(self.nodes.contains_key(j));
        }
        assert(after.quorum_acked(t, p, voters));
    }

    /// What a leader has committed is still backed after every step.
    pub proof fn lemma_next_committed(self, after: Cluster, id: Seq<char>, input: Input)
        requires
            self.known(),
            after.settled(),
            after.tagged(),
            after.acks_inv(),
            self.stepped(after, id, input),
        ensures
            after.committed_backed(),
    {
        assert(after.nodes.dom() =~= self.nodes.dom());
        assert forall|j: Seq<char>| #[trigger] self.nodes.contains_key(j) implies after.nodes[j].peers
            == self.nodes[j].peers by {}
        assert forall|t: u64, p: Seq<EntryView>| #[trigger] after.committed.contains((t, p)) implies {
            &&& p.len() >= 1
            &&& p.last().term == t
            &&& exists|voters: Seq<Seq<char>>| after.quorum_acked(t, p, voters)
        } by {
            if self.committed.contains((t, p)) {
                self.lemma_backing_stays(after, t, p);
            } else {
                self.lemma_new_commit(after, id, input);
            }
        }
    }

    /// A peer of which a leader has noted an index holds the leader's log
    /// up to each index that is not higher.
    pub proof fn lemma_peer_backs(self, id: Seq<char>, j: int, ci: u64)
        requires
            self.acks_honest(),
            self.led_kept(),
            self.leaders_informed(),
            self.nodes.contains_key(id),
            self.nodes[id].role is Leader,
            self.won.contains((id, self.nodes[id].term)),
            0 <= j < peer_lasts(self.nodes[id]).len(),
            1 <= ci <= peer_lasts(self.nodes[id])[j].1,
            ci <= self.nodes[id].log.entries.len(),
        ensures
            peer_lasts(self.nodes[id])[j].0 != id,
            self.nodes.contains_key(peer_lasts(self.nodes[id])[j].0),
            self.acked_over(
                peer_lasts(self.nodes[id])[j].0,
                self.nodes[id].term,
                self.nodes[id].log.entries.take(ci as int),
            ),
    {
        let m = self.nodes[id];
        let t = m.term;
        let log = m.log.entries;
        let p = log.take(ci as int);
        let pair = peer_lasts(self.nodes[id])[j];
        assert(pair.1 > 0);
        assert(self.acked_len(pair.0, t, pair.1 as nat));
        let s = choose|s: Seq<EntryView>| #[trigger]
            self.acked.contains((pair.0, t, s)) && s.len() == pair.1 as nat;
        assert(self.led_prefix(t, s));
        let s1 = choose|s1: Seq<EntryView>| #[trigger]
            self.led_at.contains((t, s1)) && is_prefix(s, s1);
        assert(is_prefix(s1, log));
        lemma_prefix_trans(s, s1, log);
        assert forall|a: int| 0 <= a < p.len() implies #[trigger] s[a] == p[a] by {
            assert(log[a] == s[a]);
        }
        assert(is_prefix(p, s));
    }

    /// The leader and the peers of which it has noted an index that
    /// reaches `ci` are a quorum where the leader's count says so, and each
    /// of them has acknowledged the leader's log up to `ci`.
    pub proof fn lemma_commit_quorum(self, id: Seq<char>, ci: u64)
        requires
            self.configured(),
            self.acks_honest(),
            self.led_kept(),
            self.leaders_informed(),
            self.nodes.contains_key(id),
            self.nodes[id].role is Leader,
            self.won.contains((id, self.nodes[id].term)),
            self.acked.contains((id, self.nodes[id].term, self.nodes[id].log.entries)),
            1 <= ci <= self.nodes[id].log.entries.len(),
            count_ge(self.nodes[id].last_indexes(), ci) >= self.nodes[id].quorum(),
        ensures
            exists|voters: Seq<Seq<char>>|
                self.quorum_acked(
                    self.nodes[id].term,
                    self.nodes[id].log.entries.take(ci as int),
                    voters,
                ),
    {
        let m = self.nodes[id];
        let t = m.term;
        let log = m.log.entries;
        let p = log.take(ci as int);
        let lasts = peer_lasts(m);
        let others = reaching(lasts, ci);
        let voters = seq![id] + others;
        lemma_reaching(lasts, ci);
        lemma_count_ge_first(m.log.last_index(), values_of(lasts), ci);
        assert(m.last_indexes() == seq![m.log.last_index()] + values_of(lasts));
        assert forall|i: int| 0 <= i < others.len() implies others[i] != id
            && self.nodes.contains_key(#[trigger] others[i]) && self.acked_over(
            others[i],
            t,
            p,
        ) by {
            assert(reaches_in(lasts, others[i], ci));
            let j = choose|j: int| 0 <= j < lasts.len() && (#[trigger] lasts[j]).0 == others[i] && lasts[j].1 >= ci;
            self.lemma_peer_backs(id, j, ci);
        }
        assert(voters.no_duplicates()) by {
            assert forall|a: int, b: int| 0 <= a < voters.len() && 0 <= b < voters.len() && a
                != b implies voters[a] != voters[b] by {
                if a > 0 && b > 0 {
                    assert(others[a - 1] != others[b - 1]);
                } else if a > 0 {
                    assert(others[a - 1] != id);
                } else {
                    assert(others[b - 1] != id);
                }
            }
        }
        assert forall|i: int| 0 <= i < voters.len() implies self.nodes.contains_key(
            #[trigger] voters[i],
        ) && self.acked_over(voters[i], t, p) by {
            if i == 0 {
                lemma_take_prefix(log, ci as int);
            } else {
                assert(voters[i] == others[i - 1]);
            }
        }
        assert forall|j: Seq<char>| #[trigger] self.nodes.contains_key(j) implies voters.len()
            >= self.nodes[j].quorum() by {
            self.lemma_same_size(id, j);
        }
        assert(self.quorum_acked(t, p, voters));
    }

    /// What a leader commits in a step ends with an entry of its term, and
    /// a quorum has acknowledged it.
    pub proof fn lemma_new_commit(self, after: Cluster, id: Seq<char>, input: Input)
        requires
            self.known(),
            after.settled(),
            after.tagged(),
            after.acks_inv(),
            self.stepped(after, id, input),
            after.nodes[id].role is Leader,
            after.nodes[id].log.commit_index > self.nodes[id].log.commit_index,
        ensures
            after.nodes[id].log.commit_index <= after.nodes[id].log.entries.len(),
            after.nodes[id].log.entries[after.nodes[id].log.commit_index - 1].term
                == after.nodes[id].term,
            exists|voters: Seq<Seq<char>>|
                after.quorum_acked(
                    after.nodes[id].term,
                    after.nodes[id].log.entries.take(after.nodes[id].log.commit_index as int),
                    voters,
                ),
    {
        let m = after.nodes[id];
        assert(sound(m));
        assert(after.won.contains((id, m.term)));
        assert(after.led_at.contains((m.term, m.log.entries)));
        assert(after.acked.contains((id, m.term, m.log.entries)));
        after.lemma_commit_quorum(id, m.log.commit_index);
    }

    /// What a quorum has acknowledged in a term, up to an entry of that
    /// term, is the beginning of every log that a leader of a later term
    /// has had.
    pub proof fn lemma_complete(
        self,
        t: u64,
        p: Seq<EntryView>,
        voters: Seq<Seq<char>>,
        u: u64,
        s: Seq<EntryView>,
    )
        requires
            self.known(),
            p.len() >= 1,
            p.last().term == t,
            self.quorum_acked(t, p, voters),
            self.led_at.contains((u, s)),
            u > t,
        ensures
            is_prefix(p, s),
        decreases u, 2int,
    {
        assert(self.term_won(u));
        let c = choose|c: Seq<char>| #[trigger] self.won.contains((c, u));
        assert(self.nodes.contains_key(c));
        assert(self.ran_prefix(c, u, s));
        let x = choose|x: Seq<EntryView>| #[trigger] self.ran.contains((c, u, x)) && is_prefix(x, s);
        let votes = choose|votes: Seq<Seq<char>>| self.elected_by(c, u, votes);
        self.lemma_quorums_meet(c, votes, voters);
        let (i, j) = choose|i: int, j: int|
            0 <= i < votes.len() && 0 <= j < voters.len() && votes[i] == voters[j];
        let v = votes[i];
        assert(voters[j] == v);
        assert(self.acked_over(v, t, p));
        let sv = choose|sv: Seq<EntryView>| #[trigger] self.acked.contains((v, t, sv)) && is_prefix(p, sv);
        lemma_prefix_take(p, sv);
        let k = p.len() as int;
        assert(p == sv.take(k));
        if self.overwritten(t, u - 1, p) {
            let (t2, s2) = choose|t2: u64, s2: Seq<EntryView>| #[trigger]
                self.led_at.contains((t2, s2)) && t < t2 <= u - 1 && !is_prefix(p, s2);
            self.lemma_complete(t, p, voters, t2, s2);
            assert(false);
        }
        if v == c {
            assert(is_prefix(sv.take(k), x) || self.overwritten(t, u - 1, sv.take(k)));
            assert(is_prefix(p, x));
        } else {
            assert(self.vote_known(v, c, u));
            let l = choose|l: Seq<EntryView>| #[trigger] self.voted.contains((v, c, u, l));
            assert(is_prefix(sv.take(k), l) || self.overwritten(t, u - 1, sv.take(k))
                || self.rival(c, u));
            if self.rival(c, u) {
                let c2 = choose|c2: Seq<char>| #[trigger] self.won.contains((c2, u)) && c2 != c;
                assert(c2 == c);
            }
            assert(is_prefix(p, l));
            assert(self.ran_ahead(c, u, l));
            let x2 = choose|x2: Seq<EntryView>| #[trigger]
                self.ran.contains((c, u, x2)) && up_to_date(
                    last_term_of(x2),
                    x2.len() as u64,
                    l,
                );
            assert(x2 == x);
            self.lemma_ahead(t, p, voters, u, x, l);
        }
        lemma_prefix_trans(p, x, s);
    }

    /// A candidate whose log is at least as far as that of a voter that
    /// holds what a quorum has acknowledged holds it too.
    pub proof fn lemma_ahead(
        self,
        t: u64,
        p: Seq<EntryView>,
        voters: Seq<Seq<char>>,
        u: u64,
        x: Seq<EntryView>,
        l: Seq<EntryView>,
    )
        requires
            self.known(),
            p.len() >= 1,
            p.last().term == t,
            self.quorum_acked(t, p, voters),
            u > t,
            x.len() <= u64::MAX,
            below(x, u),
            self.anchored(x),
            monotone(l),
            self.anchored(l),
            is_prefix(p, l),
            up_to_date(last_term_of(x), x.len() as u64, l),
        ensures
            is_prefix(p, x),
        decreases u, 1int,
    {
        let last_l = l[l.len() - 1];
        assert(l[p.len() - 1] == p[p.len() - 1]);
        assert(last_l.term >= t);
        assert(last_term_of(l) == last_l.term);
        assert(x.len() >= 1);
        let last_x = x[x.len() - 1];
        assert(last_term_of(x) == last_x.term);
        let s1 = choose|s1: Seq<EntryView>| #[trigger]
            self.led_at.contains((last_term_of(x), s1)) && is_prefix(x, s1);
        if last_term_of(x) > last_term_of(l) {
            let t1 = last_term_of(x);
            assert(t1 < u);
            self.lemma_complete(t, p, voters, t1, s1);
            assert(self.led.contains(s1));
            assert(self.has_log(s1));
            assert(monotone(s1));
            if p.len() > x.len() {
                assert(s1[x.len() - 1] == x[x.len() - 1]);
                assert(s1[p.len() - 1] == p[p.len() - 1]);
                assert(s1[x.len() - 1].term <= s1[p.len() - 1].term);
            }
            lemma_prefixes_ordered(p, x, s1);
            if !is_prefix(p, x) {
                assert(p =~= x);
            }
        } else {
            let s2 = choose|s2: Seq<EntryView>| #[trigger]
                self.led_at.contains((last_term_of(l), s2)) && is_prefix(l, s2);
            assert(is_prefix(s1, s2) || is_prefix(s2, s1));
            if is_prefix(s1, s2) {
                lemma_prefix_trans(x, s1, s2);
                lemma_prefixes_ordered(l, x, s2);
            } else {
                lemma_prefix_trans(l, s2, s1);
                lemma_prefixes_ordered(l, x, s1);
            }
            if !is_prefix(l, x) {
                assert(l =~= x);
            }
            lemma_prefix_trans(p, l, x);
        }
    }

}

impl Cluster {
    /// All that holds of a cluster holds at a fresh start.
    pub proof fn lemma_fresh_known(self)
        requires
            self.fresh(),
        ensures
            self.known(),
    {
        self.lemma_fresh();
        assert forall|x: Seq<EntryView>| self.has_log(x) implies x.len() == 0 by {
            if self.kept_by(x) {
                let id = choose|id: Seq<char>| #[trigger]
                    self.nodes.contains_key(id) && self.nodes[id].log.entries == x;
            }
        }
        assert(self.tagged()) by {
            assert forall|id: Seq<char>| #[trigger]
                self.nodes.contains_key(id) && self.nodes[id].role is Leader implies self.led_at.contains(
                (self.nodes[id].term, self.nodes[id].log.entries),
            ) by {
                assert(self.won.contains((id, self.nodes[id].term)));
            }
            assert forall|x: Seq<EntryView>, i: int| #[trigger] self.holds_entry(x, i) implies self.owned(
                x[i].term,
                i,
            ) by {
                assert(self.has_log(x));
            }
            assert forall|x: Seq<EntryView>| #[trigger] self.has_log(x) implies monotone(x) by {
                assert(x.len() == 0);
            }
        }
        assert(self.acks_inv()) by {
            assert forall|q: Seq<char>, t: u64, s: Seq<EntryView>| #[trigger]
                self.acked.contains((q, t, s)) implies {
                &&& self.nodes.contains_key(q)
                &&& self.nodes[q].term >= t
                &&& self.led_prefix(t, s)
            } by {
                assert(self.won.contains((q, t)));
                assert(self.term_won(t));
                assert(self.led_at.contains((t, s)));
                assert(is_prefix(s, s));
            }
            assert forall|q: Seq<char>, t: u64, s: Seq<EntryView>, k: int|
                #![trigger self.acked.contains((q, t, s)), s.take(k)]
                self.acked.contains((q, t, s)) && 0 <= k <= s.len() implies is_prefix(
                s.take(k),
                self.nodes[q].log.entries,
            ) || self.overwritten(t, self.nodes[q].term as int, s.take(k)) by {
                assert(s.take(k).len() == 0);
            }
            assert forall|t: u64, s: Seq<EntryView>, c: Seq<char>|
                #![trigger self.led_at.contains((t, s)), self.won.contains((c, t))]
                self.led_at.contains((t, s)) && self.won.contains((c, t)) implies self.acked.contains(
                (c, t, s),
            ) by {}
            assert(self.leaders_informed());
        }
        assert(self.votes_inv()) by {
            assert forall|c: Seq<char>, u: u64, x: Seq<EntryView>| #[trigger]
                self.ran.contains((c, u, x)) implies {
                &&& self.nodes.contains_key(c)
                &&& self.nodes[c].term >= u
                &&& x.len() <= u64::MAX
                &&& below(x, u)
                &&& self.anchored(x)
            } by {
                assert(self.won.contains((c, u)));
            }
            assert forall|c: Seq<char>, u: u64, x: Seq<EntryView>, y: Seq<EntryView>|
                #![trigger self.ran.contains((c, u, x)), self.ran.contains((c, u, y))]
                self.ran.contains((c, u, x)) && self.ran.contains((c, u, y)) implies x == y by {
                assert(x =~= y);
            }
            assert forall|t: u64, s: Seq<EntryView>, c: Seq<char>|
                #![trigger self.led_at.contains((t, s)), self.won.contains((c, t))]
                self.led_at.contains((t, s)) && self.won.contains((c, t)) implies self.ran_prefix(
                c,
                t,
                s,
            ) by {
                assert(self.ran.contains((c, t, s)));
                assert(is_prefix(s, s));
            }
            assert forall|
                c: Seq<char>,
                u: u64,
                x: Seq<EntryView>,
                t: u64,
                s: Seq<EntryView>,
                k: int,
            |
                #![trigger self.ran.contains((c, u, x)), self.acked.contains((c, t, s)), s.take(k)]
                self.ran.contains((c, u, x)) && self.acked.contains((c, t, s)) && t < u && 0 <= k
                    <= s.len() implies is_prefix(s.take(k), x) || self.overwritten(
                t,
                u - 1,
                s.take(k),
            ) by {
                assert(s.take(k).len() == 0);
            }
            assert forall|c: Seq<char>, u: u64| #[trigger] self.won.contains((c, u)) implies exists|
                votes: Seq<Seq<char>>,
            |
                self.elected_by(c, u, votes) by {
                let votes = seq![c];
                assert(self.elected_by(c, u, votes));
            }
        }
    }

    /// All that holds of a cluster holds after every step in which the
    /// node is honest.
    pub proof fn lemma_next_known(self, after: Cluster, id: Seq<char>, input: Input)
        requires
            self.known(),
            self.next(after, id, input),
            self.honest(after, id),
        ensures
            after.known(),
    {
        self.lemma_next(after, id, input);
        self.lemma_next_history(after, id, input);
        self.lemma_next_logs(after, id, input);
        self.lemma_stepped(after, id, input);
        self.lemma_next_tagged(after, id, input);
        self.lemma_next_acks(after, id, input);
        self.lemma_next_votes(after, id, input);
        self.lemma_next_committed(after, id, input);
    }

    /// Whether some node takes some input between the states at `k` and
    /// after it, and is honest in doing so.
    pub open spec fn steps_honestly_at(states: Seq<Cluster>, k: int) -> bool {
        exists|id: Seq<char>, input: Input| #[trigger]
            states[k].next(states[k + 1], id, input) && states[k].honest(states[k + 1], id)
    }

    /// Whether the clusters of `states` follow each other from a fresh
    /// start, by steps in which no follower acknowledges more than the
    /// leader of its term has had.
    pub open spec fn reaches_honestly(states: Seq<Cluster>) -> bool {
        &&& states.len() > 0
        &&& states[0].fresh()
        &&& forall|k: int|
            0 <= k < states.len() - 1 ==> #[trigger] Cluster::steps_honestly_at(states, k)
    }

    /// All that holds of a cluster holds in every state of such a run.
    pub proof fn lemma_reaches_honestly_known(states: Seq<Cluster>, k: int)
        requires
            Cluster::reaches_honestly(states),
            0 <= k < states.len(),
        ensures
            states[k].known(),
        decreases k,
    {
        if k == 0 {
            states[0].lemma_fresh_known();
        } else {
            Cluster::lemma_reaches_honestly_known(states, k - 1);
            assert(Cluster::steps_honestly_at(states, k - 1));
            let (id, input) = choose|id: Seq<char>, input: Input| #[trigger]
                states[k - 1].next(states[k - 1 + 1], id, input) && states[k - 1].honest(
                    states[k - 1 + 1],
                    id,
                );
            states[k - 1].lemma_next_known(states[k], id, input);
        }
    }

    /// What a leader has committed is in the log of every leader of a
    /// later term: in every state of a run from a fresh start in which no
    /// follower acknowledges more than the leader of its term has had,
    /// each entry up to an index that a leader committed in a term stands,
    /// at its index, in the log of each node that leads in a later term.
    pub proof fn lemma_leader_completeness(
        states: Seq<Cluster>,
        t: u64,
        p: Seq<EntryView>,
        id: Seq<char>,
        index: u64,
    )
        requires
            Cluster::reaches_honestly(states),
            states.last().committed.contains((t, p)),
            states.last().nodes.contains_key(id),
            states.last().nodes[id].role is Leader,
            states.last().nodes[id].term > t,
            1 <= index <= p.len(),
        ensures
            states.last().nodes[id].log.get(index) == Some(p[index - 1]),
    {
        let c = states.last();
        Cluster::lemma_reaches_honestly_known(states, states.len() - 1);
        let voters = choose|voters: Seq<Seq<char>>| c.quorum_acked(t, p, voters);
        let log = c.nodes[id].log.entries;
        assert(c.led_at.contains((c.nodes[id].term, log)));
        c.lemma_complete(t, p, voters, c.nodes[id].term, log);
        assert(log[index - 1] == p[index - 1]);
    }
}

} // verus!
