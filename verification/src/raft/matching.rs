//! The proof that the logs of a cluster match: where two logs hold an
//! entry of the same term at the same index, they are the same up to that
//! index.

use crate::raft::cluster::{begins, carries, vote, Cluster};
use crate::raft::codec::EntryView;
use crate::raft::log::LogView;
use crate::raft::message::{AddressView, EventView, MessageView};
use crate::raft::node::election::{elects, granted, tally, voter};
use crate::raft::node::replication::{replicates, snapshot, snapshot_between, spliced};
use crate::raft::node::safety::Input;
use crate::raft::node::RoleView;
use vstd::prelude::*;

verus! {

/// Whether the two logs hold an entry of the same term at offset `i`.
pub open spec fn same_term_at(a: Seq<EntryView>, b: Seq<EntryView>, i: int) -> bool {
    0 <= i < a.len() && i < b.len() && a[i].term == b[i].term
}

/// Whether the two logs match: where they hold an entry of the same term
/// at the same place, they are the same up to that place.
pub open spec fn matching(a: Seq<EntryView>, b: Seq<EntryView>) -> bool {
    forall|i: int| #[trigger] same_term_at(a, b, i) ==> a.take(i + 1) == b.take(i + 1)
}

/// Whether each entry of the log carries its own index.
pub open spec fn indexed(log: Seq<EntryView>) -> bool {
    &&& log.len() <= u64::MAX
    &&& forall|i: int| 0 <= i < log.len() ==> (#[trigger] log[i]).index == i + 1
}

/// A log matches itself.
pub proof fn lemma_matching_refl(a: Seq<EntryView>)
    ensures
        matching(a, a),
{
}

/// The beginning of a log matches what the log matches.
pub proof fn lemma_matching_prefix(a: Seq<EntryView>, k: int, b: Seq<EntryView>)
    requires
        matching(a, b),
        0 <= k <= a.len(),
    ensures
        matching(a.take(k), b),
        matching(b, a.take(k)),
{
    let p = a.take(k);
    assert forall|i: int| #[trigger] same_term_at(p, b, i) implies p.take(i + 1) == b.take(
        i + 1,
    ) by {
        assert(same_term_at(a, b, i));
        assert(p.take(i + 1) =~= a.take(i + 1));
    }
    assert forall|i: int| #[trigger] same_term_at(b, p, i) implies b.take(i + 1) == p.take(
        i + 1,
    ) by {
        assert(same_term_at(a, b, i));
        assert(p.take(i + 1) =~= a.take(i + 1));
    }
}

/// Matching does not depend on the order of the two logs.
pub proof fn lemma_matching_sym(a: Seq<EntryView>, b: Seq<EntryView>)
    requires
        matching(a, b),
    ensures
        matching(b, a),
{
    assert forall|i: int| #[trigger] same_term_at(b, a, i) implies b.take(i + 1) == a.take(
        i + 1,
    ) by {
        assert(same_term_at(a, b, i));
    }
}

/// A follower that splices in the end of a log that its own log matches
/// has its own log afterwards, or that log.
pub proof fn lemma_splice_snapshot(log: LogView, led: Seq<EntryView>, w: MessageView)
    requires
        log.valid(),
        indexed(led),
        snapshot(led, w),
        matching(log.entries, led),
        w.event->ReplicateEntries_base_index == 0 || log.has(
            w.event->ReplicateEntries_base_index,
            w.event->ReplicateEntries_base_term,
        ),
        log.accepts(w.event->ReplicateEntries_entries),
    ensures
        log.splice(w.event->ReplicateEntries_entries).entries == log.entries || log.splice(
            w.event->ReplicateEntries_entries,
        ).entries == led,
{
    let b = w.event->ReplicateEntries_base_index as int;
    let bt = w.event->ReplicateEntries_base_term;
    let es = w.event->ReplicateEntries_entries;
    log.lemma_conflict_exists(es, 0);
    let k = log.agreeing(es);
    if k < es.len() {
        assert forall|j: int| 0 <= j < es.len() implies es[j] == led[b + j] by {}
        let cut = es[k].index as int;
        assert(es[k] == led[b + k]);
        assert(cut == b + k + 1);
        assert(log.entries.take(b + k) =~= led.take(b + k)) by {
            if k > 0 {
                assert(log.agrees(es[k - 1]));
                assert(es[k - 1] == led[b + k - 1]);
                assert(same_term_at(log.entries, led, b + k - 1));
            } else if b > 0 {
                assert(same_term_at(log.entries, led, b - 1));
            }
        }
        assert(log.splice(es).entries =~= led);
    }
}

impl Cluster {
    /// Whether `votes` are a mandate for the node `id` to lead in the term
    /// `term`: a quorum of votes, no two of one voter, each the node's own
    /// or sent by the voter.
    pub open spec fn mandate_at(self, id: Seq<char>, term: u64, votes: Seq<Seq<char>>) -> bool {
        &&& votes.no_duplicates()
        &&& votes.len() >= self.nodes[id].quorum()
        &&& forall|i: int|
            0 <= i < votes.len() ==> (#[trigger] votes[i]) == id || self.sent.contains(
                vote(votes[i], id, term),
            )
    }

    /// Whether each node that has come to lead in a term is in that term
    /// or beyond it, and leads while it is in it.
    pub open spec fn winners_lead(self) -> bool {
        forall|id: Seq<char>, t: u64| #[trigger]
            self.won.contains((id, t)) ==> {
                &&& self.nodes.contains_key(id)
                &&& self.nodes[id].term >= t
                &&& self.nodes[id].term == t ==> self.nodes[id].role is Leader
            }
    }

    /// Whether each leader is known to have come to lead in its term.
    pub open spec fn leaders_won(self) -> bool {
        forall|id: Seq<char>| #[trigger]
            self.nodes.contains_key(id) && self.nodes[id].role is Leader ==> self.won.contains(
                (id, self.nodes[id].term),
            )
    }

    /// Whether no node that has come to lead in a term has granted another
    /// node its vote in that term.
    pub open spec fn winners_kept_vote(self) -> bool {
        forall|id: Seq<char>, t: u64, w: MessageView|
            #![trigger self.won.contains((id, t)), self.sent.contains(w)]
            self.won.contains((id, t)) && self.sent.contains(w) && w.event is GrantVote && w.from
                == AddressView::Peer(id) && w.term == t ==> w.to == AddressView::Peer(id)
    }

    /// Whether each node that has come to lead in a term had a mandate, of
    /// which the votes are still known.
    pub open spec fn winners_mandated(self) -> bool {
        forall|id: Seq<char>, t: u64| #[trigger]
            self.won.contains((id, t)) ==> exists|votes: Seq<Seq<char>>|
                self.mandate_at(id, t, votes)
    }

    /// Whether at most one node has come to lead in each term.
    pub open spec fn one_winner(self) -> bool {
        forall|a: Seq<char>, b: Seq<char>, t: u64|
            #![trigger self.won.contains((a, t)), self.won.contains((b, t))]
            self.won.contains((a, t)) && self.won.contains((b, t)) ==> a == b
    }

    /// What holds of the elections that a cluster has seen.
    pub open spec fn history(self) -> bool {
        &&& self.winners_lead()
        &&& self.leaders_won()
        &&& self.winners_kept_vote()
        &&& self.winners_mandated()
        &&& self.one_winner()
    }

    /// Each voter of a mandate is a node of the cluster.
    pub proof fn lemma_mandate_members(self, id: Seq<char>, t: u64, votes: Seq<Seq<char>>)
        requires
            self.genuine(),
            self.nodes.contains_key(id),
            self.mandate_at(id, t, votes),
        ensures
            forall|i: int| 0 <= i < votes.len() ==> self.nodes.contains_key(#[trigger] votes[i]),
    {
        assert forall|i: int| 0 <= i < votes.len() implies self.nodes.contains_key(
            #[trigger] votes[i],
        ) by {
            if votes[i] != id {
                assert(self.sent.contains(vote(votes[i], id, t)));
            }
        }
    }

    /// A mandate stays one when more is sent.
    pub proof fn lemma_mandate_stays(self, after: Cluster, id: Seq<char>, t: u64, votes: Seq<Seq<char>>)
        requires
            self.mandate_at(id, t, votes),
            after.nodes[id].quorum() == self.nodes[id].quorum(),
            forall|w: MessageView| self.sent.contains(w) ==> after.sent.contains(w),
        ensures
            after.mandate_at(id, t, votes),
    {
    }

    /// A node that comes to lead in a term is the only one that ever has.
    pub proof fn lemma_sole_winner(self, id: Seq<char>, input: Input, b: Seq<char>)
        requires
            self.inv(),
            self.history(),
            self.nodes.contains_key(id),
            self.nodes[id].role is Candidate,
            granted(self.nodes[id], input),
            match input {
                Input::Message(msg) => self.sent.contains(msg) || !(msg.from is Peer),
                Input::Tick => true,
            },
            tally(self.nodes[id], voter(input)).len() >= self.nodes[id].quorum(),
            self.won.contains((b, self.nodes[id].term)),
        ensures
            b == id,
    {
        let n = self.nodes[id];
        let t = n.term;
        if b != id {
            let vb = choose|votes: Seq<Seq<char>>| self.mandate_at(b, t, votes);
            let vi = tally(n, voter(input));
            self.lemma_granted_backed(id, input);
            assert(self.mandate_at(id, t, vi));
            self.lemma_mandate_members(b, t, vb);
            self.lemma_mandate_members(id, t, vi);
            self.lemma_same_size(id, b);
            self.lemma_quorums_meet(id, vi, vb);
            let (i, j) = choose|i: int, j: int|
                0 <= i < vi.len() && 0 <= j < vb.len() && vi[i] == vb[j];
            let v = vi[i];
            assert(vb[j] == v);
            if v == b {
                let w = vote(b, id, t);
                assert(self.sent.contains(w));
                assert(w.to == AddressView::Peer(b));
            } else if v == id {
                let w = vote(id, b, t);
                assert(self.sent.contains(w));
                assert(self.nodes[w.from->Peer_0].role is Follower);
            } else {
                let w1 = vote(v, id, t);
                let w2 = vote(v, b, t);
                assert(self.sent.contains(w1) && self.sent.contains(w2));
                assert(w1.to == w2.to);
            }
        }
    }

    /// What holds of the elections holds after every step.
    pub proof fn lemma_next_history(self, after: Cluster, id: Seq<char>, input: Input)
        requires
            self.inv(),
            self.history(),
            self.next(after, id, input),
        ensures
            after.history(),
    {
        let n = self.nodes[id];
        let m = n.take(input)->0;
        assert(after.nodes[id] == m);
        match input {
            Input::Message(msg) => {
                n.lemma_step(msg);
                n.lemma_step_elects(msg);
            },
            Input::Tick => {
                n.lemma_tick();
                n.lemma_tick_elects();
            },
        }
        self.lemma_next(after, id, input);
        // A node that has just come to lead was a candidate with a quorum.
        let just_won = m.role is Leader && !self.won.contains((id, m.term));
        if just_won {
            assert(!(n.role is Leader));
            assert(n.role is Candidate && granted(n, input));
        }
        assert(after.winners_lead()) by {
            assert forall|a: Seq<char>, t: u64| #[trigger] after.won.contains((a, t)) implies {
                &&& after.nodes.contains_key(a)
                &&& after.nodes[a].term >= t
                &&& after.nodes[a].term == t ==> after.nodes[a].role is Leader
            } by {
                if self.won.contains((a, t)) {
                    assert(self.nodes.contains_key(a));
                }
            }
        }
        assert(after.leaders_won()) by {
            assert forall|a: Seq<char>| #[trigger]
                after.nodes.contains_key(a) && after.nodes[a].role is Leader implies after.won.contains(
                (a, after.nodes[a].term),
            ) by {
                if a != id {
                    assert(self.nodes.contains_key(a));
                }
            }
        }
        assert(after.winners_kept_vote()) by {
            assert forall|a: Seq<char>, t: u64, w: MessageView|
                #![trigger after.won.contains((a, t)), after.sent.contains(w)]
                after.won.contains((a, t)) && after.sent.contains(w) && w.event is GrantVote
                    && w.from == AddressView::Peer(a) && w.term == t implies w.to
                == AddressView::Peer(a) by {
                if !self.sent.contains(w) {
                    self.lemma_new_message(after, id, input, w);
                } else if !self.won.contains((a, t)) {
                    assert(a == id && t == m.term);
                    assert(w.term <= n.term);
                    assert(self.nodes[w.from->Peer_0].role is Follower);
                }
            }
        }
        assert(after.winners_mandated()) by {
            assert forall|a: Seq<char>, t: u64| #[trigger]
                after.won.contains((a, t)) implies exists|votes: Seq<Seq<char>>|
                after.mandate_at(a, t, votes) by {
                if self.won.contains((a, t)) {
                    let votes = choose|votes: Seq<Seq<char>>| self.mandate_at(a, t, votes);
                    self.lemma_mandate_stays(after, a, t, votes);
                } else {
                    let votes = tally(n, voter(input));
                    self.lemma_granted_backed(id, input);
                    assert(votes.no_duplicates());
                    assert(self.mandate_at(id, n.term, votes));
                    self.lemma_mandate_stays(after, id, n.term, votes);
                }
            }
        }
        assert(after.one_winner()) by {
            assert forall|a: Seq<char>, b: Seq<char>, t: u64|
                #![trigger after.won.contains((a, t)), after.won.contains((b, t))]
                after.won.contains((a, t)) && after.won.contains((b, t)) implies a == b by {
                let old_a = self.won.contains((a, t));
                let old_b = self.won.contains((b, t));
                if old_a && old_b {
                } else if !old_a && !old_b {
                } else if old_a {
                    self.lemma_sole_winner(id, input, a);
                } else {
                    self.lemma_sole_winner(id, input, b);
                }
            }
        }
    }
}

impl Cluster {
    /// Whether `x` is the log of a node.
    pub open spec fn kept_by(self, x: Seq<EntryView>) -> bool {
        exists|id: Seq<char>| #[trigger] self.nodes.contains_key(id) && self.nodes[id].log.entries == x
    }

    /// Whether `x` is a log of the cluster: the log of a node, or a log
    /// that a leader has had.
    pub open spec fn has_log(self, x: Seq<EntryView>) -> bool {
        self.led.contains(x) || self.kept_by(x)
    }

    /// Whether `x` is a log of the cluster with an entry at offset `i`.
    pub open spec fn holds_entry(self, x: Seq<EntryView>, i: int) -> bool {
        self.has_log(x) && 0 <= i < x.len()
    }

    /// Whether some leader has had a log of which the message hands on the
    /// end.
    pub open spec fn led_snapshot(self, w: MessageView) -> bool {
        exists|x: Seq<EntryView>| #[trigger] self.led.contains(x) && snapshot(x, w)
    }

    /// Whether some node has come to lead in the term `t`.
    pub open spec fn term_won(self, t: u64) -> bool {
        exists|id: Seq<char>| #[trigger] self.won.contains((id, t))
    }

    /// Whether all logs of the cluster match each other.
    pub open spec fn logs_match(self) -> bool {
        forall|a: Seq<EntryView>, b: Seq<EntryView>|
            #![trigger self.has_log(a), self.has_log(b)]
            self.has_log(a) && self.has_log(b) ==> matching(a, b)
    }

    /// Whether each entry of each log that a leader has had carries its
    /// own index.
    pub open spec fn led_indexed(self) -> bool {
        forall|x: Seq<EntryView>| #[trigger] self.led.contains(x) ==> indexed(x)
    }

    /// Whether each message with entries hands on the end of a log that a
    /// leader has had.
    pub open spec fn replicas_led(self) -> bool {
        forall|w: MessageView| #[trigger]
            self.sent.contains(w) && w.event is ReplicateEntries ==> self.led_snapshot(w)
    }

    /// Whether each entry is of a term in which some node has come to lead.
    pub open spec fn terms_won(self) -> bool {
        forall|x: Seq<EntryView>, i: int| #[trigger]
            self.holds_entry(x, i) ==> self.term_won(x[i].term)
    }

    /// Whether the log of each leader holds, at the same place, every entry
    /// of its term that any log of the cluster holds.
    pub open spec fn winners_own(self) -> bool {
        forall|id: Seq<char>, t: u64, x: Seq<EntryView>, i: int|
            #![trigger self.won.contains((id, t)), self.holds_entry(x, i)]
            self.won.contains((id, t)) && self.nodes[id].term == t && self.holds_entry(x, i)
                && x[i].term == t ==> i < self.nodes[id].log.entries.len()
                && self.nodes[id].log.entries[i].term == t
    }

    /// What holds of the logs of a cluster in every state that it can
    /// reach from a fresh start.
    pub open spec fn logs_inv(self) -> bool {
        &&& self.logs_match()
        &&& self.led_indexed()
        &&& self.replicas_led()
        &&& self.terms_won()
        &&& self.winners_own()
    }

    /// Whether the cluster is at a fresh start: nothing is sent, every log
    /// is empty, nothing is committed, and no node has come to lead but
    /// one that is alone. What is known of the past is the empty log of
    /// such a leader.
    pub open spec fn fresh(self) -> bool {
        &&& self.init()
        &&& forall|x: Seq<EntryView>| #[trigger] self.led.contains(x) <==> x.len() == 0
        &&& forall|id: Seq<char>| #[trigger]
            self.nodes.contains_key(id) ==> self.nodes[id].log.entries.len() == 0
                && self.nodes[id].log.commit_index == 0 && (self.nodes[id].role matches RoleView::Leader {
                peer_last_index,
                ..
            } ==> peer_last_index.len() == 0)
        &&& forall|id: Seq<char>, t: u64| #[trigger]
            self.won.contains((id, t)) <==> (self.nodes.contains_key(id) && self.nodes[id].role
                is Leader && self.nodes[id].term == t)
        &&& forall|t: u64, x: Seq<EntryView>| #[trigger]
            self.led_at.contains((t, x)) <==> (x.len() == 0 && self.term_won(t))
        &&& forall|q: Seq<char>, t: u64, x: Seq<EntryView>| #[trigger]
            self.acked.contains((q, t, x)) <==> (x.len() == 0 && self.won.contains((q, t)))
        &&& forall|c: Seq<char>, t: u64, x: Seq<EntryView>| #[trigger]
            self.ran.contains((c, t, x)) <==> (x.len() == 0 && self.won.contains((c, t)))
        &&& self.voted == Set::<(Seq<char>, Seq<char>, u64, Seq<EntryView>)>::empty()
        &&& self.committed == Set::<(u64, Seq<EntryView>)>::empty()
    }

    /// All that holds of a cluster holds at a fresh start.
    pub proof fn lemma_fresh(self)
        requires
            self.fresh(),
        ensures
            self.inv(),
            self.history(),
            self.logs_inv(),
    {
        self.lemma_init();
        assert forall|id: Seq<char>, t: u64| #[trigger]
            self.won.contains((id, t)) implies exists|votes: Seq<Seq<char>>|
            self.mandate_at(id, t, votes) by {
            let votes = seq![id];
            assert(self.mandate_at(id, t, votes));
        }
        assert(self.one_winner()) by {
            assert forall|a: Seq<char>, b: Seq<char>, t: u64|
                #![trigger self.won.contains((a, t)), self.won.contains((b, t))]
                self.won.contains((a, t)) && self.won.contains((b, t)) implies a == b by {
                if a != b {
                    assert(self.nodes.contains_key(a) && self.nodes.contains_key(b));
                    assert(self.nodes[a].peers.contains(b));
                }
            }
        }
        assert(self.winners_kept_vote());
        assert(self.winners_lead());
        assert(self.leaders_won());
        assert forall|x: Seq<EntryView>| self.has_log(x) implies x.len() == 0 by {
            if self.kept_by(x) {
                let id = choose|id: Seq<char>| #[trigger]
                    self.nodes.contains_key(id) && self.nodes[id].log.entries == x;
            }
        }
        assert(self.logs_match()) by {
            assert forall|a: Seq<EntryView>, b: Seq<EntryView>|
                #![trigger self.has_log(a), self.has_log(b)]
                self.has_log(a) && self.has_log(b) implies matching(a, b) by {
                assert(a.len() == 0);
            }
        }
    }

    /// A log of the cluster after a step was one before, or is the log of
    /// the node that took the step, which leads, up to some entry.
    pub proof fn lemma_after_log(
        self,
        after: Cluster,
        id: Seq<char>,
        input: Input,
        y: Seq<EntryView>,
    )
        requires
            self.inv(),
            self.logs_inv(),
            self.next(after, id, input),
            replicates(self.nodes[id], input, after.nodes[id]),
            after.has_log(y),
        ensures
            self.has_log(y) || (after.nodes[id].role is Leader && begins(
                y,
                after.nodes[id].log.entries,
            )),
    {
        let n = self.nodes[id];
        let m = after.nodes[id];
        if after.led.contains(y) {
        } else {
            let j = choose|j: Seq<char>| #[trigger]
                after.nodes.contains_key(j) && after.nodes[j].log.entries == y;
            assert(self.nodes.contains_key(j));
            if j != id {
                assert(self.kept_by(y));
            } else if m.role is Leader {
                assert(y == m.log.entries.take(m.log.entries.len() as int)) by {
                    assert(m.log.entries.take(m.log.entries.len() as int) =~= m.log.entries);
                }
            } else if m.log.entries == n.log.entries {
                assert(self.kept_by(y));
            } else {
                assert(spliced(n, input, m));
                match input {
                    Input::Message(w) => {
                        match w.event {
                            EventView::ReplicateEntries { base_index, base_term, entries } => {
                                let log = choose|log: LogView|
                                    {
                                        &&& log.valid()
                                        &&& log.entries == n.log.entries
                                        &&& base_index == 0 || log.has(base_index, base_term)
                                        &&& log.accepts(entries)
                                        &&& !log.splice_hits_committed(entries)
                                        &&& m.log.entries == (#[trigger] log.splice(
                                            entries,
                                        )).entries
                                    };
                                assert(self.sent.contains(w));
                                assert(self.led_snapshot(w));
                                let led = choose|x: Seq<EntryView>| #[trigger]
                                    self.led.contains(x) && snapshot(x, w);
                                assert(self.kept_by(n.log.entries));
                                assert(self.has_log(n.log.entries) && self.has_log(led));
                                lemma_splice_snapshot(log, led, w);
                                if m.log.entries == led {
                                    assert(self.has_log(y));
                                } else {
                                    assert(self.kept_by(y));
                                }
                            },
                            _ => {},
                        }
                    },
                    Input::Tick => {},
                }
            }
        }
    }

    /// No log of the cluster holds an entry of the term of a leader beyond
    /// the end of the leader's log.
    pub proof fn lemma_beyond(
        self,
        after: Cluster,
        id: Seq<char>,
        input: Input,
        x: Seq<EntryView>,
        i: int,
    )
        requires
            self.inv(),
            self.history(),
            self.logs_inv(),
            after.history(),
            self.next(after, id, input),
            elects(self.nodes[id], input, after.nodes[id]),
            after.nodes[id].role is Leader,
            self.holds_entry(x, i),
            x[i].term == after.nodes[id].term,
        ensures
            self.won.contains((id, after.nodes[id].term)),
            self.nodes[id].term == after.nodes[id].term,
            i < self.nodes[id].log.entries.len(),
            self.nodes[id].log.entries[i].term == after.nodes[id].term,
    {
        let n = self.nodes[id];
        let m = after.nodes[id];
        let t = m.term;
        assert(self.term_won(x[i].term));
        let a = choose|a: Seq<char>| #[trigger] self.won.contains((a, t));
        assert(after.won.contains((a, t)) && after.won.contains((id, t)));
        assert(a == id);
        assert(self.won.contains((id, t)));
    }

    /// What holds of the logs holds after every step.
    pub proof fn lemma_next_logs(self, after: Cluster, id: Seq<char>, input: Input)
        requires
            self.inv(),
            self.history(),
            self.logs_inv(),
            self.next(after, id, input),
        ensures
            after.logs_inv(),
    {
        let n = self.nodes[id];
        let m = n.take(input)->0;
        assert(after.nodes[id] == m);
        match input {
            Input::Message(msg) => {
                n.lemma_step(msg);
                n.lemma_step_elects(msg);
                n.lemma_step_replicates(msg);
            },
            Input::Tick => {
                n.lemma_tick();
                n.lemma_tick_elects();
                n.lemma_tick_replicates();
            },
        }
        self.lemma_next(after, id, input);
        self.lemma_next_history(after, id, input);
        self.lemma_next_match(after, id, input);
        self.lemma_next_replicas(after, id, input);
        self.lemma_next_terms(after, id, input);
        self.lemma_next_own(after, id, input);
    }

    /// The logs still match after a step.
    pub proof fn lemma_next_match(self, after: Cluster, id: Seq<char>, input: Input)
        requires
            self.inv(),
            self.history(),
            self.logs_inv(),
            after.history(),
            self.next(after, id, input),
            elects(self.nodes[id], input, after.nodes[id]),
            replicates(self.nodes[id], input, after.nodes[id]),
            after.nodes[id].wf(),
        ensures
            after.logs_match(),
            after.led_indexed(),
    {
        let n = self.nodes[id];
        let m = after.nodes[id];
        assert forall|a: Seq<EntryView>, b: Seq<EntryView>|
            #![trigger after.has_log(a), after.has_log(b)]
            after.has_log(a) && after.has_log(b) implies matching(a, b) by {
            self.lemma_after_log(after, id, input, a);
            self.lemma_after_log(after, id, input, b);
            let old_a = self.has_log(a);
            let old_b = self.has_log(b);
            if old_a && old_b {
            } else if !old_a && !old_b {
                let ka = choose|k: int| 0 <= k <= m.log.entries.len() && a == #[trigger] m.log.entries.take(k);
                let kb = choose|k: int| 0 <= k <= m.log.entries.len() && b == #[trigger] m.log.entries.take(k);
                lemma_matching_refl(m.log.entries);
                lemma_matching_prefix(m.log.entries, ka, m.log.entries);
                lemma_matching_prefix(m.log.entries, kb, a);
            } else if old_a {
                self.lemma_match_leader(after, id, input, b, a);
                lemma_matching_sym(b, a);
            } else {
                self.lemma_match_leader(after, id, input, a, b);
            }
        }
        assert forall|x: Seq<EntryView>| #[trigger] after.led.contains(x) implies indexed(x) by {
            if !self.led.contains(x) {
                let k = choose|k: int| 0 <= k <= m.log.entries.len() && x == #[trigger] m.log.entries.take(k);
                assert forall|i: int| 0 <= i < x.len() implies (#[trigger] x[i]).index
                    == i + 1 by {
                    assert(x[i] == m.log.entries[i]);
                }
            }
        }
    }

    /// The log of the leader that took a step, up to some entry, matches
    /// each log that the cluster had before.
    pub proof fn lemma_match_leader(
        self,
        after: Cluster,
        id: Seq<char>,
        input: Input,
        y: Seq<EntryView>,
        x: Seq<EntryView>,
    )
        requires
            self.inv(),
            self.history(),
            self.logs_inv(),
            after.history(),
            self.next(after, id, input),
            elects(self.nodes[id], input, after.nodes[id]),
            replicates(self.nodes[id], input, after.nodes[id]),
            after.nodes[id].role is Leader,
            begins(y, after.nodes[id].log.entries),
            self.has_log(x),
        ensures
            matching(y, x),
    {
        let n = self.nodes[id];
        let m = after.nodes[id];
        let k = choose|k: int| 0 <= k <= m.log.entries.len() && y == #[trigger] m.log.entries.take(k);
        assert(self.kept_by(n.log.entries));
        assert(self.has_log(n.log.entries));
        assert(matching(n.log.entries, x));
        assert forall|i: int| #[trigger] same_term_at(y, x, i) implies y.take(i + 1) == x.take(
            i + 1,
        ) by {
            assert(y[i] == m.log.entries[i]);
            if i < n.log.entries.len() {
                assert(m.log.entries[i] == n.log.entries[i]);
                assert(same_term_at(n.log.entries, x, i));
                assert(y.take(i + 1) =~= n.log.entries.take(i + 1));
            } else {
                assert(m.log.entries[i].term == m.term);
                assert(self.holds_entry(x, i));
                self.lemma_beyond(after, id, input, x, i);
            }
        }
    }

    /// Each message with entries still hands on the end of a log that a
    /// leader has had.
    pub proof fn lemma_next_replicas(self, after: Cluster, id: Seq<char>, input: Input)
        requires
            self.inv(),
            self.logs_inv(),
            self.next(after, id, input),
            replicates(self.nodes[id], input, after.nodes[id]),
        ensures
            after.replicas_led(),
    {
        let n = self.nodes[id];
        let m = after.nodes[id];
        assert forall|w: MessageView| #[trigger]
            after.sent.contains(w) && w.event is ReplicateEntries implies after.led_snapshot(
            w,
        ) by {
            if self.sent.contains(w) {
                assert(self.led_snapshot(w));
                let x = choose|x: Seq<EntryView>| #[trigger] self.led.contains(x) && snapshot(x, w);
                assert(after.led.contains(x));
            } else {
                let i = choose|i: int|
                    n.outbox.len() <= i < m.outbox.len() && carries(m, #[trigger] m.outbox[i], w);
                assert(m.outbox[i].event is ReplicateEntries);
                assert(snapshot_between(n, m, m.outbox[i]));
                let k = choose|k: int|
                    n.log.entries.len() <= k <= m.log.entries.len() && snapshot(
                        #[trigger] m.log.entries.take(k),
                        m.outbox[i],
                    );
                let x = m.log.entries.take(k);
                assert(m.role is Leader);
                assert(begins(x, m.log.entries));
                assert(after.led.contains(x));
                assert(snapshot(x, w));
            }
        }
    }

    /// Each entry is still of a term in which some node has come to lead.
    pub proof fn lemma_next_terms(self, after: Cluster, id: Seq<char>, input: Input)
        requires
            self.inv(),
            self.logs_inv(),
            self.next(after, id, input),
            replicates(self.nodes[id], input, after.nodes[id]),
        ensures
            after.terms_won(),
    {
        let n = self.nodes[id];
        let m = after.nodes[id];
        assert forall|x: Seq<EntryView>, i: int| #[trigger] after.holds_entry(x, i) implies after.term_won(
            x[i].term,
        ) by {
            self.lemma_after_log(after, id, input, x);
            if self.has_log(x) {
                assert(self.holds_entry(x, i));
                assert(self.term_won(x[i].term));
                let a = choose|a: Seq<char>| #[trigger] self.won.contains((a, x[i].term));
                assert(after.won.contains((a, x[i].term)));
            } else {
                let k = choose|k: int| 0 <= k <= m.log.entries.len() && x == #[trigger] m.log.entries.take(k);
                assert(x[i] == m.log.entries[i]);
                if i < n.log.entries.len() {
                    assert(m.log.entries[i] == n.log.entries[i]);
                    assert(self.kept_by(n.log.entries));
                    assert(self.holds_entry(n.log.entries, i));
                    assert(self.term_won(n.log.entries[i].term));
                    let a = choose|a: Seq<char>| #[trigger]
                        self.won.contains((a, n.log.entries[i].term));
                    assert(after.won.contains((a, x[i].term)));
                } else {
                    assert(m.log.entries[i].term == m.term);
                    assert(after.won.contains((id, m.term)));
                }
            }
        }
    }

    /// The log of each leader still holds every entry of its term.
    pub proof fn lemma_next_own(self, after: Cluster, id: Seq<char>, input: Input)
        requires
            self.inv(),
            self.history(),
            self.logs_inv(),
            after.history(),
            self.next(after, id, input),
            elects(self.nodes[id], input, after.nodes[id]),
            replicates(self.nodes[id], input, after.nodes[id]),
        ensures
            after.winners_own(),
    {
        let n = self.nodes[id];
        let m = after.nodes[id];
        assert forall|a: Seq<char>, t: u64, x: Seq<EntryView>, i: int|
            #![trigger after.won.contains((a, t)), after.holds_entry(x, i)]
            after.won.contains((a, t)) && after.nodes[a].term == t && after.holds_entry(x, i)
                && x[i].term == t implies i < after.nodes[a].log.entries.len()
            && after.nodes[a].log.entries[i].term == t by {
            self.lemma_after_log(after, id, input, x);
            assert(after.nodes.contains_key(a));
            if self.has_log(x) {
                assert(self.holds_entry(x, i));
                if a == id {
                    assert(m.role is Leader);
                    self.lemma_beyond(after, id, input, x, i);
                    assert(m.log.entries[i] == n.log.entries[i]);
                } else {
                    assert(self.won.contains((a, t)));
                    assert(after.nodes[a] == self.nodes[a]);
                }
            } else {
                let k = choose|k: int| 0 <= k <= m.log.entries.len() && x == #[trigger] m.log.entries.take(k);
                assert(x[i] == m.log.entries[i]);
                if a == id {
                } else {
                    assert(self.won.contains((a, t)));
                    assert(after.nodes[a] == self.nodes[a]);
                    if i < n.log.entries.len() {
                        assert(m.log.entries[i] == n.log.entries[i]);
                        assert(self.kept_by(n.log.entries));
                        assert(self.holds_entry(n.log.entries, i));
                    } else {
                        assert(m.log.entries[i].term == m.term);
                        assert(after.won.contains((id, t)));
                        assert(a == id);
                    }
                }
            }
        }
    }

    /// Whether the clusters of `states` follow each other from a fresh
    /// start.
    pub open spec fn reaches_fresh(states: Seq<Cluster>) -> bool {
        &&& states.len() > 0
        &&& states[0].fresh()
        &&& forall|k: int| 0 <= k < states.len() - 1 ==> #[trigger] Cluster::steps_at(states, k)
    }

    /// All that holds of a cluster holds in every state that it can reach
    /// from a fresh start.
    pub proof fn lemma_reaches_fresh_inv(states: Seq<Cluster>, k: int)
        requires
            Cluster::reaches_fresh(states),
            0 <= k < states.len(),
        ensures
            states[k].inv(),
            states[k].history(),
            states[k].logs_inv(),
        decreases k,
    {
        if k == 0 {
            states[0].lemma_fresh();
        } else {
            Cluster::lemma_reaches_fresh_inv(states, k - 1);
            assert(Cluster::steps_at(states, k - 1));
            let (id, input) = choose|id: Seq<char>, input: Input| #[trigger]
                states[k - 1].next(states[k - 1 + 1], id, input);
            states[k - 1].lemma_next(states[k], id, input);
            states[k - 1].lemma_next_history(states[k], id, input);
            states[k - 1].lemma_next_logs(states[k], id, input);
        }
    }

    /// The logs of a cluster match, in every state that the cluster can
    /// reach from a fresh start: where the logs of two nodes hold an entry
    /// of the same term at the same index, they hold the same entry there
    /// and at every lower index.
    pub proof fn lemma_log_matching(
        states: Seq<Cluster>,
        a: Seq<char>,
        b: Seq<char>,
        index: u64,
        lower: u64,
    )
        requires
            Cluster::reaches_fresh(states),
            states.last().nodes.contains_key(a),
            states.last().nodes.contains_key(b),
            states.last().nodes[a].log.get(index) is Some,
            states.last().nodes[b].log.get(index) is Some,
            states.last().nodes[a].log.get(index)->0.term == states.last().nodes[b].log.get(
                index,
            )->0.term,
            1 <= lower <= index,
        ensures
            states.last().nodes[a].log.get(lower) == states.last().nodes[b].log.get(lower),
    {
        let c = states.last();
        Cluster::lemma_reaches_fresh_inv(states, states.len() - 1);
        let la = c.nodes[a].log.entries;
        let lb = c.nodes[b].log.entries;
        assert(c.kept_by(la) && c.kept_by(lb));
        assert(c.has_log(la) && c.has_log(lb));
        assert(same_term_at(la, lb, index - 1));
        assert(la.take(index as int)[lower - 1] == lb.take(index as int)[lower - 1]);
    }
}

} // verus!
