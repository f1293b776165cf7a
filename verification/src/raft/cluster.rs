//! A cluster of nodes and the messages between them, and the proof that no
//! two of its nodes lead in the same term.
//!
//! A cluster goes on by steps. In each step one node takes one input by its
//! own rules: a tick of its clock, a message that one of its peers has sent,
//! or a message of a client or of the driver. What the node leaves in its
//! outbox for its peers is sent. The network may lose, repeat and reorder
//! messages, but it does not forge them: a message that claims to come from
//! a peer was sent by that peer. A node that fails takes no more steps. For
//! the elections a node may also stop and start again on its log; for the
//! logs it may not.
//!
//! Beside its nodes a cluster remembers what has happened in it: the
//! messages, the logs that its leaders have had, the votes, and what was
//! committed. The nodes do not see this memory; the proofs speak of it.

use crate::raft::codec::EntryView;
use crate::raft::message::{AddressView, EventView, MessageView};
use crate::raft::node::election::{elects, granted, tally, voter, votes_of};
use crate::raft::node::safety::Input;
use crate::raft::node::NodeView;
use vstd::prelude::*;
use vstd::set_lib::{lemma_len_subset, lemma_set_disjoint_lens};

verus! {

/// The nodes of a cluster by their names, and what has happened in it.
pub struct Cluster {
    /// The nodes by their names.
    pub nodes: Map<Seq<char>, NodeView>,
    /// Every message that a node has sent to a peer.
    pub sent: Set<MessageView>,
    /// Every log that a leader has had, and each such log up to each of
    /// its entries.
    pub led: Set<Seq<EntryView>>,
    /// Who has come to lead, and in which term.
    pub won: Set<(Seq<char>, u64)>,
    /// Every log that a leader has had, with the term in which it had it.
    pub led_at: Set<(u64, Seq<EntryView>)>,
    /// Who has acknowledged entries in which term, with the log that it
    /// had then; and each leader with each log that it has had.
    pub acked: Set<(Seq<char>, u64, Seq<EntryView>)>,
    /// Who has stood for election in which term, with the log that it had
    /// then.
    pub ran: Set<(Seq<char>, u64, Seq<EntryView>)>,
    /// Who has granted whom its vote in which term before the election was
    /// won, with the log that the voter had then.
    pub voted: Set<(Seq<char>, Seq<char>, u64, Seq<EntryView>)>,
    /// What a leader has committed: the term, and the log up to the commit
    /// index.
    pub committed: Set<(u64, Seq<EntryView>)>,
}

/// Whether `w` is what the network carries for the message `x` from the
/// outbox of `node`: the message under the node's name, to the peer that it
/// is addressed to, or to one of the node's peers where it goes to all. The
/// network carries no message from a node to itself.
pub open spec fn carries(node: NodeView, x: MessageView, w: MessageView) -> bool {
    &&& w.from == AddressView::Peer(node.id)
    &&& w.term == x.term
    &&& w.event == x.event
    &&& w.to is Peer
    &&& w.to != w.from
    &&& x.to == w.to || (x.to is Peers && node.peers.contains(w.to->Peer_0))
}

/// Whether `x` is the log `log` up to some entry.
pub open spec fn begins(x: Seq<EntryView>, log: Seq<EntryView>) -> bool {
    exists|k: int| 0 <= k <= log.len() && x == #[trigger] log.take(k)
}

/// Whether `x` is the log `log` up to some entry at or behind the offset
/// `from`.
pub open spec fn between(from: nat, x: Seq<EntryView>, log: Seq<EntryView>) -> bool {
    exists|k: int| from <= k <= log.len() && x == #[trigger] log.take(k)
}

/// Whether the node acknowledges entries in going from `n` to `m`.
pub open spec fn acknowledges(n: NodeView, m: NodeView) -> bool {
    exists|i: int| n.outbox.len() <= i < m.outbox.len() && (#[trigger] m.outbox[i]).event is AcceptEntries
}

/// Whether the node grants `candidate` its vote in going from `n` to `m`.
pub open spec fn grants_to(n: NodeView, m: NodeView, candidate: Seq<char>) -> bool {
    exists|i: int|
        n.outbox.len() <= i < m.outbox.len() && (#[trigger] m.outbox[i]).event is GrantVote
            && m.outbox[i].to == AddressView::Peer(candidate)
}

/// The vote of `voter` for `candidate` at `term`, as the network carries it.
pub open spec fn vote(voter: Seq<char>, candidate: Seq<char>, term: u64) -> MessageView {
    MessageView {
        from: AddressView::Peer(voter),
        to: AddressView::Peer(candidate),
        term,
        event: EventView::GrantVote,
    }
}

impl Cluster {
    /// Whether the nodes are consistent, each under its own name, and each
    /// with all the others as its peers.
    pub open spec fn configured(self) -> bool {
        &&& self.nodes.dom().finite()
        &&& forall|id: Seq<char>| #[trigger]
            self.nodes.contains_key(id) ==> {
                &&& self.nodes[id].id == id
                &&& self.nodes[id].wf()
                &&& forall|p: Seq<char>| #[trigger]
                    self.nodes[id].peers.contains(p) <==> (self.nodes.contains_key(p) && p != id)
            }
    }

    /// Whether the cluster is at its start: nothing is sent yet, and no
    /// node is a candidate, nor leads unless it is alone.
    pub open spec fn init(self) -> bool {
        &&& self.configured()
        &&& self.sent == Set::<MessageView>::empty()
        &&& forall|id: Seq<char>| #[trigger]
            self.nodes.contains_key(id) ==> {
                ||| self.nodes[id].role is Follower
                ||| self.nodes[id].role is Leader && self.nodes[id].peers.len() == 0
            }
    }

    /// Whether the cluster goes to `after` when the node `id` takes
    /// `input`: a tick, a message that a peer has sent, or a message that
    /// does not claim to come from a peer. What the node puts into its
    /// outbox for its peers is sent.
    pub open spec fn next(self, after: Cluster, id: Seq<char>, input: Input) -> bool {
        &&& self.nodes.contains_key(id)
        &&& match input {
            Input::Message(msg) => self.sent.contains(msg) || !(msg.from is Peer),
            Input::Tick => true,
        }
        &&& self.nodes[id].take(input) is Some
        &&& after.nodes == self.nodes.insert(id, self.nodes[id].take(input)->0)
        &&& forall|w: MessageView| #[trigger]
            after.sent.contains(w) <==> (self.sent.contains(w) || exists|i: int|
                self.nodes[id].outbox.len() <= i < after.nodes[id].outbox.len() && carries(
                    after.nodes[id],
                    #[trigger] after.nodes[id].outbox[i],
                    w,
                ))
        &&& after.won == if after.nodes[id].role is Leader {
            self.won.insert((id, after.nodes[id].term))
        } else {
            self.won
        }
        &&& forall|x: Seq<EntryView>| #[trigger]
            after.led.contains(x) <==> (self.led.contains(x) || (after.nodes[id].role is Leader
                && begins(x, after.nodes[id].log.entries)))
        &&& forall|t: u64, x: Seq<EntryView>| #[trigger]
            after.led_at.contains((t, x)) <==> (self.led_at.contains((t, x)) || (
            after.nodes[id].role is Leader && t == after.nodes[id].term && between(
                self.nodes[id].log.entries.len(),
                x,
                after.nodes[id].log.entries,
            )))
        &&& forall|q: Seq<char>, t: u64, x: Seq<EntryView>| #[trigger]
            after.acked.contains((q, t, x)) <==> (self.acked.contains((q, t, x)) || (q == id && t
                == after.nodes[id].term && {
                ||| x == after.nodes[id].log.entries && acknowledges(
                    self.nodes[id],
                    after.nodes[id],
                )
                ||| after.nodes[id].role is Leader && between(
                    self.nodes[id].log.entries.len(),
                    x,
                    after.nodes[id].log.entries,
                )
            }))
        &&& forall|c: Seq<char>, t: u64, x: Seq<EntryView>| #[trigger]
            after.ran.contains((c, t, x)) <==> (self.ran.contains((c, t, x)) || (c == id && t
                == after.nodes[id].term && x == after.nodes[id].log.entries
                && after.nodes[id].role is Candidate && after.nodes[id].term
                > self.nodes[id].term))
        &&& forall|v: Seq<char>, c: Seq<char>, t: u64, x: Seq<EntryView>| #[trigger]
            after.voted.contains((v, c, t, x)) <==> (self.voted.contains((v, c, t, x)) || (v
                == id && t == after.nodes[id].term && x == after.nodes[id].log.entries
                && !self.won.contains((c, t)) && grants_to(
                self.nodes[id],
                after.nodes[id],
                c,
            )))
        &&& forall|t: u64, x: Seq<EntryView>| #[trigger]
            after.committed.contains((t, x)) <==> (self.committed.contains((t, x)) || (
            after.nodes[id].role is Leader && t == after.nodes[id].term
                && after.nodes[id].log.commit_index > self.nodes[id].log.commit_index && x
                == after.nodes[id].log.entries.take(after.nodes[id].log.commit_index as int)))
    }

    /// Whether each of `votes` for the node `n` is the node's own, or was
    /// sent by the voter.
    pub open spec fn backed(self, n: NodeView, votes: Seq<Seq<char>>) -> bool {
        forall|i: int|
            0 <= i < votes.len() ==> (#[trigger] votes[i]) == n.id || self.sent.contains(
                vote(votes[i], n.id, n.term),
            )
    }

    /// Whether `votes` are a mandate for the node `n` to lead in its term:
    /// a quorum of votes, no two of one voter, each the node's own or sent
    /// by the voter.
    pub open spec fn mandate(self, n: NodeView, votes: Seq<Seq<char>>) -> bool {
        &&& votes.no_duplicates()
        &&& votes.len() >= n.quorum()
        &&& self.backed(n, votes)
    }

    /// Whether the messages are genuine: each is from a node of the cluster
    /// to a peer, at a term that is not above the sender's.
    pub open spec fn genuine(self) -> bool {
        forall|w: MessageView| #[trigger]
            self.sent.contains(w) ==> {
                &&& w.from is Peer
                &&& w.to is Peer
                &&& self.nodes.contains_key(w.from->Peer_0)
                &&& w.term <= self.nodes[w.from->Peer_0].term
            }
    }

    /// Whether each node that has granted a vote in its term is a follower
    /// that has that vote saved.
    pub open spec fn votes_saved(self) -> bool {
        forall|w: MessageView| #[trigger]
            self.sent.contains(w) && w.event is GrantVote && self.nodes[w.from->Peer_0].term
                == w.term ==> {
                &&& self.nodes[w.from->Peer_0].role is Follower
                &&& self.nodes[w.from->Peer_0].log.voted_for == Some(w.to->Peer_0)
            }
    }

    /// Whether no node has granted its vote to two in one term.
    pub open spec fn one_vote_each(self) -> bool {
        forall|w1: MessageView, w2: MessageView|
            #![trigger self.sent.contains(w1), self.sent.contains(w2)]
            self.sent.contains(w1) && self.sent.contains(w2) && w1.event is GrantVote && w2.event
                is GrantVote && w1.from == w2.from && w1.term == w2.term ==> w1.to == w2.to
    }

    /// Whether the votes that each candidate counts are backed.
    pub open spec fn candidates_backed(self) -> bool {
        forall|id: Seq<char>| #[trigger]
            self.nodes.contains_key(id) && self.nodes[id].role is Candidate ==> self.backed(
                self.nodes[id],
                votes_of(self.nodes[id]),
            )
    }

    /// Whether each leader has a mandate.
    pub open spec fn leaders_mandated(self) -> bool {
        forall|id: Seq<char>| #[trigger]
            self.nodes.contains_key(id) && self.nodes[id].role is Leader ==> exists|
                votes: Seq<Seq<char>>,
            |
                self.mandate(self.nodes[id], votes)
    }

    /// What holds of a cluster in every state that it can reach.
    pub open spec fn inv(self) -> bool {
        &&& self.configured()
        &&& self.genuine()
        &&& self.votes_saved()
        &&& self.one_vote_each()
        &&& self.candidates_backed()
        &&& self.leaders_mandated()
    }

    /// The invariant holds at the start.
    pub proof fn lemma_init(self)
        requires
            self.init(),
        ensures
            self.inv(),
    {
        assert forall|id: Seq<char>| #[trigger]
            self.nodes.contains_key(id) && self.nodes[id].role is Leader implies exists|
            votes: Seq<Seq<char>>,
        |
            self.mandate(self.nodes[id], votes) by {
            let votes = seq![id];
            assert(self.mandate(self.nodes[id], votes));
        }
    }

    /// What is backed stays backed when more is sent.
    pub proof fn lemma_backed_stays(self, after: Cluster, n: NodeView, votes: Seq<Seq<char>>)
        requires
            self.backed(n, votes),
            forall|w: MessageView| self.sent.contains(w) ==> after.sent.contains(w),
        ensures
            after.backed(n, votes),
    {
    }

    /// The invariant holds after every step.
    pub proof fn lemma_next(self, after: Cluster, id: Seq<char>, input: Input)
        requires
            self.inv(),
            self.next(after, id, input),
        ensures
            after.inv(),
    {
        let n = self.nodes[id];
        let m = n.take(input)->0;
        assert(after.nodes[id] == m);
        match input {
            Input::Message(msg) => {
                n.lemma_step(msg);
                n.lemma_step_elects(msg);
            },
            Input::Tick => {
                n.lemma_tick();
                n.lemma_tick_elects();
            },
        }
        assert(elects(n, input, m));
        assert(after.configured()) by {
            assert(after.nodes.dom() =~= self.nodes.dom());
            assert forall|j: Seq<char>| #[trigger] after.nodes.contains_key(j) implies {
                &&& after.nodes[j].id == j
                &&& after.nodes[j].wf()
                &&& forall|p: Seq<char>| #[trigger]
                    after.nodes[j].peers.contains(p) <==> (after.nodes.contains_key(p) && p != j)
            } by {
                assert(self.nodes.contains_key(j));
            }
        }
        self.lemma_next_genuine(after, id, input);
        self.lemma_next_votes_saved(after, id, input);
        self.lemma_next_one_vote_each(after, id, input);
        self.lemma_next_candidates(after, id, input);
        self.lemma_next_leaders(after, id, input);
    }

    /// The messages stay genuine.
    pub proof fn lemma_next_genuine(self, after: Cluster, id: Seq<char>, input: Input)
        requires
            self.inv(),
            self.next(after, id, input),
            elects(self.nodes[id], input, self.nodes[id].take(input)->0),
        ensures
            after.genuine(),
    {
        let n = self.nodes[id];
        let m = n.take(input)->0;
        assert forall|w: MessageView| #[trigger] after.sent.contains(w) implies {
            &&& w.from is Peer
            &&& w.to is Peer
            &&& after.nodes.contains_key(w.from->Peer_0)
            &&& w.term <= after.nodes[w.from->Peer_0].term
        } by {
            if self.sent.contains(w) {
                assert(self.nodes.contains_key(w.from->Peer_0));
            } else {
                let i = choose|i: int|
                    n.outbox.len() <= i < m.outbox.len() && carries(m, #[trigger] m.outbox[i], w);
                assert(m.outbox[i].term == m.term);
            }
        }
    }

    /// A message that is sent in a step comes from the node that takes the
    /// step, at its new term; and where it grants a vote, the node is a
    /// follower that has the vote saved.
    pub proof fn lemma_new_message(self, after: Cluster, id: Seq<char>, input: Input, w: MessageView)
        requires
            self.inv(),
            self.next(after, id, input),
            elects(self.nodes[id], input, self.nodes[id].take(input)->0),
            after.sent.contains(w),
            !self.sent.contains(w),
        ensures
            w.from == AddressView::Peer(id),
            w.term == after.nodes[id].term,
            w.event is GrantVote ==> {
                &&& after.nodes[id].role is Follower
                &&& w.to is Peer
                &&& after.nodes[id].log.voted_for == Some(w.to->Peer_0)
            },
    {
        let n = self.nodes[id];
        let m = n.take(input)->0;
        let i = choose|i: int|
            n.outbox.len() <= i < m.outbox.len() && carries(m, #[trigger] m.outbox[i], w);
        assert(m.outbox[i].term == m.term);
        if w.event is GrantVote {
            assert(m.outbox[i].event is GrantVote);
            assert(m.outbox[i].to is Peer);
        }
    }

    /// Each node that has granted a vote in its term still has it saved.
    pub proof fn lemma_next_votes_saved(self, after: Cluster, id: Seq<char>, input: Input)
        requires
            self.inv(),
            self.next(after, id, input),
            elects(self.nodes[id], input, self.nodes[id].take(input)->0),
        ensures
            after.votes_saved(),
    {
        let n = self.nodes[id];
        let m = n.take(input)->0;
        assert forall|w: MessageView| #[trigger]
            after.sent.contains(w) && w.event is GrantVote && after.nodes[w.from->Peer_0].term
                == w.term implies {
            &&& after.nodes[w.from->Peer_0].role is Follower
            &&& after.nodes[w.from->Peer_0].log.voted_for == Some(w.to->Peer_0)
        } by {
            if self.sent.contains(w) {
                assert(self.nodes.contains_key(w.from->Peer_0));
                if w.from->Peer_0 == id {
                    assert(w.term <= n.term);
                }
            } else {
                self.lemma_new_message(after, id, input, w);
            }
        }
    }

    /// Still no node has granted its vote to two in one term.
    pub proof fn lemma_next_one_vote_each(self, after: Cluster, id: Seq<char>, input: Input)
        requires
            self.inv(),
            self.next(after, id, input),
            elects(self.nodes[id], input, self.nodes[id].take(input)->0),
        ensures
            after.one_vote_each(),
    {
        let n = self.nodes[id];
        let m = n.take(input)->0;
        assert forall|w1: MessageView, w2: MessageView|
            #![trigger after.sent.contains(w1), after.sent.contains(w2)]
            after.sent.contains(w1) && after.sent.contains(w2) && w1.event is GrantVote
                && w2.event is GrantVote && w1.from == w2.from && w1.term
                == w2.term implies w1.to == w2.to by {
            let old1 = self.sent.contains(w1);
            let old2 = self.sent.contains(w2);
            if old1 && old2 {
            } else if !old1 && !old2 {
                self.lemma_new_message(after, id, input, w1);
                self.lemma_new_message(after, id, input, w2);
            } else {
                let (o, f) = if old1 {
                    (w1, w2)
                } else {
                    (w2, w1)
                };
                self.lemma_new_message(after, id, input, f);
                assert(self.sent.contains(o));
                assert(o.from == AddressView::Peer(id));
                assert(o.term <= n.term);
                assert(n.term == m.term);
                assert(n.role is Follower && n.log.voted_for == Some(o.to->Peer_0));
                assert(m.log.voted_for == Some(f.to->Peer_0));
            }
        }
    }

    /// The vote that an input grants a node was sent by the voter.
    pub proof fn lemma_granted_backed(self, id: Seq<char>, input: Input)
        requires
            self.inv(),
            self.nodes.contains_key(id),
            granted(self.nodes[id], input),
            match input {
                Input::Message(msg) => self.sent.contains(msg) || !(msg.from is Peer),
                Input::Tick => true,
            },
            self.backed(self.nodes[id], votes_of(self.nodes[id])),
        ensures
            self.backed(self.nodes[id], tally(self.nodes[id], voter(input))),
    {
        let n = self.nodes[id];
        match input {
            Input::Message(msg) => {
                assert(self.sent.contains(msg));
                assert(msg.to is Peer);
                assert(msg.to == AddressView::Peer(id));
                assert(msg == vote(voter(input), id, n.term));
            },
            Input::Tick => {},
        }
    }

    /// The votes that each candidate counts are still backed.
    pub proof fn lemma_next_candidates(self, after: Cluster, id: Seq<char>, input: Input)
        requires
            self.inv(),
            self.next(after, id, input),
            elects(self.nodes[id], input, self.nodes[id].take(input)->0),
        ensures
            after.candidates_backed(),
    {
        let n = self.nodes[id];
        let m = n.take(input)->0;
        assert forall|j: Seq<char>| #[trigger]
            after.nodes.contains_key(j) && after.nodes[j].role is Candidate implies after.backed(
            after.nodes[j],
            votes_of(after.nodes[j]),
        ) by {
            assert(self.nodes.contains_key(j));
            if j != id {
                self.lemma_backed_stays(after, self.nodes[j], votes_of(self.nodes[j]));
            } else if m.term == n.term {
                if votes_of(m) == votes_of(n) {
                    self.lemma_backed_stays(after, n, votes_of(n));
                } else {
                    self.lemma_granted_backed(id, input);
                    self.lemma_backed_stays(after, n, tally(n, voter(input)));
                }
                assert(after.backed(m, votes_of(m)));
            } else {
            }
        }
    }

    /// Each leader still has a mandate.
    pub proof fn lemma_next_leaders(self, after: Cluster, id: Seq<char>, input: Input)
        requires
            self.inv(),
            self.next(after, id, input),
            elects(self.nodes[id], input, self.nodes[id].take(input)->0),
        ensures
            after.leaders_mandated(),
    {
        let n = self.nodes[id];
        let m = n.take(input)->0;
        assert forall|j: Seq<char>| #[trigger]
            after.nodes.contains_key(j) && after.nodes[j].role is Leader implies exists|
            votes: Seq<Seq<char>>,
        |
            after.mandate(after.nodes[j], votes) by {
            assert(self.nodes.contains_key(j));
            if j != id {
                let votes = choose|votes: Seq<Seq<char>>| self.mandate(self.nodes[j], votes);
                self.lemma_backed_stays(after, self.nodes[j], votes);
                assert(after.mandate(after.nodes[j], votes));
            } else if n.role is Leader {
                let votes = choose|votes: Seq<Seq<char>>| self.mandate(n, votes);
                self.lemma_backed_stays(after, n, votes);
                assert(after.backed(m, votes));
                assert(after.mandate(m, votes));
            } else {
                let votes = tally(n, voter(input));
                self.lemma_granted_backed(id, input);
                self.lemma_backed_stays(after, n, votes);
                assert(after.backed(m, votes));
                assert(votes.no_duplicates());
                assert(after.mandate(m, votes));
            }
        }
    }

    /// Two runs of distinct voters of the cluster that are a quorum each
    /// have a voter in common.
    pub proof fn lemma_quorums_meet(self, id: Seq<char>, a: Seq<Seq<char>>, b: Seq<Seq<char>>)
        requires
            self.configured(),
            self.nodes.contains_key(id),
            a.no_duplicates(),
            b.no_duplicates(),
            a.len() >= self.nodes[id].quorum(),
            b.len() >= self.nodes[id].quorum(),
            forall|i: int| 0 <= i < a.len() ==> self.nodes.contains_key(#[trigger] a[i]),
            forall|i: int| 0 <= i < b.len() ==> self.nodes.contains_key(#[trigger] b[i]),
        ensures
            exists|i: int, j: int| 0 <= i < a.len() && 0 <= j < b.len() && a[i] == b[j],
    {
        let all = self.nodes.dom();
        let peers = self.nodes[id].peers;
        peers.unique_seq_to_set();
        assert(peers.to_set() =~= all.remove(id)) by {
            assert forall|p: Seq<char>| peers.to_set().contains(p) <==> all.remove(id).contains(
                p,
            ) by {
                assert(peers.to_set().contains(p) <==> peers.contains(p));
            }
        }
        vstd::set::axiom_set_remove_len(all, id);
        assert(all.len() == peers.len() + 1);
        a.unique_seq_to_set();
        b.unique_seq_to_set();
        let sa = a.to_set();
        let sb = b.to_set();
        assert(sa.subset_of(all)) by {
            assert forall|v: Seq<char>| sa.contains(v) implies all.contains(v) by {
                assert(a.contains(v));
                let i = choose|i: int| 0 <= i < a.len() && a[i] == v;
                assert(self.nodes.contains_key(a[i]));
            }
        }
        assert(sb.subset_of(all)) by {
            assert forall|v: Seq<char>| sb.contains(v) implies all.contains(v) by {
                assert(b.contains(v));
                let i = choose|i: int| 0 <= i < b.len() && b[i] == v;
                assert(self.nodes.contains_key(b[i]));
            }
        }
        lemma_len_subset(sa, all);
        lemma_len_subset(sb, all);
        if sa.disjoint(sb) {
            lemma_set_disjoint_lens(sa, sb);
            assert((sa + sb).subset_of(all));
            lemma_len_subset(sa + sb, all);
            assert(false);
        }
        let v = choose|v: Seq<char>| sa.contains(v) && sb.contains(v);
        assert(a.contains(v) && b.contains(v));
        let i = choose|i: int| 0 <= i < a.len() && a[i] == v;
        let j = choose|j: int| 0 <= j < b.len() && b[j] == v;
        assert(a[i] == b[j]);
    }

    /// At most one node leads in a term: in a cluster in which the
    /// invariant holds, two nodes that lead in the same term are one node.
    pub proof fn lemma_one_leader_per_term(self, a: Seq<char>, b: Seq<char>)
        requires
            self.inv(),
            self.nodes.contains_key(a),
            self.nodes.contains_key(b),
            self.nodes[a].role is Leader,
            self.nodes[b].role is Leader,
            self.nodes[a].term == self.nodes[b].term,
        ensures
            a == b,
    {
        if a != b {
            let na = self.nodes[a];
            let nb = self.nodes[b];
            let va = choose|votes: Seq<Seq<char>>| self.mandate(na, votes);
            let vb = choose|votes: Seq<Seq<char>>| self.mandate(nb, votes);
            assert forall|i: int| 0 <= i < va.len() implies self.nodes.contains_key(
                #[trigger] va[i],
            ) by {
                if va[i] != a {
                    assert(self.sent.contains(vote(va[i], a, na.term)));
                }
            }
            assert forall|i: int| 0 <= i < vb.len() implies self.nodes.contains_key(
                #[trigger] vb[i],
            ) by {
                if vb[i] != b {
                    assert(self.sent.contains(vote(vb[i], b, nb.term)));
                }
            }
            assert(nb.quorum() == na.quorum()) by {
                self.lemma_same_size(a, b);
            }
            self.lemma_quorums_meet(a, va, vb);
            let (i, j) = choose|i: int, j: int|
                0 <= i < va.len() && 0 <= j < vb.len() && va[i] == vb[j];
            let v = va[i];
            assert(vb[j] == v);
            if v == a {
                // The leader `a` would have granted `b` its vote in this term.
                let w = vote(a, b, nb.term);
                assert(self.sent.contains(w));
                assert(self.nodes[w.from->Peer_0].role is Follower);
            } else if v == b {
                let w = vote(b, a, na.term);
                assert(self.sent.contains(w));
                assert(self.nodes[w.from->Peer_0].role is Follower);
            } else {
                let w1 = vote(v, a, na.term);
                let w2 = vote(v, b, nb.term);
                assert(self.sent.contains(w1) && self.sent.contains(w2));
                assert(w1.to == w2.to);
            }
        }
    }

    /// All nodes of a cluster have the same number of peers.
    pub proof fn lemma_same_size(self, a: Seq<char>, b: Seq<char>)
        requires
            self.configured(),
            self.nodes.contains_key(a),
            self.nodes.contains_key(b),
        ensures
            self.nodes[a].peers.len() == self.nodes[b].peers.len(),
    {
        let all = self.nodes.dom();
        let pa = self.nodes[a].peers;
        let pb = self.nodes[b].peers;
        pa.unique_seq_to_set();
        pb.unique_seq_to_set();
        assert(pa.to_set() =~= all.remove(a)) by {
            assert forall|p: Seq<char>| pa.to_set().contains(p) <==> all.remove(a).contains(p) by {
                assert(pa.to_set().contains(p) <==> pa.contains(p));
            }
        }
        assert(pb.to_set() =~= all.remove(b)) by {
            assert forall|p: Seq<char>| pb.to_set().contains(p) <==> all.remove(b).contains(p) by {
                assert(pb.to_set().contains(p) <==> pb.contains(p));
            }
        }
        vstd::set::axiom_set_remove_len(all, a);
        vstd::set::axiom_set_remove_len(all, b);
    }

    /// Whether some node takes some input between the states at `k` and
    /// after it.
    pub open spec fn steps_at(states: Seq<Cluster>, k: int) -> bool {
        exists|id: Seq<char>, input: Input| #[trigger] states[k].next(states[k + 1], id, input)
    }

    /// Whether the cluster goes to `after` when the node `id`, which has
    /// peers, stops and starts again on its log with the seed `seed`: the
    /// node has its log, and with it its term and its vote, and has lost
    /// all else. Nothing is sent.
    pub open spec fn restarts(self, after: Cluster, id: Seq<char>, seed: u64) -> bool {
        &&& self.nodes.contains_key(id)
        &&& self.nodes[id].peers.len() > 0
        &&& after.nodes == self.nodes.insert(
            id,
            NodeView::boot(
                id,
                self.nodes[id].peers,
                self.nodes[id].log,
                seed,
                self.nodes[id].storage,
            ),
        )
        &&& after.sent == self.sent
    }

    /// The invariant holds after a node has started again: the node has
    /// kept its term and its vote.
    pub proof fn lemma_restart(self, after: Cluster, id: Seq<char>, seed: u64)
        requires
            self.inv(),
            self.restarts(after, id, seed),
        ensures
            after.inv(),
    {
        let n = self.nodes[id];
        let m = after.nodes[id];
        assert(after.nodes.dom() =~= self.nodes.dom());
        assert(after.configured()) by {
            assert forall|j: Seq<char>| #[trigger] after.nodes.contains_key(j) implies {
                &&& after.nodes[j].id == j
                &&& after.nodes[j].wf()
                &&& forall|p: Seq<char>| #[trigger]
                    after.nodes[j].peers.contains(p) <==> (after.nodes.contains_key(p) && p != j)
            } by {
                assert(self.nodes.contains_key(j));
            }
        }
        assert(after.genuine()) by {
            assert forall|w: MessageView| #[trigger] after.sent.contains(w) implies {
                &&& w.from is Peer
                &&& w.to is Peer
                &&& after.nodes.contains_key(w.from->Peer_0)
                &&& w.term <= after.nodes[w.from->Peer_0].term
            } by {
                assert(self.nodes.contains_key(w.from->Peer_0));
            }
        }
        assert(after.votes_saved()) by {
            assert forall|w: MessageView| #[trigger]
                after.sent.contains(w) && w.event is GrantVote && after.nodes[w.from->Peer_0].term
                    == w.term implies {
                &&& after.nodes[w.from->Peer_0].role is Follower
                &&& after.nodes[w.from->Peer_0].log.voted_for == Some(w.to->Peer_0)
            } by {
                assert(self.nodes.contains_key(w.from->Peer_0));
            }
        }
        assert(after.candidates_backed()) by {
            assert forall|j: Seq<char>| #[trigger]
                after.nodes.contains_key(j) && after.nodes[j].role is Candidate implies after.backed(
                after.nodes[j],
                votes_of(after.nodes[j]),
            ) by {
                assert(self.nodes.contains_key(j));
                self.lemma_backed_stays(after, self.nodes[j], votes_of(self.nodes[j]));
            }
        }
        assert(after.leaders_mandated()) by {
            assert forall|j: Seq<char>| #[trigger]
                after.nodes.contains_key(j) && after.nodes[j].role is Leader implies exists|
                votes: Seq<Seq<char>>,
            |
                after.mandate(after.nodes[j], votes) by {
                assert(self.nodes.contains_key(j));
                let votes = choose|votes: Seq<Seq<char>>| self.mandate(self.nodes[j], votes);
                self.lemma_backed_stays(after, self.nodes[j], votes);
                assert(after.mandate(after.nodes[j], votes));
            }
        }
    }

    /// Whether some node takes some input, or stops and starts again,
    /// between the states at `k` and after it.
    pub open spec fn moves_at(states: Seq<Cluster>, k: int) -> bool {
        ||| Cluster::steps_at(states, k)
        ||| exists|id: Seq<char>, seed: u64| #[trigger]
            states[k].restarts(states[k + 1], id, seed)
    }

    /// Whether the clusters of `states` follow each other from a start.
    pub open spec fn reaches(states: Seq<Cluster>) -> bool {
        &&& states.len() > 0
        &&& states[0].init()
        &&& forall|k: int| 0 <= k < states.len() - 1 ==> #[trigger] Cluster::moves_at(states, k)
    }

    /// At most one leader per term, in every state that a cluster can
    /// reach: whatever the nodes take and in whatever order, whatever the
    /// network loses, repeats or reorders, and whichever nodes stop and
    /// start again on their logs, two nodes that lead in the same term are
    /// one node.
    pub proof fn lemma_election_safety(states: Seq<Cluster>, a: Seq<char>, b: Seq<char>)
        requires
            Cluster::reaches(states),
            states.last().nodes.contains_key(a),
            states.last().nodes.contains_key(b),
            states.last().nodes[a].role is Leader,
            states.last().nodes[b].role is Leader,
            states.last().nodes[a].term == states.last().nodes[b].term,
        ensures
            a == b,
    {
        Cluster::lemma_reaches_inv(states, states.len() - 1);
        states.last().lemma_one_leader_per_term(a, b);
    }

    /// The invariant holds in every state that a cluster can reach.
    pub proof fn lemma_reaches_inv(states: Seq<Cluster>, k: int)
        requires
            Cluster::reaches(states),
            0 <= k < states.len(),
        ensures
            states[k].inv(),
        decreases k,
    {
        if k == 0 {
            states[0].lemma_init();
        } else {
            Cluster::lemma_reaches_inv(states, k - 1);
            assert(Cluster::moves_at(states, k - 1));
            if Cluster::steps_at(states, k - 1) {
                let (id, input) = choose|id: Seq<char>, input: Input| #[trigger]
                    states[k - 1].next(states[k - 1 + 1], id, input);
                states[k - 1].lemma_next(states[k], id, input);
            } else {
                let (id, seed) = choose|id: Seq<char>, seed: u64| #[trigger]
                    states[k - 1].restarts(states[k - 1 + 1], id, seed);
                states[k - 1].lemma_restart(states[k], id, seed);
            }
        }
    }
}

} // verus!
