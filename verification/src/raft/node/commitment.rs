//! What a node's transitions say of its log when it asks for votes, grants
//! one, or acknowledges entries, and what a leader's commit rests on.

use crate::assoc::{has_key, put, values_of};
use crate::raft::codec::EntryView;
use crate::raft::log::LogView;
use crate::raft::message::{AddressView, EventView, InstructionView, MessageView, RequestView};
use crate::raft::node::election::grows;
use crate::raft::node::leader::{count_ge, index_all, is_quorum_index, quorum_index_of};
use crate::raft::node::replication::term_at;
use crate::raft::node::safety::Input;
use crate::raft::node::{NodeView, RoleView};
use vstd::prelude::*;

verus! {

/// The term of the last entry of `log`, or 0 for an empty log.
pub open spec fn last_term_of(log: Seq<EntryView>) -> u64 {
    term_at(log, log.len() as u64)
}

/// Whether a log that ends at `last_index` with the term `last_term` is at
/// least as far as `log`: its last term is higher, or the same and it is
/// not shorter.
pub open spec fn up_to_date(last_term: u64, last_index: u64, log: Seq<EntryView>) -> bool {
    last_term > last_term_of(log) || (last_term == last_term_of(log) && last_index >= log.len())
}

/// Whether the message asks for a vote, grants one, or acknowledges
/// entries.
pub open spec fn speaks_of_log(x: MessageView) -> bool {
    x.event is SolicitVote || x.event is GrantVote || x.event is AcceptEntries
}

/// Whether no message that `m` has in its outbox beyond those of `n` asks
/// for a vote, grants one, or acknowledges entries.
pub open spec fn quiet(n: NodeView, m: NodeView) -> bool {
    &&& grows(n, m)
    &&& forall|i: int| n.outbox.len() <= i < m.outbox.len() ==> !speaks_of_log(#[trigger] m.outbox[i])
}

/// Two quiet steps within a term make a quiet step.
pub proof fn lemma_quiet_trans(a: NodeView, b: NodeView, c: NodeView)
    requires
        quiet(a, b),
        quiet(b, c),
        b.term == c.term,
    ensures
        quiet(a, c),
{
    assert forall|i: int| 0 <= i < a.outbox.len() implies #[trigger] c.outbox[i]
        == a.outbox[i] by {
        assert(b.outbox[i] == a.outbox[i]);
    }
    assert forall|i: int| a.outbox.len() <= i < c.outbox.len() implies (
    #[trigger] c.outbox[i]).from is Local && c.outbox[i].term == c.term && !speaks_of_log(
        c.outbox[i],
    ) by {
        if i < b.outbox.len() {
            assert(c.outbox[i] == b.outbox[i]);
        }
    }
}

/// What the messages of a step say of the node's log.
///
/// A message that acknowledges entries comes from a follower and names the
/// end of its log. A message that grants a vote answers a candidate whose
/// log, as it told it, is at least as far as the node's own. A message
/// that asks for a vote comes from a node that has just become a candidate
/// of a new term, and tells the end of its log. A node that grants a vote
/// or asks for one has left the entries of its log as they were, and so
/// has a candidate.
pub open spec fn records(n: NodeView, input: Input, m: NodeView) -> bool {
    &&& grows(n, m)
    &&& forall|i: int|
        n.outbox.len() <= i < m.outbox.len() && (#[trigger] m.outbox[i]).event
            is AcceptEntries ==> {
            &&& m.role is Follower
            &&& m.outbox[i].event->AcceptEntries_last_index == m.log.entries.len()
            &&& input is Message
            &&& input->Message_0.event is ReplicateEntries
            &&& input->Message_0.term == m.term
            &&& input->Message_0.from == m.outbox[i].to
        }
    &&& forall|i: int|
        n.outbox.len() <= i < m.outbox.len() && (#[trigger] m.outbox[i]).event is GrantVote ==> {
            &&& input is Message
            &&& input->Message_0.event is SolicitVote
            &&& input->Message_0.from == m.outbox[i].to
            &&& input->Message_0.term == m.term
            &&& up_to_date(
                input->Message_0.event->SolicitVote_last_term,
                input->Message_0.event->SolicitVote_last_index,
                m.log.entries,
            )
            &&& m.log.entries == n.log.entries
        }
    &&& forall|i: int|
        n.outbox.len() <= i < m.outbox.len() && (#[trigger] m.outbox[i]).event is SolicitVote ==> {
            &&& m.role is Candidate
            &&& m.term > n.term
            &&& m.outbox[i].event->SolicitVote_last_index == m.log.entries.len()
            &&& m.outbox[i].event->SolicitVote_last_term == last_term_of(m.log.entries)
        }
    &&& m.role is Candidate ==> m.log.entries == n.log.entries
    &&& m.role is Follower && m.log.entries != n.log.entries ==> {
        &&& input is Message
        &&& input->Message_0.event is ReplicateEntries
        &&& input->Message_0.term == m.term
    }
}

impl NodeView {
    /// Handing requests on is quiet.
    pub proof fn lemma_forward_quiet(self, leader: Seq<char>, queued: Seq<(AddressView, EventView)>)
        ensures
            quiet(self, self.forward(leader, queued)),
            self.forward(leader, queued).term == self.term,
        decreases queued.len(),
    {
        if queued.len() > 0 {
            self.lemma_forward_quiet(leader, queued.drop_last());
            let mid = self.forward(leader, queued.drop_last());
            let end = self.forward(leader, queued);
            assert(quiet(mid, end));
            lemma_quiet_trans(self, mid, end);
        }
    }

    /// Becoming a follower is quiet, and leaves the entries of the log as
    /// they are.
    pub proof fn lemma_follow_quiet(self, term: u64, leader: Seq<char>)
        requires
            term >= self.term,
        ensures
            quiet(self, self.follow(term, leader)),
            self.follow(term, leader).log.entries == self.log.entries,
            self.follow(term, leader).term == term,
            self.follow(term, leader).role is Follower,
    {
        let vote = if term > self.term {
            None
        } else {
            self.log.voted_for
        };
        let raised = NodeView {
            term,
            log: LogView { term, voted_for: vote, ..self.log },
            instructions: if self.role is Leader {
                self.instructions.push(InstructionView::Abort)
            } else {
                self.instructions
            },
            role: RoleView::Follower {
                leader: Some(leader),
                voted_for: vote,
                leader_seen_ticks: 0,
                election_timeout: crate::raft::node::timeout_of(self.seed),
            },
            seed: crate::raft::node::next_seed(self.seed),
            ..self
        };
        let aborted = raised.abort_proxied();
        assert(quiet(self, raised));
        assert(quiet(raised, aborted));
        lemma_quiet_trans(self, raised, aborted);
        let cleared = NodeView { queued: Seq::empty(), ..aborted };
        assert(quiet(aborted, cleared));
        lemma_quiet_trans(self, aborted, cleared);
        cleared.lemma_forward_quiet(leader, aborted.queued);
        cleared.lemma_forward_frame(leader, aborted.queued);
        lemma_quiet_trans(self, cleared, self.follow(term, leader));
    }

    /// Taking a leader is quiet.
    pub proof fn lemma_adopt_quiet(self, leader: Seq<char>)
        ensures
            quiet(self, self.adopt(leader)),
            self.adopt(leader).term == self.term,
            self.adopt(leader).log == self.log,
            self.role is Follower ==> self.adopt(leader).role is Follower,
    {
        match self.role {
            RoleView::Follower { leader: None, voted_for, leader_seen_ticks, election_timeout } => {
                let told = (NodeView {
                    role: RoleView::Follower {
                        leader: Some(leader),
                        voted_for,
                        leader_seen_ticks,
                        election_timeout,
                    },
                    ..self
                }).instruct(InstructionView::Abort);
                let cleared = NodeView { queued: Seq::empty(), ..told };
                assert(quiet(self, cleared));
                cleared.lemma_forward_quiet(leader, told.queued);
                cleared.lemma_forward_frame(leader, told.queued);
                lemma_quiet_trans(self, cleared, self.adopt(leader));
            },
            _ => {},
        }
    }

    /// What the messages of a follower that takes a message of its own
    /// term say of its log.
    pub proof fn lemma_follower_handle_records(self, msg: MessageView)
        requires
            self.wf(),
            self.role is Follower,
            msg.term == self.term || !(msg.from is Peer) || msg.event.of_client(),
            self.follower_handle(msg) is Some,
        ensures
            records(self, Input::Message(msg), self.follower_handle(msg)->0),
            self.follower_handle(msg)->0.role is Follower,
            self.follower_handle(msg)->0.term == self.term,
    {
        let m = self.follower_handle(msg)->0;
        self.lemma_follower_handle_election(msg);
        self.lemma_follower_handle(msg);
        match msg.event {
            EventView::Heartbeat { commit_index, commit_term } => match msg.from {
                AddressView::Peer(from) => {
                    self.lemma_adopt_quiet(from);
                    let n = self.adopt(from);
                    if n.leader() == Some(from) {
                        assert(quiet(n, m));
                        lemma_quiet_trans(self, n, m);
                    }
                },
                _ => {},
            },
            EventView::ReplicateEntries { base_index, base_term, entries } => match msg.from {
                AddressView::Peer(from) => {
                    self.lemma_adopt_quiet(from);
                    let n = self.adopt(from);
                    if n.leader() == Some(from) {
                        assert forall|i: int| n.outbox.len() <= i < m.outbox.len() implies {
                            &&& !((#[trigger] m.outbox[i]).event is SolicitVote)
                            &&& !(m.outbox[i].event is GrantVote)
                            &&& m.outbox[i].event is AcceptEntries ==> {
                                &&& m.outbox[i].event->AcceptEntries_last_index
                                    == m.log.entries.len()
                                &&& m.outbox[i].to == msg.from
                            }
                        } by {}
                        assert forall|i: int| self.outbox.len() <= i < m.outbox.len() implies {
                            &&& !((#[trigger] m.outbox[i]).event is SolicitVote)
                            &&& !(m.outbox[i].event is GrantVote)
                            &&& m.outbox[i].event is AcceptEntries ==> {
                                &&& m.outbox[i].event->AcceptEntries_last_index
                                    == m.log.entries.len()
                                &&& m.outbox[i].to == msg.from
                            }
                        } by {
                            if i < n.outbox.len() {
                                assert(m.outbox[i] == n.outbox[i]);
                            }
                        }
                    }
                },
                _ => {},
            },
            EventView::SolicitVote { last_index, last_term } => {},
            EventView::ClientRequest { id, request } => {},
            EventView::ClientResponse { id, response } => {},
            _ => {},
        }
    }

    /// What the messages of a node say of its log that becomes a follower
    /// of a peer at the term of a message and then takes the message.
    pub proof fn lemma_follow_handle_records(self, leader: Seq<char>, msg: MessageView)
        requires
            self.wf(),
            msg.term >= self.term,
            msg.from is Peer,
            self.follow(msg.term, leader).follower_handle(msg) is Some,
        ensures
            records(self, Input::Message(msg), self.follow(msg.term, leader).follower_handle(msg)->0),
    {
        let f = self.follow(msg.term, leader);
        let m = f.follower_handle(msg)->0;
        self.lemma_follow(msg.term, leader);
        self.lemma_follow_quiet(msg.term, leader);
        f.lemma_follower_handle_records(msg);
        assert forall|i: int| 0 <= i < self.outbox.len() implies #[trigger] m.outbox[i]
            == self.outbox[i] by {
            assert(f.outbox[i] == self.outbox[i]);
        }
        assert forall|i: int| self.outbox.len() <= i < m.outbox.len() implies (
        #[trigger] m.outbox[i]).from is Local && m.outbox[i].term == m.term && (i
            < f.outbox.len() ==> !speaks_of_log(m.outbox[i])) by {
            if i < f.outbox.len() {
                assert(m.outbox[i] == f.outbox[i]);
            }
        }
    }

    /// Replicating to peers is quiet.
    pub proof fn lemma_replicate_all_quiet(self, peers: Seq<Seq<char>>)
        requires
            self.replicate_all(peers) is Some,
        ensures
            quiet(self, self.replicate_all(peers)->0),
            self.replicate_all(peers)->0.term == self.term,
        decreases peers.len(),
    {
        if peers.len() > 0 {
            self.lemma_replicate_all_quiet(peers.drop_last());
            let mid = self.replicate_all(peers.drop_last())->0;
            assert(quiet(mid, self.replicate_all(peers)->0));
            lemma_quiet_trans(self, mid, self.replicate_all(peers)->0);
        }
    }

    /// Taking a client's request is quiet.
    pub proof fn lemma_leader_request_quiet(self, from: AddressView, event: EventView)
        requires
            self.leader_request(from, event) is Some,
        ensures
            quiet(self, self.leader_request(from, event)->0),
            self.leader_request(from, event)->0.term == self.term,
    {
        match event {
            EventView::ClientRequest { id, request } => match request {
                RequestView::Mutate(command) => {
                    let grown = NodeView {
                        log: self.log.append(self.term, Some(command)),
                        ..self
                    };
                    grown.lemma_replicate_all_quiet(self.peers);
                    let a = self.leader_append(Some(command))->0;
                    assert(quiet(self, grown));
                    lemma_quiet_trans(self, grown, a);
                },
                _ => {},
            },
            _ => {},
        }
    }

    /// Serving the requests that waited is quiet.
    pub proof fn lemma_replay_quiet(self, queued: Seq<(AddressView, EventView)>)
        requires
            self.replay(queued) is Some,
        ensures
            quiet(self, self.replay(queued)->0),
            self.replay(queued)->0.term == self.term,
        decreases queued.len(),
    {
        if queued.len() > 0 {
            self.lemma_replay_quiet(queued.drop_last());
            let mid = self.replay(queued.drop_last())->0;
            mid.lemma_leader_request_quiet(queued.last().0, queued.last().1);
            lemma_quiet_trans(self, mid, self.replay(queued)->0);
        }
    }

    /// Taking the lead is quiet.
    pub proof fn lemma_lead_quiet(self)
        requires
            self.lead() is Some,
        ensures
            quiet(self, self.lead()->0),
            self.lead()->0.role is Leader,
    {
        let start = (NodeView {
            role: RoleView::Leader {
                heartbeat_ticks: 0,
                peer_next_index: index_all(self.peers, (self.log.entries.len() + 1) as u64),
                peer_last_index: index_all(self.peers, 0),
            },
            queued: Seq::empty(),
            ..self
        });
        let sent = start.send(
            AddressView::Peers,
            EventView::Heartbeat {
                commit_index: self.log.commit_index,
                commit_term: self.log.commit_term(),
            },
        );
        let aborted = sent.abort_proxied();
        assert(quiet(self, sent));
        assert(quiet(sent, aborted));
        lemma_quiet_trans(self, sent, aborted);
        aborted.lemma_replay_quiet(self.queued);
        lemma_quiet_trans(self, aborted, self.lead()->0);
        self.lemma_lead_election();
    }

    /// Whatever message of its own term a leader takes, it is quiet.
    pub proof fn lemma_leader_handle_quiet(self, msg: MessageView)
        requires
            self.role is Leader,
            self.receives(msg),
            !self.outranked_by(msg),
            self.leader_step(msg) is Some,
        ensures
            quiet(self, self.leader_step(msg)->0),
            self.leader_step(msg)->0.role is Leader,
    {
        let m = self.leader_step(msg)->0;
        self.lemma_leader_handle_calm(msg);
        match msg.event {
            EventView::ClientRequest { id, request } => {
                self.lemma_leader_request_quiet(msg.from, msg.event);
            },
            _ => {},
        }
    }

    /// What the messages of a step say of the node's log.
    pub proof fn lemma_step_records(self, msg: MessageView)
        requires
            self.wf(),
            self.step(msg) is Some,
        ensures
            records(self, Input::Message(msg), self.step(msg)->0),
    {
        let m = self.step(msg)->0;
        let input = Input::Message(msg);
        self.lemma_step_elects(msg);
        self.lemma_step_replicates(msg);
        if !self.receives(msg) {
        } else if self.outranked_by(msg) {
            self.lemma_follow_handle_records(msg.from->Peer_0, msg);
        } else {
            match self.role {
                RoleView::Follower { .. } => {
                    self.lemma_follower_handle_records(msg);
                },
                RoleView::Candidate { votes, election_ticks, election_timeout } => {
                    match msg.event {
                        EventView::GrantVote => match msg.from {
                            AddressView::Peer(from) => {
                                let votes2 = crate::raft::node::election::tally(self, from);
                                let n = NodeView {
                                    role: RoleView::Candidate {
                                        votes: votes2,
                                        election_ticks,
                                        election_timeout,
                                    },
                                    ..self
                                };
                                if votes2.len() >= self.quorum() {
                                    n.lemma_lead_quiet();
                                }
                            },
                            _ => {},
                        },
                        EventView::Heartbeat { .. } | EventView::ReplicateEntries { .. } => {
                            match msg.from {
                                AddressView::Peer(from) => {
                                    self.lemma_follow_handle_records(from, msg);
                                },
                                _ => {},
                            }
                        },
                        _ => {},
                    }
                },
                RoleView::Leader { .. } => {
                    self.lemma_leader_handle_quiet(msg);
                },
            }
        }
    }

    /// What the messages of a tick say of the node's log.
    pub proof fn lemma_tick_records(self)
        requires
            self.wf(),
            self.tick() is Some,
        ensures
            records(self, Input::Tick, self.tick()->0),
    {
        self.lemma_tick_elects();
        self.lemma_tick_replicates();
    }
}

/// What a leader knows of the last index on each peer, and nothing for a
/// node in another role.
pub open spec fn peer_lasts(n: NodeView) -> Seq<(Seq<char>, u64)> {
    match n.role {
        RoleView::Leader { peer_last_index, .. } => peer_last_index,
        _ => Seq::empty(),
    }
}

/// Whether the input tells the leader `n` that the peer of `p` holds
/// entries up to the index of `p`.
pub open spec fn acknowledged(n: NodeView, input: Input, p: (Seq<char>, u64)) -> bool {
    match input {
        Input::Message(w) => {
            &&& w.event == (EventView::AcceptEntries { last_index: p.1 })
            &&& w.from == AddressView::Peer(p.0)
            &&& w.term == n.term
            &&& n.receives(w)
        },
        Input::Tick => false,
    }
}

/// Whether a quorum of the logs that the leader `m` knows of reaches its
/// commit index.
pub open spec fn sound(m: NodeView) -> bool {
    count_ge(m.last_indexes(), m.log.commit_index) >= m.quorum()
}

/// What a leader's commit rests on, whatever the node and the input.
///
/// A leader knows a peer to hold entries only as far as the peer has
/// acknowledged: each index above 0 that it has noted for a peer it had
/// noted before, or the input acknowledges it. And where the leader has
/// committed further, a quorum of the logs that it knows of reaches the
/// new commit index.
pub open spec fn tallies(n: NodeView, input: Input, m: NodeView) -> bool {
    m.role is Leader ==> {
        &&& forall|j: int|
            0 <= j < peer_lasts(m).len() ==> {
                ||| (#[trigger] peer_lasts(m)[j]).1 == 0
                ||| n.role is Leader && peer_lasts(n).contains(peer_lasts(m)[j])
                ||| n.role is Leader && acknowledged(n, input, peer_lasts(m)[j])
            }
        &&& m.log.commit_index > n.log.commit_index ==> sound(m)
    }
}

/// Whether going from `n` to `m` is what a leader does that takes no
/// acknowledgement: it notes nothing new of its peers, its log does not
/// shrink, and where it has committed further, a quorum reaches the new
/// commit index.
pub open spec fn tends(n: NodeView, m: NodeView) -> bool {
    &&& m.role is Leader
    &&& peer_lasts(m) == peer_lasts(n)
    &&& m.peers == n.peers
    &&& m.log.entries.len() >= n.log.entries.len()
    &&& m.log.entries.len() <= u64::MAX
    &&& m.log.commit_index >= n.log.commit_index
    &&& m.log.commit_index == n.log.commit_index || sound(m)
}

/// How many of a run of values that begins with `a` reach `x`.
pub proof fn lemma_count_ge_first(a: u64, rest: Seq<u64>, x: u64)
    ensures
        count_ge(seq![a] + rest, x) == count_ge(rest, x) + if a >= x {
            1nat
        } else {
            0nat
        },
    decreases rest.len(),
{
    let s = seq![a] + rest;
    if rest.len() == 0 {
        assert(s.len() == 1);
        assert(s.drop_last() =~= Seq::<u64>::empty());
        assert(s.last() == a);
        assert(count_ge(s.drop_last(), x) == 0);
    } else {
        lemma_count_ge_first(a, rest.drop_last(), x);
        assert(s.drop_last() =~= seq![a] + rest.drop_last());
        assert(s.last() == rest.last());
    }
}

/// A step that tends after one that tends tends.
pub proof fn lemma_tends_trans(a: NodeView, b: NodeView, c: NodeView)
    requires
        a.role is Leader,
        tends(a, b),
        tends(b, c),
    ensures
        tends(a, c),
{
    if c.log.commit_index == b.log.commit_index && b.log.commit_index != a.log.commit_index {
        let x = c.log.commit_index;
        lemma_count_ge_first(b.log.last_index(), values_of(peer_lasts(b)), x);
        lemma_count_ge_first(c.log.last_index(), values_of(peer_lasts(c)), x);
    }
}

/// Each of the pairs that give every peer one value holds that value.
pub proof fn lemma_index_all_values(peers: Seq<Seq<char>>, value: u64)
    ensures
        forall|j: int|
            0 <= j < index_all(peers, value).len() ==> (#[trigger] index_all(peers, value)[j]).1
                == value,
    decreases peers.len(),
{
    if peers.len() > 0 {
        lemma_index_all_values(peers.drop_last(), value);
        let prev = index_all(peers.drop_last(), value);
        let cur = put(prev, peers.last(), value);
        assert(index_all(peers, value) == cur);
        assert forall|j: int| 0 <= j < cur.len() implies (#[trigger] cur[j]).1 == value by {
            if has_key(prev, peers.last()) {
                let k = crate::assoc::index_of(prev, peers.last());
                if j != k {
                    assert(cur[j] == prev[j]);
                }
            } else {
                if j < prev.len() {
                    assert(cur[j] == prev[j]);
                }
            }
        }
    }
}

impl NodeView {
    /// Committing what it may is what a leader does that tends.
    pub proof fn lemma_leader_commit_tends(self)
        requires
            self.wf(),
            self.role is Leader,
        ensures
            tends(self, self.leader_commit()),
    {
        if self.commits() {
            crate::raft::node::leader::lemma_quorum_scan(self.last_indexes(), self.quorum(), 0, 0);
            let m = self.leader_commit();
            assert(m.last_indexes() == self.last_indexes());
        }
    }

    /// Taking a client's request is what a leader does that tends.
    pub proof fn lemma_leader_request_tends(self, from: AddressView, event: EventView)
        requires
            self.wf(),
            self.role is Leader,
            self.leader_request(from, event) is Some,
        ensures
            tends(self, self.leader_request(from, event)->0),
    {
        let m = self.leader_request(from, event)->0;
        self.lemma_leader_request(from, event);
        match event {
            EventView::ClientRequest { id, request } => match request {
                RequestView::Mutate(command) => {
                    self.lemma_leader_append(Some(command));
                    let a = self.leader_append(Some(command))->0;
                    let n = a.instruct(
                        InstructionView::Notify { id, address: from, index: a.log.last_index() },
                    );
                    assert(tends(self, n));
                    if self.peers.len() == 0 {
                        assert(n.wf());
                        n.lemma_leader_commit_tends();
                        lemma_tends_trans(self, n, n.leader_commit());
                    }
                },
                _ => {},
            },
            _ => {},
        }
    }

    /// Serving the requests that waited is what a leader does that tends.
    pub proof fn lemma_replay_tends(self, queued: Seq<(AddressView, EventView)>)
        requires
            self.wf(),
            self.role is Leader,
            self.replay(queued) is Some,
        ensures
            tends(self, self.replay(queued)->0),
        decreases queued.len(),
    {
        if queued.len() > 0 {
            self.lemma_replay_tends(queued.drop_last());
            self.lemma_replay(queued.drop_last());
            let mid = self.replay(queued.drop_last())->0;
            mid.lemma_leader_request_tends(queued.last().0, queued.last().1);
            lemma_tends_trans(self, mid, self.replay(queued)->0);
        }
    }

    /// What a leader's commit rests on after a message.
    pub proof fn lemma_step_tallies(self, msg: MessageView)
        requires
            self.wf(),
            self.step(msg) is Some,
        ensures
            tallies(self, Input::Message(msg), self.step(msg)->0),
    {
        let m = self.step(msg)->0;
        let input = Input::Message(msg);
        self.lemma_step_elects(msg);
        self.lemma_step(msg);
        if !self.receives(msg) {
            assert forall|j: int| 0 <= j < peer_lasts(m).len() implies peer_lasts(self).contains(
                #[trigger] peer_lasts(m)[j],
            ) by {
                assert(peer_lasts(self)[j] == peer_lasts(m)[j]);
            }
        } else if self.outranked_by(msg) {
            self.lemma_outranked(msg);
        } else {
            match self.role {
                RoleView::Follower { .. } => {
                    self.lemma_follower_handle(msg);
                },
                RoleView::Candidate { votes, election_ticks, election_timeout } => {
                    match msg.event {
                        EventView::GrantVote => match msg.from {
                            AddressView::Peer(from) => {
                                let votes2 = crate::raft::node::election::tally(self, from);
                                let n = NodeView {
                                    role: RoleView::Candidate {
                                        votes: votes2,
                                        election_ticks,
                                        election_timeout,
                                    },
                                    ..self
                                };
                                if votes2.len() >= self.quorum() {
                                    assert(votes2.no_duplicates());
                                    assert(n.wf());
                                    n.lemma_lead_tallies();
                                }
                            },
                            _ => {},
                        },
                        _ => {},
                    }
                },
                RoleView::Leader { heartbeat_ticks, peer_next_index, peer_last_index } => {
                    match msg.event {
                        EventView::AcceptEntries { last_index } => {
                            match msg.from {
                                AddressView::Peer(peer) => {
                                    if last_index < u64::MAX {
                                        crate::assoc::lemma_put(
                                            peer_next_index,
                                            peer,
                                            (last_index + 1) as u64,
                                        );
                                        crate::assoc::lemma_put(peer_last_index, peer, last_index);
                                        let n = NodeView {
                                            role: RoleView::Leader {
                                                heartbeat_ticks,
                                                peer_next_index: put(
                                                    peer_next_index,
                                                    peer,
                                                    (last_index + 1) as u64,
                                                ),
                                                peer_last_index: put(
                                                    peer_last_index,
                                                    peer,
                                                    last_index,
                                                ),
                                            },
                                            ..self
                                        };
                                        n.lemma_leader_commit_tends();
                                        let after = put(peer_last_index, peer, last_index);
                                        assert(peer_lasts(m) == after);
                                        assert forall|j: int| 0 <= j < after.len() implies {
                                            ||| (#[trigger] after[j]).1 == 0
                                            ||| peer_last_index.contains(after[j])
                                            ||| acknowledged(self, input, after[j])
                                        } by {
                                            if has_key(peer_last_index, peer) {
                                                let k = crate::assoc::index_of(
                                                    peer_last_index,
                                                    peer,
                                                );
                                                if j != k {
                                                    assert(after[j] == peer_last_index[j]);
                                                }
                                            } else {
                                                if j < peer_last_index.len() {
                                                    assert(after[j] == peer_last_index[j]);
                                                }
                                            }
                                        }
                                    } else {
                                        self.lemma_leader_commit_tends();
                                    }
                                },
                                _ => {
                                    self.lemma_leader_commit_tends();
                                },
                            }
                        },
                        EventView::ClientRequest { id, request } => {
                            self.lemma_leader_request_tends(msg.from, msg.event);
                        },
                        _ => {},
                    }
                    assert forall|j: int| 0 <= j < peer_lasts(m).len() implies {
                        ||| (#[trigger] peer_lasts(m)[j]).1 == 0
                        ||| peer_lasts(self).contains(peer_lasts(m)[j])
                        ||| acknowledged(self, input, peer_lasts(m)[j])
                    } by {
                        if peer_lasts(m) == peer_lasts(self) {
                            assert(peer_lasts(self)[j] == peer_lasts(m)[j]);
                        }
                    }
                },
            }
        }
    }

    /// What a leader's commit rests on when a candidate takes the lead.
    pub proof fn lemma_lead_tallies(self)
        requires
            self.wf(),
            self.lead() is Some,
        ensures
            self.lead()->0.role is Leader,
            forall|j: int|
                0 <= j < peer_lasts(self.lead()->0).len() ==> (#[trigger] peer_lasts(
                    self.lead()->0,
                )[j]).1 == 0,
            self.lead()->0.log.commit_index > self.log.commit_index ==> sound(self.lead()->0),
    {
        let next = (self.log.entries.len() + 1) as u64;
        crate::raft::node::leader::lemma_index_all(self.peers, next);
        crate::raft::node::leader::lemma_index_all(self.peers, 0);
        lemma_index_all_values(self.peers, 0);
        let start = (NodeView {
            role: RoleView::Leader {
                heartbeat_ticks: 0,
                peer_next_index: index_all(self.peers, next),
                peer_last_index: index_all(self.peers, 0),
            },
            queued: Seq::empty(),
            ..self
        });
        let aborted = start.send(
            AddressView::Peers,
            EventView::Heartbeat {
                commit_index: self.log.commit_index,
                commit_term: self.log.commit_term(),
            },
        ).abort_proxied();
        assert(aborted.wf());
        aborted.lemma_replay_tends(self.queued);
    }

    /// What a leader's commit rests on after a tick.
    pub proof fn lemma_tick_tallies(self)
        requires
            self.wf(),
            self.tick() is Some,
        ensures
            tallies(self, Input::Tick, self.tick()->0),
    {
        let m = self.tick()->0;
        self.lemma_tick_elects();
        match self.role {
            RoleView::Leader { .. } => {
                assert forall|j: int| 0 <= j < peer_lasts(m).len() implies {
                    ||| (#[trigger] peer_lasts(m)[j]).1 == 0
                    ||| peer_lasts(self).contains(peer_lasts(m)[j])
                    ||| acknowledged(self, Input::Tick, peer_lasts(m)[j])
                } by {
                    assert(peer_lasts(self)[j] == peer_lasts(m)[j]);
                }
            },
            _ => {},
        }
    }
}

} // verus!
