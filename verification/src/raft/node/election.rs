//! What a node's transitions do to an election: which messages they send,
//! when a vote is granted, and when a node comes to lead.

use crate::raft::codec::EntryView;
use crate::raft::log::LogView;
use crate::raft::message::{AddressView, EventView, InstructionView, MessageView, RequestView};
use crate::raft::node::safety::Input;
use crate::raft::node::{NodeView, RoleView};
use vstd::prelude::*;

verus! {

/// Whether the outbox of `m` is that of `n` and then messages from the node
/// itself at the term of `m`.
pub open spec fn grows(n: NodeView, m: NodeView) -> bool {
    &&& n.outbox.len() <= m.outbox.len()
    &&& forall|i: int| 0 <= i < n.outbox.len() ==> #[trigger] m.outbox[i] == n.outbox[i]
    &&& forall|i: int|
        n.outbox.len() <= i < m.outbox.len() ==> (#[trigger] m.outbox[i]).from is Local
            && m.outbox[i].term == m.term
}

/// Whether no message that `m` has in its outbox beyond those of `n` grants
/// a vote.
pub open spec fn no_new_vote(n: NodeView, m: NodeView) -> bool {
    forall|i: int|
        n.outbox.len() <= i < m.outbox.len() ==> !((#[trigger] m.outbox[i]).event is GrantVote)
}

/// Whether each message that `m` has in its outbox beyond those of `n` and
/// that grants a vote goes to the peer that `m` has voted for.
pub open spec fn votes_as_saved(n: NodeView, m: NodeView) -> bool {
    forall|i: int|
        n.outbox.len() <= i < m.outbox.len() && (#[trigger] m.outbox[i]).event is GrantVote ==> {
            &&& m.role is Follower
            &&& m.outbox[i].to is Peer
            &&& m.log.voted_for == Some(m.outbox[i].to->Peer_0)
        }
}

/// The votes that a candidate has, and none for a node in another role.
pub open spec fn votes_of(n: NodeView) -> Seq<Seq<char>> {
    match n.role {
        RoleView::Candidate { votes, .. } => votes,
        _ => Seq::empty(),
    }
}

/// Whether the two roles are of the same kind.
pub open spec fn same_kind(a: RoleView, b: RoleView) -> bool {
    &&& a is Follower == b is Follower
    &&& a is Candidate == b is Candidate
    &&& a is Leader == b is Leader
}

/// Whether going from `n` to `m` leaves the election as it is: the node
/// keeps its term, its vote, the kind of its role and the votes that it
/// has, and grants no vote.
pub open spec fn calm(n: NodeView, m: NodeView) -> bool {
    &&& m.id == n.id
    &&& m.peers == n.peers
    &&& m.term == n.term
    &&& m.log.voted_for == n.log.voted_for
    &&& same_kind(n.role, m.role)
    &&& votes_of(m) == votes_of(n)
    &&& grows(n, m)
    &&& no_new_vote(n, m)
}

/// Two calm steps make a calm step.
pub proof fn lemma_calm_trans(a: NodeView, b: NodeView, c: NodeView)
    requires
        calm(a, b),
        calm(b, c),
    ensures
        calm(a, c),
{
    assert forall|i: int| 0 <= i < a.outbox.len() implies #[trigger] c.outbox[i]
        == a.outbox[i] by {
        assert(b.outbox[i] == a.outbox[i]);
    }
    assert forall|i: int| a.outbox.len() <= i < c.outbox.len() implies (
    #[trigger] c.outbox[i]).from is Local && c.outbox[i].term == c.term && !(c.outbox[i].event
        is GrantVote) by {
        if i < b.outbox.len() {
            assert(c.outbox[i] == b.outbox[i]);
        }
    }
}

impl NodeView {
    /// Sending a message that grants no vote is calm.
    pub proof fn lemma_send_calm(self, to: AddressView, event: EventView)
        requires
            !(event is GrantVote),
        ensures
            calm(self, self.send(to, event)),
    {
    }

    /// Telling those whose requests were handed on that they are aborted is
    /// calm.
    pub proof fn lemma_abort_proxied_calm(self)
        ensures
            calm(self, self.abort_proxied()),
    {
    }

    /// Handing requests on is calm.
    pub proof fn lemma_forward_calm(self, leader: Seq<char>, queued: Seq<(AddressView, EventView)>)
        ensures
            calm(self, self.forward(leader, queued)),
        decreases queued.len(),
    {
        if queued.len() > 0 {
            self.lemma_forward_calm(leader, queued.drop_last());
            let mid = self.forward(leader, queued.drop_last());
            let end = self.forward(leader, queued);
            assert(calm(mid, end));
            lemma_calm_trans(self, mid, end);
        }
    }

    /// Handing the waiting requests on is calm.
    pub proof fn lemma_forward_queued_calm(self, leader: Seq<char>)
        ensures
            calm(self, self.forward_queued(leader)),
    {
        let cleared = NodeView { queued: Seq::empty(), ..self };
        cleared.lemma_forward_calm(leader, self.queued);
        assert(calm(self, cleared));
        lemma_calm_trans(self, cleared, self.forward_queued(leader));
    }

    /// Handing a request on, or keeping it, is calm.
    pub proof fn lemma_defer_calm(self, from: AddressView, event: EventView)
        ensures
            calm(self, self.defer(from, event)),
    {
    }

    /// Passing an answer on is calm.
    pub proof fn lemma_respond_calm(
        self,
        id: Seq<u8>,
        response: Result<crate::raft::message::ResponseView, crate::error::ErrorView>,
    )
        ensures
            calm(self, self.respond(id, response)),
    {
    }

    /// Taking a leader is calm.
    pub proof fn lemma_adopt_calm(self, leader: Seq<char>)
        ensures
            calm(self, self.adopt(leader)),
    {
        match self.role {
            RoleView::Follower { leader: None, voted_for, leader_seen_ticks, election_timeout } => {
                let told = (NodeView {
                    role: RoleView::Follower {
                        leader: Some(leader),
                        voted_for,
                        leader_seen_ticks,
                        election_timeout,
                    },
                    ..self
                }).instruct(InstructionView::Abort);
                assert(calm(self, told));
                told.lemma_forward_queued_calm(leader);
                lemma_calm_trans(self, told, self.adopt(leader));
            },
            _ => {},
        }
    }

    /// Taking a heartbeat is calm.
    pub proof fn lemma_follower_heartbeat_calm(
        self,
        from: Seq<char>,
        commit_index: u64,
        commit_term: u64,
    )
        ensures
            calm(self, self.follower_heartbeat(from, commit_index, commit_term)),
    {
        self.lemma_adopt_calm(from);
        let n = self.adopt(from);
        if n.leader() == Some(from) {
            let h = n.heard();
            let has_committed = h.log.has(commit_index, commit_term);
            let c = if has_committed && commit_index > h.log.commit_index {
                h.commit_to(commit_index)
            } else {
                h
            };
            assert(calm(n, c));
            let m = self.follower_heartbeat(from, commit_index, commit_term);
            assert(calm(c, m));
            lemma_calm_trans(self, n, c);
            lemma_calm_trans(self, c, m);
        }
    }

    /// Taking entries is calm.
    pub proof fn lemma_follower_replicate_calm(
        self,
        from: Seq<char>,
        base_index: u64,
        base_term: u64,
        entries: Seq<EntryView>,
    )
        requires
            self.follower_replicate(from, base_index, base_term, entries) is Some,
        ensures
            calm(self, self.follower_replicate(from, base_index, base_term, entries)->0),
    {
        self.lemma_adopt_calm(from);
        let n = self.adopt(from);
        let m = self.follower_replicate(from, base_index, base_term, entries)->0;
        if n.leader() == Some(from) {
            assert(calm(n, m));
            lemma_calm_trans(self, n, m);
        }
    }
}

/// Whether going from `n` to `m` is what a follower may do within its
/// term: it stays a follower of that term, it keeps the vote that it has
/// cast, and each vote that it grants goes to the peer that it has voted
/// for.
pub open spec fn follower_keeps_vote(n: NodeView, m: NodeView) -> bool {
    &&& m.id == n.id
    &&& m.peers == n.peers
    &&& m.term == n.term
    &&& m.role is Follower
    &&& n.log.voted_for is Some ==> m.log.voted_for == n.log.voted_for
    &&& grows(n, m)
    &&& votes_as_saved(n, m)
}

impl NodeView {
    /// A follower that takes a message of its own term keeps its vote.
    pub proof fn lemma_follower_handle_election(self, msg: MessageView)
        requires
            self.role is Follower,
            self.follower_handle(msg) is Some,
        ensures
            follower_keeps_vote(self, self.follower_handle(msg)->0),
    {
        let m = self.follower_handle(msg)->0;
        match msg.event {
            EventView::Heartbeat { commit_index, commit_term } => match msg.from {
                AddressView::Peer(from) => {
                    self.lemma_follower_heartbeat_calm(from, commit_index, commit_term);
                },
                _ => {},
            },
            EventView::ReplicateEntries { base_index, base_term, entries } => match msg.from {
                AddressView::Peer(from) => {
                    self.lemma_follower_replicate_calm(from, base_index, base_term, entries);
                },
                _ => {},
            },
            EventView::SolicitVote { last_index, last_term } => {},
            EventView::ClientRequest { id, request } => {
                self.lemma_defer_calm(msg.from, msg.event);
            },
            EventView::ClientResponse { id, response } => {
                self.lemma_respond_calm(id, response);
            },
            _ => {},
        }
    }

    /// A node that becomes a follower grants no vote in doing so. At a
    /// higher term it has not voted; at its own it keeps its vote.
    pub proof fn lemma_follow_election(self, term: u64, leader: Seq<char>)
        requires
            term >= self.term,
        ensures
            self.follow(term, leader).id == self.id,
            self.follow(term, leader).peers == self.peers,
            self.follow(term, leader).term == term,
            self.follow(term, leader).role is Follower,
            self.follow(term, leader).log.voted_for == if term > self.term {
                None
            } else {
                self.log.voted_for
            },
            grows(self, self.follow(term, leader)),
            no_new_vote(self, self.follow(term, leader)),
    {
        let vote = if term > self.term {
            None
        } else {
            self.log.voted_for
        };
        let raised = NodeView {
            term,
            log: LogView { term, voted_for: vote, ..self.log },
            instructions: if self.role is Leader {
                self.instructions.push(InstructionView::Abort)
            } else {
                self.instructions
            },
            role: RoleView::Follower {
                leader: Some(leader),
                voted_for: vote,
                leader_seen_ticks: 0,
                election_timeout: crate::raft::node::timeout_of(self.seed),
            },
            seed: crate::raft::node::next_seed(self.seed),
            ..self
        };
        raised.lemma_abort_proxied_calm();
        let aborted = raised.abort_proxied();
        aborted.lemma_forward_queued_calm(leader);
        lemma_calm_trans(raised, aborted, self.follow(term, leader));
    }

    /// A node that a message of a higher term makes a follower, and that
    /// then takes the message, is a follower of that term, and each vote
    /// that it grants goes to the peer that it has voted for.
    pub proof fn lemma_outranked_election(self, msg: MessageView)
        requires
            self.outranked_by(msg),
            self.follow(msg.term, msg.from->Peer_0).follower_handle(msg) is Some,
        ensures
            self.follow(msg.term, msg.from->Peer_0).follower_handle(msg)->0.term == msg.term,
            self.follow(msg.term, msg.from->Peer_0).follower_handle(msg)->0.role is Follower,
            self.follow(msg.term, msg.from->Peer_0).follower_handle(msg)->0.id == self.id,
            self.follow(msg.term, msg.from->Peer_0).follower_handle(msg)->0.peers == self.peers,
            grows(self, self.follow(msg.term, msg.from->Peer_0).follower_handle(msg)->0),
            votes_as_saved(self, self.follow(msg.term, msg.from->Peer_0).follower_handle(msg)->0),
    {
        let f = self.follow(msg.term, msg.from->Peer_0);
        let m = f.follower_handle(msg)->0;
        self.lemma_follow_election(msg.term, msg.from->Peer_0);
        f.lemma_follower_handle_election(msg);
        assert forall|i: int| 0 <= i < self.outbox.len() implies #[trigger] m.outbox[i]
            == self.outbox[i] by {
            assert(f.outbox[i] == self.outbox[i]);
        }
        assert forall|i: int| self.outbox.len() <= i < m.outbox.len() implies (
        #[trigger] m.outbox[i]).from is Local && m.outbox[i].term == m.term && (m.outbox[i].event
            is GrantVote ==> m.role is Follower && m.outbox[i].to is Peer && m.log.voted_for
            == Some(m.outbox[i].to->Peer_0)) by {
            if i < f.outbox.len() {
                assert(m.outbox[i] == f.outbox[i]);
            }
        }
    }
}

impl NodeView {
    /// Replicating to a peer is calm.
    pub proof fn lemma_leader_replicate_calm(self, peer: Seq<char>)
        requires
            self.leader_replicate(peer) is Some,
        ensures
            calm(self, self.leader_replicate(peer)->0),
    {
    }

    /// Replicating to peers is calm.
    pub proof fn lemma_replicate_all_calm(self, peers: Seq<Seq<char>>)
        requires
            self.replicate_all(peers) is Some,
        ensures
            calm(self, self.replicate_all(peers)->0),
        decreases peers.len(),
    {
        if peers.len() > 0 {
            self.lemma_replicate_all_calm(peers.drop_last());
            let mid = self.replicate_all(peers.drop_last())->0;
            mid.lemma_leader_replicate_calm(peers.last());
            lemma_calm_trans(self, mid, self.replicate_all(peers)->0);
        }
    }

    /// Committing is calm.
    pub proof fn lemma_leader_commit_calm(self)
        ensures
            calm(self, self.leader_commit()),
    {
    }

    /// Taking a client's request is calm.
    pub proof fn lemma_leader_request_calm(self, from: AddressView, event: EventView)
        requires
            self.leader_request(from, event) is Some,
        ensures
            calm(self, self.leader_request(from, event)->0),
    {
        match event {
            EventView::ClientRequest { id, request } => match request {
                RequestView::Mutate(command) => {
                    let grown = NodeView {
                        log: self.log.append(self.term, Some(command)),
                        ..self
                    };
                    grown.lemma_replicate_all_calm(self.peers);
                    let a = self.leader_append(Some(command))->0;
                    assert(calm(self, grown));
                    lemma_calm_trans(self, grown, a);
                    let n = a.instruct(
                        InstructionView::Notify { id, address: from, index: a.log.last_index() },
                    );
                    assert(calm(a, n));
                    lemma_calm_trans(self, a, n);
                    if self.peers.len() == 0 {
                        n.lemma_leader_commit_calm();
                        lemma_calm_trans(self, n, n.leader_commit());
                    }
                },
                _ => {},
            },
            _ => {},
        }
    }

    /// Whatever message of its own term a leader takes, it does so calmly.
    pub proof fn lemma_leader_handle_calm(self, msg: MessageView)
        requires
            self.role is Leader,
            self.receives(msg),
            !self.outranked_by(msg),
            self.leader_step(msg) is Some,
        ensures
            calm(self, self.leader_step(msg)->0),
    {
        let m = self.leader_step(msg)->0;
        match msg.event {
            EventView::ConfirmLeader { commit_index, has_committed } => match msg.from {
                AddressView::Peer(from) => {
                    let n = self.instruct(
                        InstructionView::Vote {
                            term: msg.term,
                            index: commit_index,
                            address: AddressView::Peer(from),
                        },
                    );
                    assert(calm(self, n));
                    if !has_committed {
                        n.lemma_leader_replicate_calm(from);
                        lemma_calm_trans(self, n, m);
                    }
                },
                _ => {},
            },
            EventView::AcceptEntries { last_index } => {},
            EventView::RejectEntries => {},
            EventView::ClientRequest { id, request } => {
                self.lemma_leader_request_calm(msg.from, msg.event);
            },
            EventView::ClientResponse { id, response } => {},
            _ => {},
        }
    }

    /// Serving the requests that waited is calm.
    pub proof fn lemma_replay_calm(self, queued: Seq<(AddressView, EventView)>)
        requires
            self.replay(queued) is Some,
        ensures
            calm(self, self.replay(queued)->0),
        decreases queued.len(),
    {
        if queued.len() > 0 {
            self.lemma_replay_calm(queued.drop_last());
            let mid = self.replay(queued.drop_last())->0;
            mid.lemma_leader_request_calm(queued.last().0, queued.last().1);
            lemma_calm_trans(self, mid, self.replay(queued)->0);
        }
    }

    /// A candidate that takes the lead leads in its term, and grants no
    /// vote in doing so.
    pub proof fn lemma_lead_election(self)
        requires
            self.lead() is Some,
        ensures
            self.lead()->0.id == self.id,
            self.lead()->0.peers == self.peers,
            self.lead()->0.term == self.term,
            self.lead()->0.role is Leader,
            grows(self, self.lead()->0),
            no_new_vote(self, self.lead()->0),
    {
        let start = (NodeView {
            role: RoleView::Leader {
                heartbeat_ticks: 0,
                peer_next_index: crate::raft::node::leader::index_all(
                    self.peers,
                    (self.log.entries.len() + 1) as u64,
                ),
                peer_last_index: crate::raft::node::leader::index_all(self.peers, 0),
            },
            queued: Seq::empty(),
            ..self
        });
        let sent = start.send(
            AddressView::Peers,
            EventView::Heartbeat {
                commit_index: self.log.commit_index,
                commit_term: self.log.commit_term(),
            },
        );
        let aborted = sent.abort_proxied();
        assert(calm(start, sent));
        sent.lemma_abort_proxied_calm();
        lemma_calm_trans(start, sent, aborted);
        aborted.lemma_replay_calm(self.queued);
        lemma_calm_trans(start, aborted, self.lead()->0);
    }

    /// A node that stands for election has its own vote and no other, at
    /// the next term, and grants no vote in doing so.
    pub proof fn lemma_campaign_election(self)
        requires
            self.campaign() is Some,
        ensures
            self.campaign()->0.id == self.id,
            self.campaign()->0.peers == self.peers,
            self.campaign()->0.term == self.term + 1,
            self.campaign()->0.role is Candidate,
            votes_of(self.campaign()->0) == seq![self.id],
            grows(self, self.campaign()->0),
            no_new_vote(self, self.campaign()->0),
    {
    }
}

/// The votes of the candidate `n` once the peer `from` has granted its own.
pub open spec fn tally(n: NodeView, from: Seq<char>) -> Seq<Seq<char>> {
    if votes_of(n).contains(from) {
        votes_of(n)
    } else {
        votes_of(n).push(from)
    }
}

/// Whether the input is a vote that a peer grants the node `n` in its term.
pub open spec fn granted(n: NodeView, input: Input) -> bool {
    match input {
        Input::Message(msg) => {
            &&& msg.event is GrantVote
            &&& msg.from is Peer
            &&& msg.term == n.term
            &&& n.receives(msg)
        },
        Input::Tick => false,
    }
}

/// The peer that grants the vote, where the input is a vote.
pub open spec fn voter(input: Input) -> Seq<char> {
    match input {
        Input::Message(msg) => msg.from->Peer_0,
        Input::Tick => Seq::empty(),
    }
}

/// What one input does to an election, whatever the node and the input.
///
/// The node keeps its name and its peers, and its term does not fall. What
/// it sends is from itself and at its new term. It grants a vote only as a
/// follower, and only to the peer that it has voted for. A follower that
/// stays in its term stays a follower and keeps the vote that it has cast,
/// and a leader that stays in its term stays its leader.
/// A candidate is in an election of its own term, with its own vote alone
/// where the term is new, and else with the votes that it had and at most
/// the one that the input grants. A leader led before, or was a candidate
/// that the input granted the vote that made a quorum.
pub open spec fn elects(n: NodeView, input: Input, m: NodeView) -> bool {
    &&& m.id == n.id
    &&& m.peers == n.peers
    &&& m.term >= n.term
    &&& grows(n, m)
    &&& votes_as_saved(n, m)
    &&& (m.term == n.term && n.role is Follower) ==> {
        &&& m.role is Follower
        &&& n.log.voted_for is Some ==> m.log.voted_for == n.log.voted_for
    }
    &&& (m.term == n.term && n.role is Leader) ==> m.role is Leader
    &&& m.role is Candidate ==> {
        if m.term == n.term {
            &&& n.role is Candidate
            &&& votes_of(m) == votes_of(n) || (granted(n, input) && votes_of(m) == tally(
                n,
                voter(input),
            ))
        } else {
            votes_of(m) == seq![m.id]
        }
    }
    &&& m.role is Leader ==> {
        &&& m.term == n.term
        &&& n.role is Leader || {
            &&& n.role is Candidate
            &&& granted(n, input)
            &&& tally(n, voter(input)).len() >= n.quorum()
        }
    }
}

impl NodeView {
    /// What a message does to an election.
    pub proof fn lemma_step_elects(self, msg: MessageView)
        requires
            self.step(msg) is Some,
        ensures
            elects(self, Input::Message(msg), self.step(msg)->0),
    {
        let m = self.step(msg)->0;
        if !self.receives(msg) {
        } else if self.outranked_by(msg) {
            self.lemma_outranked_election(msg);
        } else {
            match self.role {
                RoleView::Follower { .. } => {
                    self.lemma_follower_handle_election(msg);
                },
                RoleView::Candidate { votes, election_ticks, election_timeout } => {
                    match msg.event {
                        EventView::GrantVote => match msg.from {
                            AddressView::Peer(from) => {
                                let votes2 = tally(self, from);
                                let n = NodeView {
                                    role: RoleView::Candidate {
                                        votes: votes2,
                                        election_ticks,
                                        election_timeout,
                                    },
                                    ..self
                                };
                                if votes2.len() >= self.quorum() {
                                    n.lemma_lead_election();
                                }
                            },
                            _ => {},
                        },
                        EventView::Heartbeat { .. } | EventView::ReplicateEntries { .. } => {
                            match msg.from {
                                AddressView::Peer(from) => {
                                    let f = self.follow(self.term, from);
                                    self.lemma_follow_election(self.term, from);
                                    f.lemma_follower_handle_election(msg);
                                    assert forall|i: int| 0 <= i < self.outbox.len() implies
                                        #[trigger] m.outbox[i] == self.outbox[i] by {
                                        assert(f.outbox[i] == self.outbox[i]);
                                    }
                                    assert forall|i: int|
                                        self.outbox.len() <= i < m.outbox.len() implies (
                                    #[trigger] m.outbox[i]).from is Local && m.outbox[i].term
                                        == m.term && (m.outbox[i].event is GrantVote ==> m.role
                                        is Follower && m.outbox[i].to is Peer
                                        && m.log.voted_for == Some(m.outbox[i].to->Peer_0)) by {
                                        if i < f.outbox.len() {
                                            assert(m.outbox[i] == f.outbox[i]);
                                        }
                                    }
                                },
                                _ => {},
                            }
                        },
                        EventView::ClientRequest { id, request } => {
                            self.lemma_defer_calm(msg.from, msg.event);
                        },
                        EventView::ClientResponse { id, response } => {
                            self.lemma_respond_calm(id, response);
                        },
                        _ => {},
                    }
                },
                RoleView::Leader { .. } => {
                    self.lemma_leader_handle_calm(msg);
                },
            }
        }
    }

    /// What a tick does to an election.
    pub proof fn lemma_tick_elects(self)
        requires
            self.tick() is Some,
        ensures
            elects(self, Input::Tick, self.tick()->0),
    {
        match self.role {
            RoleView::Follower { leader, voted_for, leader_seen_ticks, election_timeout } => {
                if leader_seen_ticks + 1 > election_timeout {
                    self.lemma_campaign_election();
                }
            },
            RoleView::Candidate { votes, election_ticks, election_timeout } => {
                if election_ticks + 1 >= election_timeout {
                    self.lemma_campaign_election();
                }
            },
            RoleView::Leader { .. } => {},
        }
    }
}

} // verus!
