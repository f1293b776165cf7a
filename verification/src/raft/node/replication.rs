//! What a node's transitions do to its log, and what the entries are that
//! a leader sends.

use crate::raft::codec::EntryView;
use crate::raft::log::LogView;
use crate::raft::message::{AddressView, EventView, InstructionView, MessageView, RequestView};
use crate::raft::node::election::{calm, grows};
use crate::raft::node::safety::Input;
use crate::raft::node::{NodeView, RoleView};
use vstd::prelude::*;

verus! {

/// Whether `a` is the beginning of `b`.
pub open spec fn is_prefix(a: Seq<EntryView>, b: Seq<EntryView>) -> bool {
    &&& a.len() <= b.len()
    &&& forall|i: int| 0 <= i < a.len() ==> #[trigger] b[i] == a[i]
}

/// The term of the entry at `index` of `log`, or 0 where there is none.
pub open spec fn term_at(log: Seq<EntryView>, index: u64) -> u64 {
    if 1 <= index <= log.len() {
        log[index - 1].term
    } else {
        0
    }
}

/// Whether the message hands on the end of `log`: the entries above some
/// index, with that index and the term of the entry at it.
pub open spec fn snapshot(log: Seq<EntryView>, x: MessageView) -> bool {
    match x.event {
        EventView::ReplicateEntries { base_index, base_term, entries } => {
            &&& base_index <= log.len()
            &&& base_term == term_at(log, base_index)
            &&& entries == log.subrange(base_index as int, log.len() as int)
        },
        _ => false,
    }
}

/// Whether the message hands on the end of a log that the node had between
/// its states `n` and `m`.
pub open spec fn snapshot_between(n: NodeView, m: NodeView, x: MessageView) -> bool {
    exists|k: int|
        n.log.entries.len() <= k <= m.log.entries.len() && snapshot(
            #[trigger] m.log.entries.take(k),
            x,
        )
}

/// Whether each message with entries that `m` has in its outbox beyond
/// those of `n` hands on the end of a log that the node had meanwhile.
pub open spec fn replicas_ok(n: NodeView, m: NodeView) -> bool {
    forall|i: int|
        n.outbox.len() <= i < m.outbox.len() && (#[trigger] m.outbox[i]).event
            is ReplicateEntries ==> snapshot_between(n, m, m.outbox[i])
}

/// Whether no message that `m` has in its outbox beyond those of `n` hands
/// on entries.
pub open spec fn no_replicas(n: NodeView, m: NodeView) -> bool {
    forall|i: int|
        n.outbox.len() <= i < m.outbox.len() ==> !((#[trigger] m.outbox[i]).event
            is ReplicateEntries)
}

/// Whether going from `n` to `m` is what a leader may do to its log: it
/// appends entries of its term, and what it sends of its log is the end of
/// the log as it was at the time.
pub open spec fn leads(n: NodeView, m: NodeView) -> bool {
    &&& calm(n, m)
    &&& is_prefix(n.log.entries, m.log.entries)
    &&& forall|i: int|
        n.log.entries.len() <= i < m.log.entries.len() ==> (#[trigger] m.log.entries[i]).term
            == m.term
    &&& replicas_ok(n, m)
}

/// Whether going from `n` to `m` leaves the entries of the log as they are
/// and sends none.
pub open spec fn keeps(n: NodeView, m: NodeView) -> bool {
    &&& grows(n, m)
    &&& m.log.entries == n.log.entries
    &&& no_replicas(n, m)
}

/// A step that keeps the log after one that keeps it keeps it.
pub proof fn lemma_keeps_trans(a: NodeView, b: NodeView, c: NodeView)
    requires
        keeps(a, b),
        keeps(b, c),
        b.term == c.term,
    ensures
        keeps(a, c),
{
    assert forall|i: int| 0 <= i < a.outbox.len() implies #[trigger] c.outbox[i]
        == a.outbox[i] by {
        assert(b.outbox[i] == a.outbox[i]);
    }
    assert forall|i: int| a.outbox.len() <= i < c.outbox.len() implies (
    #[trigger] c.outbox[i]).from is Local && c.outbox[i].term == c.term && !(c.outbox[i].event
        is ReplicateEntries) by {
        if i < b.outbox.len() {
            assert(c.outbox[i] == b.outbox[i]);
        }
    }
}

/// A leader that leads on from where it led on leads on.
pub proof fn lemma_leads_trans(a: NodeView, b: NodeView, c: NodeView)
    requires
        leads(a, b),
        leads(b, c),
    ensures
        leads(a, c),
{
    crate::raft::node::election::lemma_calm_trans(a, b, c);
    assert forall|i: int| 0 <= i < a.log.entries.len() implies #[trigger] c.log.entries[i]
        == a.log.entries[i] by {
        assert(b.log.entries[i] == a.log.entries[i]);
    }
    assert forall|i: int| a.log.entries.len() <= i < c.log.entries.len() implies (
    #[trigger] c.log.entries[i]).term == c.term by {
        if i < b.log.entries.len() {
            assert(c.log.entries[i] == b.log.entries[i]);
        }
    }
    assert forall|i: int|
        a.outbox.len() <= i < c.outbox.len() && (#[trigger] c.outbox[i]).event
            is ReplicateEntries implies snapshot_between(a, c, c.outbox[i]) by {
        if i < b.outbox.len() {
            assert(c.outbox[i] == b.outbox[i]);
            assert(snapshot_between(a, b, b.outbox[i]));
            let k = choose|k: int|
                a.log.entries.len() <= k <= b.log.entries.len() && snapshot(
                    #[trigger] b.log.entries.take(k),
                    b.outbox[i],
                );
            assert(c.log.entries.take(k) =~= b.log.entries.take(k));
        } else {
            assert(snapshot_between(b, c, c.outbox[i]));
            let k = choose|k: int|
                b.log.entries.len() <= k <= c.log.entries.len() && snapshot(
                    #[trigger] c.log.entries.take(k),
                    c.outbox[i],
                );
            assert(a.log.entries.len() <= k);
        }
    }
}

/// A calm step that leaves the log alone and sends no entries is a
/// leader's step.
pub proof fn lemma_leads_idle(n: NodeView, m: NodeView)
    requires
        calm(n, m),
        m.log.entries == n.log.entries,
        no_replicas(n, m),
    ensures
        leads(n, m),
{
}

impl NodeView {
    /// Replicating to a peer sends the end of the leader's log.
    pub proof fn lemma_leader_replicate_leads(self, peer: Seq<char>)
        requires
            self.log.valid(),
            self.leader_replicate(peer) is Some,
        ensures
            leads(self, self.leader_replicate(peer)->0),
    {
        let m = self.leader_replicate(peer)->0;
        self.lemma_leader_replicate_calm(peer);
        match self.role {
            RoleView::Leader { peer_next_index, .. } => {
                let log = self.log.entries;
                assert(m.log.entries.take(log.len() as int) =~= log);
                let x = m.outbox[self.outbox.len() as int];
                assert(snapshot(log, x));
                assert(snapshot_between(self, m, x));
                assert forall|i: int|
                    self.outbox.len() <= i < m.outbox.len() && (#[trigger] m.outbox[i]).event
                        is ReplicateEntries implies snapshot_between(self, m, m.outbox[i]) by {
                    assert(i == self.outbox.len());
                }
            },
            _ => {},
        }
    }

    /// Replicating to peers sends the end of the leader's log.
    pub proof fn lemma_replicate_all_leads(self, peers: Seq<Seq<char>>)
        requires
            self.log.valid(),
            self.replicate_all(peers) is Some,
        ensures
            leads(self, self.replicate_all(peers)->0),
        decreases peers.len(),
    {
        if peers.len() > 0 {
            self.lemma_replicate_all_leads(peers.drop_last());
            let mid = self.replicate_all(peers.drop_last())->0;
            self.lemma_replicate_all_frame(peers.drop_last());
            mid.lemma_leader_replicate_leads(peers.last());
            lemma_leads_trans(self, mid, self.replicate_all(peers)->0);
        } else {
            self.lemma_idle();
        }
    }

    /// A node that does nothing does what a leader may.
    pub proof fn lemma_idle(self)
        ensures
            leads(self, self),
            keeps(self, self),
    {
    }

    /// Taking a client's request is what a leader may do to its log.
    pub proof fn lemma_leader_request_leads(self, from: AddressView, event: EventView)
        requires
            self.wf(),
            self.role is Leader,
            self.leader_request(from, event) is Some,
        ensures
            leads(self, self.leader_request(from, event)->0),
    {
        let m = self.leader_request(from, event)->0;
        self.lemma_leader_request_calm(from, event);
        match event {
            EventView::ClientRequest { id, request } => match request {
                RequestView::Mutate(command) => {
                    let grown = NodeView {
                        log: self.log.append(self.term, Some(command)),
                        ..self
                    };
                    self.log.lemma_append(self.term, Some(command));
                    assert(leads(self, grown));
                    grown.lemma_replicate_all_leads(self.peers);
                    let a = self.leader_append(Some(command))->0;
                    lemma_leads_trans(self, grown, a);
                    let n = a.instruct(
                        InstructionView::Notify { id, address: from, index: a.log.last_index() },
                    );
                    lemma_leads_idle(a, n);
                    lemma_leads_trans(self, a, n);
                    if self.peers.len() == 0 {
                        n.lemma_leader_commit_calm();
                        lemma_leads_idle(n, n.leader_commit());
                        lemma_leads_trans(self, n, n.leader_commit());
                    }
                },
                _ => {
                    lemma_leads_idle(self, m);
                },
            },
            _ => {},
        }
    }

    /// Whatever message of its own term a leader takes, it does to its log
    /// what a leader may.
    pub proof fn lemma_leader_handle_leads(self, msg: MessageView)
        requires
            self.wf(),
            self.role is Leader,
            self.receives(msg),
            !self.outranked_by(msg),
            self.leader_step(msg) is Some,
        ensures
            leads(self, self.leader_step(msg)->0),
    {
        let m = self.leader_step(msg)->0;
        self.lemma_leader_handle_calm(msg);
        match msg.event {
            EventView::ConfirmLeader { commit_index, has_committed } => match msg.from {
                AddressView::Peer(from) => {
                    let n = self.instruct(
                        InstructionView::Vote {
                            term: msg.term,
                            index: commit_index,
                            address: AddressView::Peer(from),
                        },
                    );
                    lemma_leads_idle(self, n);
                    if !has_committed {
                        n.lemma_leader_replicate_leads(from);
                        lemma_leads_trans(self, n, m);
                    }
                },
                _ => {},
            },
            EventView::AcceptEntries { last_index } => {
                lemma_leads_idle(self, m);
            },
            EventView::RejectEntries => match msg.from {
                AddressView::Peer(from) => {
                    match self.role {
                        RoleView::Leader { heartbeat_ticks, peer_next_index, peer_last_index } => {
                            if crate::assoc::has_key(peer_next_index, from)
                                && crate::assoc::to_map(peer_next_index)[from] > 1 {
                                let next = (crate::assoc::to_map(peer_next_index)[from]
                                    - 1) as u64;
                                let n = NodeView {
                                    role: RoleView::Leader {
                                        heartbeat_ticks,
                                        peer_next_index: crate::assoc::put(
                                            peer_next_index,
                                            from,
                                            next,
                                        ),
                                        peer_last_index,
                                    },
                                    ..self
                                };
                                lemma_leads_idle(self, n);
                                n.lemma_leader_replicate_leads(from);
                                lemma_leads_trans(self, n, m);
                            } else {
                                self.lemma_leader_replicate_leads(from);
                            }
                        },
                        _ => {},
                    }
                },
                _ => {},
            },
            EventView::ClientRequest { id, request } => {
                self.lemma_leader_request_leads(msg.from, msg.event);
            },
            EventView::ClientResponse { id, response } => {
                lemma_leads_idle(self, m);
            },
            _ => {},
        }
    }

    /// Serving the requests that waited is what a leader may do to its log.
    pub proof fn lemma_replay_leads(self, queued: Seq<(AddressView, EventView)>)
        requires
            self.wf(),
            self.role is Leader,
            self.replay(queued) is Some,
        ensures
            leads(self, self.replay(queued)->0),
        decreases queued.len(),
    {
        if queued.len() > 0 {
            self.lemma_replay_leads(queued.drop_last());
            self.lemma_replay(queued.drop_last());
            let mid = self.replay(queued.drop_last())->0;
            mid.lemma_leader_request_leads(queued.last().0, queued.last().1);
            lemma_leads_trans(self, mid, self.replay(queued)->0);
        }
    }
}

/// Whether the node went from `n` to `m` by splicing the entries of the
/// input into its log: the input is a message of a peer with entries, the
/// log held the base that the message names, and the log of `m` is the log
/// of `n` with the entries spliced in.
pub open spec fn spliced(n: NodeView, input: Input, m: NodeView) -> bool {
    match input {
        Input::Message(w) => match w.event {
            EventView::ReplicateEntries { base_index, base_term, entries } => {
                &&& w.from is Peer
                &&& exists|log: LogView|
                    {
                        &&& log.valid()
                        &&& log.entries == n.log.entries
                        &&& base_index == 0 || log.has(base_index, base_term)
                        &&& log.accepts(entries)
                        &&& !log.splice_hits_committed(entries)
                        &&& m.log.entries == (#[trigger] log.splice(entries)).entries
                    }
            },
            _ => false,
        },
        Input::Tick => false,
    }
}

/// What one input does to a node's log, whatever the node and the input.
///
/// What the node sends of its log is the end of the log as it was at the
/// time. A node that leads afterwards has kept its log and at most appended
/// entries of its term. Any other node sends no entries, and has kept the
/// entries of its log, unless it is a follower that has spliced the entries
/// of the input in.
pub open spec fn replicates(n: NodeView, input: Input, m: NodeView) -> bool {
    &&& grows(n, m)
    &&& replicas_ok(n, m)
    &&& m.role is Leader ==> {
        &&& is_prefix(n.log.entries, m.log.entries)
        &&& forall|i: int|
            n.log.entries.len() <= i < m.log.entries.len() ==> (
            #[trigger] m.log.entries[i]).term == m.term
    }
    &&& !(m.role is Leader) ==> {
        &&& no_replicas(n, m)
        &&& m.log.entries == n.log.entries || (m.role is Follower && spliced(n, input, m))
    }
}

impl NodeView {
    /// Handing requests on keeps the log.
    pub proof fn lemma_forward_keeps(self, leader: Seq<char>, queued: Seq<(AddressView, EventView)>)
        ensures
            keeps(self, self.forward(leader, queued)),
            self.forward(leader, queued).term == self.term,
        decreases queued.len(),
    {
        if queued.len() > 0 {
            self.lemma_forward_keeps(leader, queued.drop_last());
            let mid = self.forward(leader, queued.drop_last());
            let end = self.forward(leader, queued);
            assert(keeps(mid, end));
            lemma_keeps_trans(self, mid, end);
        }
    }

    /// Becoming a follower keeps the log.
    pub proof fn lemma_follow_keeps(self, term: u64, leader: Seq<char>)
        requires
            term >= self.term,
        ensures
            keeps(self, self.follow(term, leader)),
    {
        let vote = if term > self.term {
            None
        } else {
            self.log.voted_for
        };
        let raised = NodeView {
            term,
            log: LogView { term, voted_for: vote, ..self.log },
            instructions: if self.role is Leader {
                self.instructions.push(InstructionView::Abort)
            } else {
                self.instructions
            },
            role: RoleView::Follower {
                leader: Some(leader),
                voted_for: vote,
                leader_seen_ticks: 0,
                election_timeout: crate::raft::node::timeout_of(self.seed),
            },
            seed: crate::raft::node::next_seed(self.seed),
            ..self
        };
        let aborted = raised.abort_proxied();
        assert(keeps(self, raised));
        assert(keeps(raised, aborted));
        lemma_keeps_trans(self, raised, aborted);
        let cleared = NodeView { queued: Seq::empty(), ..aborted };
        assert(keeps(aborted, cleared));
        lemma_keeps_trans(self, aborted, cleared);
        cleared.lemma_forward_keeps(leader, aborted.queued);
        lemma_keeps_trans(self, cleared, self.follow(term, leader));
    }

    /// Taking a leader keeps the log.
    pub proof fn lemma_adopt_keeps(self, leader: Seq<char>)
        ensures
            keeps(self, self.adopt(leader)),
            self.adopt(leader).term == self.term,
            self.adopt(leader).log == self.log,
    {
        match self.role {
            RoleView::Follower { leader: None, voted_for, leader_seen_ticks, election_timeout } => {
                let told = (NodeView {
                    role: RoleView::Follower {
                        leader: Some(leader),
                        voted_for,
                        leader_seen_ticks,
                        election_timeout,
                    },
                    ..self
                }).instruct(InstructionView::Abort);
                let cleared = NodeView { queued: Seq::empty(), ..told };
                assert(keeps(self, cleared));
                cleared.lemma_forward_keeps(leader, told.queued);
                cleared.lemma_forward_frame(leader, told.queued);
                lemma_keeps_trans(self, cleared, self.adopt(leader));
            },
            _ => {},
        }
    }

    /// A follower that takes a message of its own term keeps its log,
    /// unless it splices the entries of the message in; and it sends no
    /// entries.
    pub proof fn lemma_follower_handle_replicates(self, msg: MessageView)
        requires
            self.wf(),
            self.role is Follower,
            self.follower_handle(msg) is Some,
        ensures
            grows(self, self.follower_handle(msg)->0),
            no_replicas(self, self.follower_handle(msg)->0),
            self.follower_handle(msg)->0.role is Follower,
            self.follower_handle(msg)->0.log.entries == self.log.entries || spliced(
                self,
                Input::Message(msg),
                self.follower_handle(msg)->0,
            ),
    {
        let m = self.follower_handle(msg)->0;
        self.lemma_follower_handle_election(msg);
        match msg.event {
            EventView::Heartbeat { commit_index, commit_term } => match msg.from {
                AddressView::Peer(from) => {
                    self.lemma_adopt_keeps(from);
                    let n = self.adopt(from);
                    if n.leader() == Some(from) {
                        assert(keeps(n, m));
                        lemma_keeps_trans(self, n, m);
                    }
                },
                _ => {},
            },
            EventView::ReplicateEntries { base_index, base_term, entries } => match msg.from {
                AddressView::Peer(from) => {
                    self.lemma_adopt_keeps(from);
                    let n = self.adopt(from);
                    if n.leader() == Some(from) {
                        let h = n.heard();
                        if base_index > 0 && !h.log.has(base_index, base_term) {
                            assert(keeps(n, m));
                            lemma_keeps_trans(self, n, m);
                        } else {
                            assert(grows(n, m) && no_replicas(n, m));
                            assert forall|i: int|
                                self.outbox.len() <= i < m.outbox.len() implies !((
                            #[trigger] m.outbox[i]).event is ReplicateEntries) by {
                                if i < n.outbox.len() {
                                    assert(m.outbox[i] == n.outbox[i]);
                                }
                            }
                            let log = h.log;
                            assert(m.log.entries == log.splice(entries).entries);
                            assert(spliced(self, Input::Message(msg), m));
                        }
                    }
                },
                _ => {},
            },
            EventView::SolicitVote { last_index, last_term } => {},
            EventView::ClientRequest { id, request } => {},
            EventView::ClientResponse { id, response } => {},
            _ => {},
        }
    }

    /// A node that a message of a higher term makes a follower, and that
    /// then takes the message, keeps its log, unless it splices the entries
    /// of the message in; and it sends no entries.
    pub proof fn lemma_follow_handle_replicates(self, term: u64, leader: Seq<char>, msg: MessageView)
        requires
            self.wf(),
            term >= self.term,
            self.follow(term, leader).follower_handle(msg) is Some,
        ensures
            replicates(self, Input::Message(msg), self.follow(term, leader).follower_handle(msg)->0),
            self.follow(term, leader).follower_handle(msg)->0.role is Follower,
    {
        let f = self.follow(term, leader);
        let m = f.follower_handle(msg)->0;
        self.lemma_follow(term, leader);
        self.lemma_follow_keeps(term, leader);
        self.lemma_follow_election(term, leader);
        f.lemma_follower_handle_replicates(msg);
        f.lemma_follower_handle_election(msg);
        assert forall|i: int| 0 <= i < self.outbox.len() implies #[trigger] m.outbox[i]
            == self.outbox[i] by {
            assert(f.outbox[i] == self.outbox[i]);
        }
        assert forall|i: int| self.outbox.len() <= i < m.outbox.len() implies (
        #[trigger] m.outbox[i]).from is Local && m.outbox[i].term == m.term && !(m.outbox[i].event
            is ReplicateEntries) by {
            if i < f.outbox.len() {
                assert(m.outbox[i] == f.outbox[i]);
            }
        }
        if m.log.entries != self.log.entries {
            assert(spliced(f, Input::Message(msg), m));
            match msg.event {
                EventView::ReplicateEntries { base_index, base_term, entries } => {
                    let log = choose|log: LogView|
                        {
                            &&& log.valid()
                            &&& log.entries == f.log.entries
                            &&& base_index == 0 || log.has(base_index, base_term)
                            &&& log.accepts(entries)
                            &&& !log.splice_hits_committed(entries)
                            &&& m.log.entries == (#[trigger] log.splice(entries)).entries
                        };
                    assert(log.entries == self.log.entries);
                    assert(spliced(self, Input::Message(msg), m));
                },
                _ => {},
            }
        }
    }

    /// A candidate that takes the lead keeps its log and at most appends
    /// entries of its term, and what it sends of its log is the end of the
    /// log as it was at the time.
    pub proof fn lemma_lead_replicates(self, input: Input)
        requires
            self.wf(),
            self.lead() is Some,
        ensures
            replicates(self, input, self.lead()->0),
    {
        let next = (self.log.entries.len() + 1) as u64;
        crate::raft::node::leader::lemma_index_all(self.peers, next);
        crate::raft::node::leader::lemma_index_all(self.peers, 0);
        let start = (NodeView {
            role: RoleView::Leader {
                heartbeat_ticks: 0,
                peer_next_index: crate::raft::node::leader::index_all(self.peers, next),
                peer_last_index: crate::raft::node::leader::index_all(self.peers, 0),
            },
            queued: Seq::empty(),
            ..self
        });
        let sent = start.send(
            AddressView::Peers,
            EventView::Heartbeat {
                commit_index: self.log.commit_index,
                commit_term: self.log.commit_term(),
            },
        );
        let aborted = sent.abort_proxied();
        let m = self.lead()->0;
        sent.lemma_abort_proxied_calm();
        start.lemma_send_calm(
            AddressView::Peers,
            EventView::Heartbeat {
                commit_index: self.log.commit_index,
                commit_term: self.log.commit_term(),
            },
        );
        crate::raft::node::election::lemma_calm_trans(start, sent, aborted);
        lemma_leads_idle(start, aborted);
        aborted.lemma_replay_leads(self.queued);
        lemma_leads_trans(start, aborted, m);
        self.lemma_lead_election();
        assert forall|i: int|
            self.outbox.len() <= i < m.outbox.len() && (#[trigger] m.outbox[i]).event
                is ReplicateEntries implies snapshot_between(self, m, m.outbox[i]) by {
            assert(snapshot_between(start, m, m.outbox[i]));
            let k = choose|k: int|
                start.log.entries.len() <= k <= m.log.entries.len() && snapshot(
                    #[trigger] m.log.entries.take(k),
                    m.outbox[i],
                );
            assert(self.log.entries.len() <= k);
        }
    }

    /// What a message does to a node's log.
    pub proof fn lemma_step_replicates(self, msg: MessageView)
        requires
            self.wf(),
            self.step(msg) is Some,
        ensures
            replicates(self, Input::Message(msg), self.step(msg)->0),
    {
        let m = self.step(msg)->0;
        let input = Input::Message(msg);
        self.lemma_step_elects(msg);
        if !self.receives(msg) {
            self.lemma_idle();
            assert(replicates(self, input, m));
        } else if self.outranked_by(msg) {
            self.lemma_follow_handle_replicates(msg.term, msg.from->Peer_0, msg);
            assert(replicates(self, input, m));
        } else {
            match self.role {
                RoleView::Follower { .. } => {
                    self.lemma_follower_handle_replicates(msg);
                    assert(replicates(self, input, m));
                },
                RoleView::Candidate { votes, election_ticks, election_timeout } => {
                    match msg.event {
                        EventView::GrantVote => match msg.from {
                            AddressView::Peer(from) => {
                                let votes2 = crate::raft::node::election::tally(self, from);
                                let n = NodeView {
                                    role: RoleView::Candidate {
                                        votes: votes2,
                                        election_ticks,
                                        election_timeout,
                                    },
                                    ..self
                                };
                                if votes2.len() >= self.quorum() {
                                    assert(votes2.no_duplicates());
                                    assert(n.wf());
                                    n.lemma_lead_replicates(input);
                                } else {
                                    self.lemma_idle();
                                }
                            },
                            _ => {
                                self.lemma_idle();
                            },
                        },
                        EventView::Heartbeat { .. } | EventView::ReplicateEntries { .. } => {
                            match msg.from {
                                AddressView::Peer(from) => {
                                    self.lemma_follow_handle_replicates(self.term, from, msg);
                                },
                                _ => {
                                    self.lemma_idle();
                                },
                            }
                        },
                        EventView::ClientRequest { id, request } => {
                            assert(keeps(self, m));
                        },
                        EventView::ClientResponse { id, response } => {
                            assert(keeps(self, m));
                        },
                        _ => {
                            self.lemma_idle();
                        },
                    }
                },
                RoleView::Leader { .. } => {
                    self.lemma_leader_handle_leads(msg);
                    assert(replicates(self, input, m));
                },
            }
        }
    }

    /// What a tick does to a node's log.
    pub proof fn lemma_tick_replicates(self)
        requires
            self.wf(),
            self.tick() is Some,
        ensures
            replicates(self, Input::Tick, self.tick()->0),
    {
        let m = self.tick()->0;
        self.lemma_tick_elects();
        match self.role {
            RoleView::Follower { .. } => {
                assert(keeps(self, m));
            },
            RoleView::Candidate { .. } => {
                assert(keeps(self, m));
            },
            RoleView::Leader { .. } => {
                crate::raft::node::election::lemma_calm_trans(self, self, m);
                lemma_leads_idle(self, m);
            },
        }
    }
}

} // verus!
