//! What holds of every transition of a node: its term never falls, what it
//! has committed stays, the driver is told to apply exactly what is newly
//! committed, in order, and a leader commits only at an entry of its own
//! term.

use crate::assoc::{distinct_keys, has_key, lemma_put, lemma_without, put, to_map};
use crate::raft::codec::EntryView;
use crate::raft::log::LogView;
use crate::raft::message::{AddressView, EventView, InstructionView, MessageView, RequestView};
use crate::raft::node::leader::{index_all, lemma_index_all};
use crate::raft::node::{applies, NodeView, RoleView};
use vstd::prelude::*;

verus! {

/// The entries that the instructions tell the driver to apply, in order.
pub open spec fn applied(instructions: Seq<InstructionView>) -> Seq<EntryView>
    decreases instructions.len(),
{
    if instructions.len() == 0 {
        Seq::empty()
    } else {
        match instructions.last() {
            InstructionView::Apply { entry } => applied(instructions.drop_last()).push(entry),
            _ => applied(instructions.drop_last()),
        }
    }
}

/// One more instruction adds its entry where it is an `Apply`, and nothing
/// where it is not.
pub proof fn lemma_applied_push(instructions: Seq<InstructionView>, i: InstructionView)
    ensures
        applied(instructions.push(i)) == match i {
            InstructionView::Apply { entry } => applied(instructions).push(entry),
            _ => applied(instructions),
        },
{
    assert(instructions.push(i).drop_last() =~= instructions);
}

/// What two runs of instructions apply together is what the first applies
/// and then what the second applies.
pub proof fn lemma_applied_add(a: Seq<InstructionView>, b: Seq<InstructionView>)
    ensures
        applied(a + b) == applied(a) + applied(b),
    decreases b.len(),
{
    if b.len() == 0 {
        assert(a + b =~= a);
        assert(applied(a) + applied(b) =~= applied(a));
    } else {
        lemma_applied_add(a, b.drop_last());
        assert((a + b).drop_last() =~= a + b.drop_last());
        assert((a + b).last() == b.last());
        match b.last() {
            InstructionView::Apply { entry } => {
                assert(applied(a + b) =~= applied(a) + applied(b));
            },
            _ => {},
        }
    }
}

/// The `Apply` instructions for a run of entries apply that run.
pub proof fn lemma_applied_applies(entries: Seq<EntryView>, from: u64, to: u64)
    requires
        from <= to <= entries.len(),
    ensures
        applied(applies(entries, from, to)) == entries.subrange(from as int, to as int),
    decreases to - from,
{
    if from == to {
        assert(applies(entries, from, to) =~= Seq::empty());
        assert(entries.subrange(from as int, to as int) =~= Seq::empty());
    } else {
        let shorter = (to - 1) as u64;
        lemma_applied_applies(entries, from, shorter);
        assert(applies(entries, from, to).drop_last() =~= applies(entries, from, shorter));
        assert(applies(entries, from, to).last() == InstructionView::Apply {
            entry: entries[to - 1],
        });
        assert(entries.subrange(from as int, to as int) =~= entries.subrange(
            from as int,
            shorter as int,
        ).push(entries[to - 1]));
    }
}

/// Whether the node `m` is a later state of the node `n` as the rules allow:
/// it is the same node of the same cluster, its term is not lower, its log
/// keeps what `n` had committed, and beyond what `n` told the driver to
/// apply, it tells the driver to apply exactly the entries that were
/// committed since, in order.
pub open spec fn progress(n: NodeView, m: NodeView) -> bool {
    &&& m.id == n.id
    &&& m.peers == n.peers
    &&& m.storage == n.storage
    &&& m.term >= n.term
    &&& n.log.committed_kept(m.log)
    &&& applied(m.instructions) == applied(n.instructions) + m.log.entries.subrange(
        n.log.commit_index as int,
        m.log.commit_index as int,
    )
}

/// A node is a later state of itself.
pub proof fn lemma_progress_refl(n: NodeView)
    requires
        n.log.valid(),
    ensures
        progress(n, n),
{
    assert(n.log.entries.subrange(n.log.commit_index as int, n.log.commit_index as int)
        =~= Seq::empty());
    assert(applied(n.instructions) + Seq::<EntryView>::empty() =~= applied(n.instructions));
}

/// A later state of a later state is a later state.
pub proof fn lemma_progress_trans(a: NodeView, b: NodeView, c: NodeView)
    requires
        a.log.valid(),
        b.log.valid(),
        c.log.valid(),
        progress(a, b),
        progress(b, c),
    ensures
        progress(a, c),
{
    let ai = a.log.commit_index as int;
    let bi = b.log.commit_index as int;
    let ci = c.log.commit_index as int;
    assert(c.log.entries.take(ai) =~= a.log.entries.take(ai)) by {
        assert(c.log.entries.take(bi).take(ai) =~= c.log.entries.take(ai));
        assert(b.log.entries.take(bi).take(ai) =~= b.log.entries.take(ai));
    }
    assert(b.log.entries.subrange(ai, bi) =~= c.log.entries.subrange(ai, bi)) by {
        assert forall|i: int| ai <= i < bi implies b.log.entries[i] == c.log.entries[i] by {
            assert(b.log.entries.take(bi)[i] == c.log.entries.take(bi)[i]);
        }
    }
    assert(c.log.entries.subrange(ai, bi) + c.log.entries.subrange(bi, ci)
        =~= c.log.entries.subrange(ai, ci));
    assert(applied(c.instructions) =~= applied(a.instructions) + c.log.entries.subrange(ai, ci));
}

/// A state that has the identity, the term and the log of `n`, and that
/// applies what `n` applies, is a later state of `n`.
pub proof fn lemma_progress_hold(n: NodeView, m: NodeView)
    requires
        n.log.valid(),
        m.id == n.id,
        m.peers == n.peers,
        m.storage == n.storage,
        m.term >= n.term,
        m.log.entries == n.log.entries,
        m.log.commit_index == n.log.commit_index,
        applied(m.instructions) == applied(n.instructions),
    ensures
        progress(n, m),
{
    lemma_progress_refl(n);
}

impl NodeView {
    /// Handing requests on keeps the node consistent, and changes only the
    /// outbox and the note of what was handed on.
    pub proof fn lemma_forward(self, leader: Seq<char>, queued: Seq<(AddressView, EventView)>)
        requires
            distinct_keys(self.proxied),
        ensures
            distinct_keys(self.forward(leader, queued).proxied),
            self.forward(leader, queued) == (NodeView {
                proxied: self.forward(leader, queued).proxied,
                outbox: self.forward(leader, queued).outbox,
                ..self
            }),
        decreases queued.len(),
    {
        if queued.len() > 0 {
            self.lemma_forward(leader, queued.drop_last());
            let mid = self.forward(leader, queued.drop_last());
            match queued.last().1 {
                EventView::ClientRequest { id, request } => {
                    lemma_put(mid.proxied, id, queued.last().0);
                },
                _ => {},
            }
        }
    }

    /// Becoming a follower keeps the node consistent and is progress.
    pub proof fn lemma_follow(self, term: u64, leader: Seq<char>)
        requires
            self.wf(),
            term >= self.term,
        ensures
            self.follow(term, leader).wf(),
            progress(self, self.follow(term, leader)),
            self.follow(term, leader).role is Follower,
            self.follow(term, leader).term == term,
            self.follow(term, leader).log.entries == self.log.entries,
            self.follow(term, leader).log.commit_index == self.log.commit_index,
    {
        let vote = if term > self.term {
            None
        } else {
            self.log.voted_for
        };
        let raised = NodeView {
            term,
            log: LogView { term, voted_for: vote, ..self.log },
            instructions: if self.role is Leader {
                self.instructions.push(InstructionView::Abort)
            } else {
                self.instructions
            },
            role: RoleView::Follower {
                leader: Some(leader),
                voted_for: vote,
                leader_seen_ticks: 0,
                election_timeout: crate::raft::node::timeout_of(self.seed),
            },
            seed: crate::raft::node::next_seed(self.seed),
            ..self
        };
        let aborted = raised.abort_proxied();
        let cleared = NodeView { queued: Seq::empty(), ..aborted };
        cleared.lemma_forward(leader, aborted.queued);
        lemma_applied_push(self.instructions, InstructionView::Abort);
        lemma_progress_hold(self, self.follow(term, leader));
    }

    /// Standing for election keeps the node consistent and is progress.
    pub proof fn lemma_campaign(self)
        requires
            self.wf(),
            self.campaign() is Some,
        ensures
            self.campaign()->0.wf(),
            progress(self, self.campaign()->0),
            self.campaign()->0.role is Candidate,
            self.campaign()->0.term == self.term + 1,
    {
        let m = self.campaign()->0;
        assert(seq![self.id].no_duplicates());
        lemma_progress_hold(self, m);
    }

    /// Committing further keeps the node consistent and is progress.
    pub proof fn lemma_commit_to(self, index: u64)
        requires
            self.wf(),
            self.log.commit_index <= index <= self.log.entries.len(),
        ensures
            self.commit_to(index).wf(),
            progress(self, self.commit_to(index)),
            self.commit_to(index) == (NodeView {
                log: LogView { commit_index: index, ..self.log },
                instructions: self.commit_to(index).instructions,
                ..self
            }),
    {
        let m = self.commit_to(index);
        lemma_applied_add(
            self.instructions,
            applies(self.log.entries, self.log.commit_index, index),
        );
        lemma_applied_applies(self.log.entries, self.log.commit_index, index);
        assert(m.log.entries.take(self.log.commit_index as int) =~= self.log.entries.take(
            self.log.commit_index as int,
        ));
    }

    /// Passing an answer on keeps the node consistent and is progress.
    pub proof fn lemma_respond(
        self,
        id: Seq<u8>,
        response: Result<crate::raft::message::ResponseView, crate::error::ErrorView>,
    )
        requires
            self.wf(),
        ensures
            self.respond(id, response).wf(),
            progress(self, self.respond(id, response)),
            self.respond(id, response).role == self.role,
    {
        lemma_without(self.proxied, id);
        lemma_progress_hold(self, self.respond(id, response));
    }

    /// Handing a request on, or keeping it, keeps the node consistent and is
    /// progress.
    pub proof fn lemma_defer(self, from: AddressView, event: EventView)
        requires
            self.wf(),
        ensures
            self.defer(from, event).wf(),
            progress(self, self.defer(from, event)),
            self.defer(from, event).role == self.role,
    {
        match event {
            EventView::ClientRequest { id, request } => {
                lemma_put(self.proxied, id, from);
            },
            _ => {},
        }
        lemma_progress_hold(self, self.defer(from, event));
    }

    /// Taking a leader keeps a follower consistent and is progress.
    pub proof fn lemma_adopt(self, leader: Seq<char>)
        requires
            self.wf(),
        ensures
            self.adopt(leader).wf(),
            progress(self, self.adopt(leader)),
            self.role is Follower ==> self.adopt(leader).role is Follower,
            self.adopt(leader).log == self.log,
            self.adopt(leader).term == self.term,
    {
        match self.role {
            RoleView::Follower { leader: None, voted_for, leader_seen_ticks, election_timeout } => {
                let told = (NodeView {
                    role: RoleView::Follower {
                        leader: Some(leader),
                        voted_for,
                        leader_seen_ticks,
                        election_timeout,
                    },
                    ..self
                }).instruct(InstructionView::Abort);
                let cleared = NodeView { queued: Seq::empty(), ..told };
                cleared.lemma_forward(leader, told.queued);
                lemma_applied_push(self.instructions, InstructionView::Abort);
                lemma_progress_hold(self, self.adopt(leader));
            },
            _ => {
                lemma_progress_refl(self);
            },
        }
    }

    /// A heartbeat keeps a follower consistent and is progress.
    pub proof fn lemma_follower_heartbeat(self, from: Seq<char>, commit_index: u64, commit_term: u64)
        requires
            self.wf(),
            self.role is Follower,
        ensures
            self.follower_heartbeat(from, commit_index, commit_term).wf(),
            progress(self, self.follower_heartbeat(from, commit_index, commit_term)),
            self.follower_heartbeat(from, commit_index, commit_term).role is Follower,
            self.follower_heartbeat(from, commit_index, commit_term).term == self.term,
    {
        self.lemma_adopt(from);
        let n = self.adopt(from);
        if n.leader() == Some(from) {
            let h = n.heard();
            lemma_progress_hold(n, h);
            let has_committed = h.log.has(commit_index, commit_term);
            let c = if has_committed && commit_index > h.log.commit_index {
                h.commit_to(commit_index)
            } else {
                h
            };
            if has_committed && commit_index > h.log.commit_index {
                h.lemma_commit_to(commit_index);
            } else {
                lemma_progress_refl(h);
            }
            let m = self.follower_heartbeat(from, commit_index, commit_term);
            lemma_progress_hold(c, m);
            lemma_progress_trans(self, n, h);
            lemma_progress_trans(self, h, c);
            lemma_progress_trans(self, c, m);
        }
    }

    /// Taking entries keeps a follower consistent and is progress.
    pub proof fn lemma_follower_replicate(
        self,
        from: Seq<char>,
        base_index: u64,
        base_term: u64,
        entries: Seq<EntryView>,
    )
        requires
            self.wf(),
            self.role is Follower,
            self.follower_replicate(from, base_index, base_term, entries) is Some,
        ensures
            self.follower_replicate(from, base_index, base_term, entries)->0.wf(),
            progress(self, self.follower_replicate(from, base_index, base_term, entries)->0),
            self.follower_replicate(from, base_index, base_term, entries)->0.role is Follower,
            self.follower_replicate(from, base_index, base_term, entries)->0.term == self.term,
            self.follower_replicate(from, base_index, base_term, entries)->0.log.commit_index
                == self.log.commit_index,
    {
        self.lemma_adopt(from);
        let n = self.adopt(from);
        let m = self.follower_replicate(from, base_index, base_term, entries)->0;
        if n.leader() == Some(from) {
            let h = n.heard();
            lemma_progress_hold(n, h);
            lemma_progress_trans(self, n, h);
            if base_index > 0 && !h.log.has(base_index, base_term) {
                lemma_progress_hold(h, m);
                lemma_progress_trans(self, h, m);
            } else {
                h.log.lemma_splice(entries);
                let ci = h.log.commit_index as int;
                assert(m.log.entries.subrange(ci, ci) =~= Seq::empty());
                assert(applied(h.instructions) + Seq::<EntryView>::empty() =~= applied(
                    h.instructions,
                ));
                assert(progress(h, m));
                lemma_progress_trans(self, h, m);
            }
        }
    }

    /// Answering a candidate keeps a follower consistent and is progress.
    pub proof fn lemma_follower_vote(self, from: Seq<char>, last_index: u64, last_term: u64)
        requires
            self.wf(),
        ensures
            self.follower_vote(from, last_index, last_term).wf(),
            progress(self, self.follower_vote(from, last_index, last_term)),
            self.follower_vote(from, last_index, last_term).role is Follower == self.role is Follower,
            self.follower_vote(from, last_index, last_term).term == self.term,
            self.follower_vote(from, last_index, last_term).log.commit_index
                == self.log.commit_index,
    {
        lemma_progress_hold(self, self.follower_vote(from, last_index, last_term));
    }

    /// A message of its own term keeps a follower consistent and is
    /// progress.
    pub proof fn lemma_follower_handle(self, msg: MessageView)
        requires
            self.wf(),
            self.role is Follower,
            self.follower_handle(msg) is Some,
        ensures
            self.follower_handle(msg)->0.wf(),
            progress(self, self.follower_handle(msg)->0),
            self.follower_handle(msg)->0.role is Follower,
            self.follower_handle(msg)->0.term == self.term,
    {
        lemma_progress_refl(self);
        match msg.event {
            EventView::Heartbeat { commit_index, commit_term } => match msg.from {
                AddressView::Peer(from) => {
                    self.lemma_follower_heartbeat(from, commit_index, commit_term);
                },
                _ => {},
            },
            EventView::ReplicateEntries { base_index, base_term, entries } => match msg.from {
                AddressView::Peer(from) => {
                    self.lemma_follower_replicate(from, base_index, base_term, entries);
                },
                _ => {},
            },
            EventView::SolicitVote { last_index, last_term } => match msg.from {
                AddressView::Peer(from) => {
                    self.lemma_follower_vote(from, last_index, last_term);
                },
                _ => {},
            },
            EventView::ClientRequest { id, request } => {
                self.lemma_defer(msg.from, msg.event);
            },
            EventView::ClientResponse { id, response } => {
                self.lemma_respond(id, response);
            },
            _ => {},
        }
    }

    /// A node that a message of a higher term makes a follower stays
    /// consistent, and what it does is progress.
    pub proof fn lemma_outranked(self, msg: MessageView)
        requires
            self.wf(),
            self.outranked_by(msg),
            self.follow(msg.term, msg.from->Peer_0).follower_handle(msg) is Some,
        ensures
            self.follow(msg.term, msg.from->Peer_0).follower_handle(msg)->0.wf(),
            progress(self, self.follow(msg.term, msg.from->Peer_0).follower_handle(msg)->0),
            self.follow(msg.term, msg.from->Peer_0).follower_handle(msg)->0.role is Follower,
            self.follow(msg.term, msg.from->Peer_0).follower_handle(msg)->0.term == msg.term,
    {
        let f = self.follow(msg.term, msg.from->Peer_0);
        self.lemma_follow(msg.term, msg.from->Peer_0);
        f.lemma_follower_handle(msg);
        lemma_progress_trans(self, f, f.follower_handle(msg)->0);
    }

    /// A message keeps a follower consistent, and what the follower does is
    /// progress.
    pub proof fn lemma_follower_step(self, msg: MessageView)
        requires
            self.wf(),
            self.role is Follower,
            self.follower_step(msg) is Some,
        ensures
            self.follower_step(msg)->0.wf(),
            progress(self, self.follower_step(msg)->0),
            self.follower_step(msg)->0.role is Follower,
    {
        if !self.receives(msg) {
            lemma_progress_refl(self);
        } else if self.outranked_by(msg) {
            self.lemma_outranked(msg);
        } else {
            self.lemma_follower_handle(msg);
        }
    }

    /// A tick keeps a follower consistent, and what the follower does is
    /// progress.
    pub proof fn lemma_follower_tick(self)
        requires
            self.wf(),
            self.role is Follower,
            self.follower_tick() is Some,
        ensures
            self.follower_tick()->0.wf(),
            progress(self, self.follower_tick()->0),
            !(self.follower_tick()->0.role is Leader),
    {
        match self.role {
            RoleView::Follower { leader, voted_for, leader_seen_ticks, election_timeout } => {
                if leader_seen_ticks + 1 > election_timeout {
                    self.lemma_campaign();
                } else {
                    lemma_progress_hold(self, self.follower_tick()->0);
                }
            },
            _ => {},
        }
    }
}

/// Whether a leader that went from `n` to `m` committed only at an entry of
/// its own term: where the commit index has risen, the entry that it now
/// stands at is of the leader's term.
pub open spec fn commits_own(n: NodeView, m: NodeView) -> bool {
    m.log.commit_index > n.log.commit_index ==> m.log.term_at(m.log.commit_index) == m.term
}

/// Whether `m` is a later state of the leader `n` in which it still leads
/// in its term, consistent, and has committed only at its own term.
pub open spec fn leads_on(n: NodeView, m: NodeView) -> bool {
    &&& m.wf()
    &&& progress(n, m)
    &&& m.role is Leader
    &&& m.term == n.term
    &&& commits_own(n, m)
}

/// A leader that leads on from a state in which it led on leads on.
pub proof fn lemma_leads_on_trans(a: NodeView, b: NodeView, c: NodeView)
    requires
        a.wf(),
        leads_on(a, b),
        leads_on(b, c),
    ensures
        leads_on(a, c),
{
    lemma_progress_trans(a, b, c);
    if c.log.commit_index > a.log.commit_index && c.log.commit_index == b.log.commit_index {
        let bi = b.log.commit_index as int;
        assert(c.log.entries.take(bi)[bi - 1] == b.log.entries.take(bi)[bi - 1]);
    }
}

impl NodeView {
    /// Replicating to a peer changes only the outbox.
    pub proof fn lemma_leader_replicate(self, peer: Seq<char>)
        requires
            self.wf(),
            self.role is Leader,
            self.leader_replicate(peer) is Some,
        ensures
            leads_on(self, self.leader_replicate(peer)->0),
            self.leader_replicate(peer)->0 == (NodeView {
                outbox: self.leader_replicate(peer)->0.outbox,
                ..self
            }),
    {
        lemma_progress_hold(self, self.leader_replicate(peer)->0);
    }

    /// Appending and replicating keeps the leader leading.
    pub proof fn lemma_leader_append(self, command: Option<Seq<u8>>)
        requires
            self.wf(),
            self.role is Leader,
            self.leader_append(command) is Some,
        ensures
            leads_on(self, self.leader_append(command)->0),
            self.leader_append(command)->0 == (NodeView {
                log: self.log.append(self.term, command),
                outbox: self.leader_append(command)->0.outbox,
                ..self
            }),
    {
        let grown = NodeView { log: self.log.append(self.term, command), ..self };
        let m = self.leader_append(command)->0;
        self.log.lemma_append(self.term, command);
        grown.lemma_replicate_all_frame(self.peers);
        let ci = self.log.commit_index as int;
        assert(m.log.entries.subrange(ci, ci) =~= Seq::empty());
        assert(applied(self.instructions) + Seq::<EntryView>::empty() =~= applied(
            self.instructions,
        ));
    }

    /// Committing what it may keeps the leader leading, and commits only at
    /// its own term.
    pub proof fn lemma_leader_commit(self)
        requires
            self.wf(),
            self.role is Leader,
        ensures
            leads_on(self, self.leader_commit()),
    {
        if self.commits() {
            self.lemma_commit_to(self.quorum_index());
        } else {
            lemma_progress_refl(self);
        }
    }

    /// A client's request keeps the leader leading.
    pub proof fn lemma_leader_request(self, from: AddressView, event: EventView)
        requires
            self.wf(),
            self.role is Leader,
            self.leader_request(from, event) is Some,
        ensures
            leads_on(self, self.leader_request(from, event)->0),
    {
        let m = self.leader_request(from, event)->0;
        match event {
            EventView::ClientRequest { id, request } => match request {
                RequestView::Query(command) => {
                    let q = InstructionView::Query {
                        id,
                        address: from,
                        command,
                        term: self.term,
                        index: self.log.commit_index,
                        quorum: self.quorum() as u64,
                    };
                    let v = InstructionView::Vote {
                        term: self.term,
                        index: self.log.commit_index,
                        address: AddressView::Local,
                    };
                    lemma_applied_push(self.instructions, q);
                    lemma_applied_push(self.instructions.push(q), v);
                    lemma_progress_hold(self, m);
                },
                RequestView::Mutate(command) => {
                    self.lemma_leader_append(Some(command));
                    let a = self.leader_append(Some(command))->0;
                    let note = InstructionView::Notify {
                        id,
                        address: from,
                        index: a.log.last_index(),
                    };
                    let n = a.instruct(note);
                    lemma_applied_push(a.instructions, note);
                    lemma_progress_hold(a, n);
                    assert(leads_on(a, n));
                    lemma_leads_on_trans(self, a, n);
                    if self.peers.len() == 0 {
                        n.lemma_leader_commit();
                        lemma_leads_on_trans(self, n, n.leader_commit());
                    }
                },
                RequestView::Status => {
                    let i = InstructionView::Status { id, address: from, status: self.status() };
                    lemma_applied_push(self.instructions, i);
                    lemma_progress_hold(self, m);
                },
            },
            _ => {
                lemma_progress_refl(self);
            },
        }
    }

    /// A message of its own term keeps the leader leading.
    pub proof fn lemma_leader_handle(self, msg: MessageView)
        requires
            self.wf(),
            self.role is Leader,
            self.receives(msg),
            !self.outranked_by(msg),
            self.leader_step(msg) is Some,
        ensures
            leads_on(self, self.leader_step(msg)->0),
    {
        let m = self.leader_step(msg)->0;
        lemma_progress_refl(self);
        match msg.event {
            EventView::ConfirmLeader { commit_index, has_committed } => match msg.from {
                AddressView::Peer(from) => {
                    let v = InstructionView::Vote {
                        term: msg.term,
                        index: commit_index,
                        address: AddressView::Peer(from),
                    };
                    let n = self.instruct(v);
                    lemma_applied_push(self.instructions, v);
                    lemma_progress_hold(self, n);
                    if !has_committed {
                        n.lemma_leader_replicate(from);
                        lemma_leads_on_trans(self, n, m);
                    }
                },
                _ => {},
            },
            EventView::AcceptEntries { last_index } => {
                match (self.role, msg.from) {
                    (
                        RoleView::Leader { heartbeat_ticks, peer_next_index, peer_last_index },
                        AddressView::Peer(peer),
                    ) => {
                        if last_index < u64::MAX {
                            lemma_put(peer_next_index, peer, (last_index + 1) as u64);
                            lemma_put(peer_last_index, peer, last_index);
                            let n = NodeView {
                                role: RoleView::Leader {
                                    heartbeat_ticks,
                                    peer_next_index: put(
                                        peer_next_index,
                                        peer,
                                        (last_index + 1) as u64,
                                    ),
                                    peer_last_index: put(peer_last_index, peer, last_index),
                                },
                                ..self
                            };
                            lemma_progress_hold(self, n);
                            n.lemma_leader_commit();
                            lemma_leads_on_trans(self, n, m);
                        } else {
                            self.lemma_leader_commit();
                        }
                    },
                    _ => {
                        self.lemma_leader_commit();
                    },
                }
            },
            EventView::RejectEntries => match msg.from {
                AddressView::Peer(from) => {
                    match self.role {
                        RoleView::Leader { heartbeat_ticks, peer_next_index, peer_last_index } => {
                            if has_key(peer_next_index, from) && to_map(peer_next_index)[from]
                                > 1 {
                                let next = (to_map(peer_next_index)[from] - 1) as u64;
                                lemma_put(peer_next_index, from, next);
                                let n = NodeView {
                                    role: RoleView::Leader {
                                        heartbeat_ticks,
                                        peer_next_index: put(peer_next_index, from, next),
                                        peer_last_index,
                                    },
                                    ..self
                                };
                                lemma_progress_hold(self, n);
                                n.lemma_leader_replicate(from);
                                lemma_leads_on_trans(self, n, m);
                            } else {
                                self.lemma_leader_replicate(from);
                            }
                        },
                        _ => {},
                    }
                },
                _ => {},
            },
            EventView::ClientRequest { id, request } => {
                self.lemma_leader_request(msg.from, msg.event);
            },
            EventView::ClientResponse { id, response } => {
                lemma_progress_hold(self, m);
            },
            _ => {},
        }
    }

    /// A tick keeps the leader leading.
    pub proof fn lemma_leader_tick(self)
        requires
            self.wf(),
            self.role is Leader,
        ensures
            leads_on(self, self.leader_tick()),
    {
        lemma_progress_hold(self, self.leader_tick());
    }

    /// Serving the requests that waited keeps the leader leading.
    pub proof fn lemma_replay(self, queued: Seq<(AddressView, EventView)>)
        requires
            self.wf(),
            self.role is Leader,
            self.replay(queued) is Some,
        ensures
            leads_on(self, self.replay(queued)->0),
        decreases queued.len(),
    {
        if queued.len() == 0 {
            lemma_progress_refl(self);
        } else {
            self.lemma_replay(queued.drop_last());
            let mid = self.replay(queued.drop_last())->0;
            mid.lemma_leader_request(queued.last().0, queued.last().1);
            lemma_leads_on_trans(self, mid, self.replay(queued)->0);
        }
    }

    /// A candidate that takes the lead is consistent, leads in its term,
    /// and commits only at its own term.
    pub proof fn lemma_lead(self)
        requires
            self.wf(),
            self.lead() is Some,
        ensures
            self.lead()->0.wf(),
            progress(self, self.lead()->0),
            self.lead()->0.role is Leader,
            self.lead()->0.term == self.term,
            commits_own(self, self.lead()->0),
    {
        let next = (self.log.entries.len() + 1) as u64;
        lemma_index_all(self.peers, next);
        lemma_index_all(self.peers, 0);
        let start = (NodeView {
            role: RoleView::Leader {
                heartbeat_ticks: 0,
                peer_next_index: index_all(self.peers, next),
                peer_last_index: index_all(self.peers, 0),
            },
            queued: Seq::empty(),
            ..self
        }).send(
            AddressView::Peers,
            EventView::Heartbeat {
                commit_index: self.log.commit_index,
                commit_term: self.log.commit_term(),
            },
        ).abort_proxied();
        lemma_progress_hold(self, start);
        start.lemma_replay(self.queued);
        lemma_progress_trans(self, start, self.lead()->0);
    }

    /// A message keeps a candidate consistent, and what it does is
    /// progress; where it takes the lead, it commits only at its own term.
    pub proof fn lemma_candidate_step(self, msg: MessageView)
        requires
            self.wf(),
            self.role is Candidate,
            self.candidate_step(msg) is Some,
        ensures
            self.candidate_step(msg)->0.wf(),
            progress(self, self.candidate_step(msg)->0),
            self.candidate_step(msg)->0.role is Leader ==> commits_own(
                self,
                self.candidate_step(msg)->0,
            ),
    {
        let m = self.candidate_step(msg)->0;
        lemma_progress_refl(self);
        if !self.receives(msg) {
        } else if self.outranked_by(msg) {
            self.lemma_outranked(msg);
        } else {
            match msg.event {
                EventView::GrantVote => match msg.from {
                    AddressView::Peer(from) => {
                        match self.role {
                            RoleView::Candidate { votes, election_ticks, election_timeout } => {
                                let votes2 = if votes.contains(from) {
                                    votes
                                } else {
                                    votes.push(from)
                                };
                                assert(votes2.no_duplicates());
                                assert(votes2[0] == self.id);
                                let n = NodeView {
                                    role: RoleView::Candidate {
                                        votes: votes2,
                                        election_ticks,
                                        election_timeout,
                                    },
                                    ..self
                                };
                                lemma_progress_hold(self, n);
                                if votes2.len() >= self.quorum() {
                                    n.lemma_lead();
                                    lemma_progress_trans(self, n, m);
                                }
                            },
                            _ => {},
                        }
                    },
                    _ => {},
                },
                EventView::Heartbeat { .. } | EventView::ReplicateEntries { .. } => match msg.from {
                    AddressView::Peer(from) => {
                        let f = self.follow(self.term, from);
                        self.lemma_follow(self.term, from);
                        f.lemma_follower_handle(msg);
                        lemma_progress_trans(self, f, m);
                    },
                    _ => {},
                },
                EventView::ClientRequest { id, request } => {
                    self.lemma_defer(msg.from, msg.event);
                },
                EventView::ClientResponse { id, response } => {
                    self.lemma_respond(id, response);
                },
                _ => {},
            }
        }
    }

    /// A tick keeps a candidate consistent, and what it does is progress.
    pub proof fn lemma_candidate_tick(self)
        requires
            self.wf(),
            self.role is Candidate,
            self.candidate_tick() is Some,
        ensures
            self.candidate_tick()->0.wf(),
            progress(self, self.candidate_tick()->0),
            self.candidate_tick()->0.role is Candidate,
    {
        match self.role {
            RoleView::Candidate { votes, election_ticks, election_timeout } => {
                if election_ticks + 1 >= election_timeout {
                    self.lemma_campaign();
                } else {
                    lemma_progress_hold(self, self.candidate_tick()->0);
                }
            },
            _ => {},
        }
    }

    /// A message keeps a leader consistent, and what it does is progress;
    /// where it still leads, it has committed only at its own term.
    pub proof fn lemma_leader_step(self, msg: MessageView)
        requires
            self.wf(),
            self.role is Leader,
            self.leader_step(msg) is Some,
        ensures
            self.leader_step(msg)->0.wf(),
            progress(self, self.leader_step(msg)->0),
            self.leader_step(msg)->0.role is Leader ==> commits_own(self, self.leader_step(msg)->0),
    {
        if !self.receives(msg) {
            lemma_progress_refl(self);
        } else if self.outranked_by(msg) {
            self.lemma_outranked(msg);
        } else {
            self.lemma_leader_handle(msg);
        }
    }

    /// Whatever message a consistent node takes, it stays consistent, and
    /// its new state is a later state of the old one.
    pub proof fn lemma_step(self, msg: MessageView)
        requires
            self.wf(),
            self.step(msg) is Some,
        ensures
            self.step(msg)->0.wf(),
            progress(self, self.step(msg)->0),
            self.step(msg)->0.role is Leader ==> commits_own(self, self.step(msg)->0),
    {
        match self.role {
            RoleView::Follower { .. } => {
                self.lemma_follower_step(msg);
            },
            RoleView::Candidate { .. } => {
                self.lemma_candidate_step(msg);
            },
            RoleView::Leader { .. } => {
                self.lemma_leader_step(msg);
            },
        }
    }

    /// Whenever a consistent node takes a tick, it stays consistent, and
    /// its new state is a later state of the old one.
    pub proof fn lemma_tick(self)
        requires
            self.wf(),
            self.tick() is Some,
        ensures
            self.tick()->0.wf(),
            progress(self, self.tick()->0),
            self.tick()->0.role is Leader ==> commits_own(self, self.tick()->0),
    {
        match self.role {
            RoleView::Follower { .. } => {
                self.lemma_follower_tick();
            },
            RoleView::Candidate { .. } => {
                self.lemma_candidate_tick();
            },
            RoleView::Leader { .. } => {
                self.lemma_leader_tick();
            },
        }
    }
}

/// What a node takes: a message, or a tick of the clock.
pub enum Input {
    Message(MessageView),
    Tick,
}

impl NodeView {
    /// The node after it has taken one input, or none where the input
    /// makes the node fail.
    pub open spec fn take(self, input: Input) -> Option<NodeView> {
        match input {
            Input::Message(msg) => self.step(msg),
            Input::Tick => self.tick(),
        }
    }

    /// The node after it has taken the inputs, first to last, or none where
    /// one of them makes the node fail. The host is taken not to drain the
    /// instructions meanwhile, so that the node's list of instructions is
    /// all that the driver is told during the run.
    pub open spec fn run(self, inputs: Seq<Input>) -> Option<NodeView>
        decreases inputs.len(),
    {
        if inputs.len() == 0 {
            Some(self)
        } else {
            match self.run(inputs.drop_last()) {
                Some(n) => n.take(inputs.last()),
                None => None,
            }
        }
    }

    /// Whatever a consistent node takes, it stays consistent, and each of
    /// its states is a later state of those before.
    pub proof fn lemma_run(self, inputs: Seq<Input>)
        requires
            self.wf(),
            self.run(inputs) is Some,
        ensures
            self.run(inputs)->0.wf(),
            progress(self, self.run(inputs)->0),
        decreases inputs.len(),
    {
        if inputs.len() == 0 {
            lemma_progress_refl(self);
        } else {
            self.lemma_run(inputs.drop_last());
            let mid = self.run(inputs.drop_last())->0;
            match inputs.last() {
                Input::Message(msg) => {
                    mid.lemma_step(msg);
                },
                Input::Tick => {
                    mid.lemma_tick();
                },
            }
            lemma_progress_trans(self, mid, self.run(inputs)->0);
        }
    }

    /// The term of a node never falls, and the term that its log has saved
    /// is always the node's term: whatever a consistent node takes, its
    /// term afterwards is at least its term before.
    pub proof fn lemma_term_never_falls(self, inputs: Seq<Input>)
        requires
            self.wf(),
            self.run(inputs) is Some,
        ensures
            self.run(inputs)->0.term >= self.term,
            self.run(inputs)->0.log.term == self.run(inputs)->0.term,
    {
        self.lemma_run(inputs);
    }

    /// What is committed stays: whatever a consistent node takes, its
    /// commit index afterwards is at least its commit index before, and its
    /// log still holds every entry up to the old commit index, unchanged.
    pub proof fn lemma_committed_stays(self, inputs: Seq<Input>, index: u64)
        requires
            self.wf(),
            self.run(inputs) is Some,
            1 <= index <= self.log.commit_index,
        ensures
            self.run(inputs)->0.log.commit_index >= self.log.commit_index,
            self.run(inputs)->0.log.get(index) == self.log.get(index),
            self.log.get(index) is Some,
    {
        self.lemma_run(inputs);
        let m = self.run(inputs)->0;
        let ci = self.log.commit_index as int;
        assert(m.log.entries.take(ci)[index - 1] == self.log.entries.take(ci)[index - 1]);
    }

    /// The driver is told to apply exactly what is committed, in the order
    /// of the log: whatever a consistent node takes, the entries that it
    /// tells the driver to apply meanwhile are the entries of its log above
    /// the old commit index up to the new one, each once, with rising
    /// indexes and no gap.
    pub proof fn lemma_applies_in_order(self, inputs: Seq<Input>)
        requires
            self.wf(),
            self.run(inputs) is Some,
        ensures
            self.log.commit_index <= self.run(inputs)->0.log.commit_index
                <= self.run(inputs)->0.log.entries.len(),
            applied(self.run(inputs)->0.instructions) == applied(self.instructions)
                + self.run(inputs)->0.log.entries.subrange(
                self.log.commit_index as int,
                self.run(inputs)->0.log.commit_index as int,
            ),
            forall|i: int|
                0 <= i < self.run(inputs)->0.log.commit_index - self.log.commit_index ==> (
                #[trigger] self.run(inputs)->0.log.entries.subrange(
                    self.log.commit_index as int,
                    self.run(inputs)->0.log.commit_index as int,
                )[i]).index == self.log.commit_index + 1 + i,
    {
        self.lemma_run(inputs);
    }

    /// A leader commits only at an entry of its own term: where a
    /// consistent node takes a message or a tick, leads afterwards, and its
    /// commit index has risen, the entry at the new commit index is of the
    /// node's term.
    pub proof fn lemma_leader_commits_own_term(self, input: Input)
        requires
            self.wf(),
            self.take(input) is Some,
            self.take(input)->0.role is Leader,
            self.take(input)->0.log.commit_index > self.log.commit_index,
        ensures
            self.take(input)->0.log.get(self.take(input)->0.log.commit_index) is Some,
            self.take(input)->0.log.get(self.take(input)->0.log.commit_index)->0.term
                == self.take(input)->0.term,
    {
        match input {
            Input::Message(msg) => {
                self.lemma_step(msg);
            },
            Input::Tick => {
                self.lemma_tick();
            },
        }
    }
}

} // verus!
