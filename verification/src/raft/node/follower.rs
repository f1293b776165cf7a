//! The follower: it follows a leader, votes in elections, and stands for
//! election itself when it has not heard from its leader for too long.

use crate::assoc::{lemma_put, lemma_without};
use crate::error::Error;
use crate::bytes::copy_bytes;
use crate::raft::codec::{entry_views, Entry, EntryView};
use crate::raft::log::LogView;
use crate::raft::message::{
    outcome_view, Address, AddressView, Event, EventView, Instruction, InstructionView, Message,
    MessageView, Response,
};
use crate::raft::node::{
    advance_seed, election_timeout, emit, fails, instruct, Node, NodeView, Role, RoleNode,
    RoleView, ELECTION_TIMEOUT_MAX, ELECTION_TIMEOUT_MIN,
};
use crate::storage::log::Store;
use vstd::prelude::*;
use vstd::string::StringExecFns;

verus! {

/// The value of a name that may be missing.
pub open spec fn name_view(name: Option<String>) -> Option<Seq<char>> {
    match name {
        Some(n) => Some(n@),
        None => None,
    }
}

/// What a follower keeps: whom it follows and whom it voted for in its
/// term, the ticks since it heard from its leader, and how many it will
/// wait before it stands for election.
#[derive(Debug)]
pub struct Follower {
    pub(crate) leader: Option<String>,
    pub(crate) voted_for: Option<String>,
    pub(crate) leader_seen_ticks: u64,
    pub(crate) election_timeout: u64,
}

impl Role for Follower {
    open(crate) spec fn role_view(&self) -> RoleView {
        RoleView::Follower {
            leader: name_view(self.leader),
            voted_for: name_view(self.voted_for),
            leader_seen_ticks: self.leader_seen_ticks,
            election_timeout: self.election_timeout,
        }
    }

    fn leads(&self) -> (r: bool) {
        false
    }

    fn fits(&self, id: &String, vote: &Option<String>) -> (r: bool) {
        let same_vote = match (&self.voted_for, vote) {
            (Some(a), Some(b)) => *a == *b,
            (None, None) => true,
            _ => false,
        };
        self.leader_seen_ticks <= self.election_timeout && ELECTION_TIMEOUT_MIN
            <= self.election_timeout && self.election_timeout <= ELECTION_TIMEOUT_MAX && same_vote
    }
}

impl Follower {
    /// A follower of `leader` that has voted for `voted_for`, and that waits
    /// `election_timeout` ticks for its leader.
    pub fn new(leader: Option<&str>, voted_for: Option<&str>, election_timeout: u64) -> (r: Self)
        requires
            ELECTION_TIMEOUT_MIN <= election_timeout <= ELECTION_TIMEOUT_MAX,
        ensures
            r.role_view() == (RoleView::Follower {
                leader: match leader {
                    Some(l) => Some(l@),
                    None => None,
                },
                voted_for: match voted_for {
                    Some(v) => Some(v@),
                    None => None,
                },
                leader_seen_ticks: 0,
                election_timeout,
            }),
    {
        Follower {
            leader: match leader {
                Some(l) => Some(String::from_str(l)),
                None => None,
            },
            voted_for: match voted_for {
                Some(v) => Some(String::from_str(v)),
                None => None,
            },
            leader_seen_ticks: 0,
            election_timeout,
        }
    }
}

impl NodeView {
    /// The leader that a follower follows, if it follows one.
    pub open spec fn leader(self) -> Option<Seq<char>> {
        match self.role {
            RoleView::Follower { leader, .. } => leader,
            _ => None,
        }
    }

    /// A follower that has just heard from its leader.
    pub open spec fn heard(self) -> NodeView {
        match self.role {
            RoleView::Follower { leader, voted_for, leader_seen_ticks, election_timeout } => {
                NodeView {
                    role: RoleView::Follower {
                        leader,
                        voted_for,
                        leader_seen_ticks: 0,
                        election_timeout,
                    },
                    ..self
                }
            },
            _ => self,
        }
    }

    /// A follower without a leader takes `leader` for its leader: it tells
    /// the driver to abort, and hands its waiting requests on.
    pub open spec fn adopt(self, leader: Seq<char>) -> NodeView {
        match self.role {
            RoleView::Follower { leader: None, voted_for, leader_seen_ticks, election_timeout } => {
                (NodeView {
                    role: RoleView::Follower {
                        leader: Some(leader),
                        voted_for,
                        leader_seen_ticks,
                        election_timeout,
                    },
                    ..self
                }).instruct(InstructionView::Abort).forward_queued(leader)
            },
            _ => self,
        }
    }

    /// A follower takes a heartbeat of the peer `from`. Without a leader it
    /// adopts `from`; a heartbeat of another than its leader it ignores. It
    /// commits up to the leader's commit index where its log holds that
    /// entry, and confirms.
    pub open spec fn follower_heartbeat(
        self,
        from: Seq<char>,
        commit_index: u64,
        commit_term: u64,
    ) -> NodeView {
        let n = self.adopt(from);
        if n.leader() != Some(from) {
            n
        } else {
            let n = n.heard();
            let has_committed = n.log.has(commit_index, commit_term);
            let n = if has_committed && commit_index > n.log.commit_index {
                n.commit_to(commit_index)
            } else {
                n
            };
            n.send(
                AddressView::Peer(from),
                EventView::ConfirmLeader {
                    commit_index: if commit_index <= n.log.last_index() {
                        commit_index
                    } else {
                        n.log.last_index()
                    },
                    has_committed,
                },
            )
        }
    }

    /// A follower takes entries of the peer `from`, or none where the
    /// entries cannot be spliced in. Without a leader it adopts `from`;
    /// entries of another than its leader it ignores. Where its log does not
    /// hold the base it rejects the entries, and else it splices them in and
    /// accepts.
    pub open spec fn follower_replicate(
        self,
        from: Seq<char>,
        base_index: u64,
        base_term: u64,
        entries: Seq<EntryView>,
    ) -> Option<NodeView> {
        let n = self.adopt(from);
        if n.leader() != Some(from) {
            Some(n)
        } else {
            let n = n.heard();
            if base_index > 0 && !n.log.has(base_index, base_term) {
                Some(n.send(AddressView::Peer(from), EventView::RejectEntries))
            } else if !n.log.accepts(entries) || n.log.splice_hits_committed(entries) {
                None
            } else {
                let log = n.log.splice(entries);
                Some(
                    (NodeView { log, ..n }).send(
                        AddressView::Peer(from),
                        EventView::AcceptEntries { last_index: log.last_index() },
                    ),
                )
            }
        }
    }

    /// Whether a follower grants its vote to the candidate `from`: it has
    /// not voted for another in its term, and the candidate's log is at
    /// least as far as its own.
    pub open spec fn grants(self, from: Seq<char>, last_index: u64, last_term: u64) -> bool {
        &&& self.log.voted_for is None || self.log.voted_for == Some(from)
        &&& last_term > self.log.last_term() || (last_term == self.log.last_term() && last_index
            >= self.log.last_index())
    }

    /// A follower is asked for its vote by the candidate `from`.
    pub open spec fn follower_vote(self, from: Seq<char>, last_index: u64, last_term: u64) -> NodeView {
        match self.role {
            RoleView::Follower { leader, voted_for, leader_seen_ticks, election_timeout } => {
                if self.grants(from, last_index, last_term) {
                    (NodeView {
                        log: LogView { voted_for: Some(from), ..self.log },
                        role: RoleView::Follower {
                            leader,
                            voted_for: Some(from),
                            leader_seen_ticks,
                            election_timeout,
                        },
                        ..self
                    }).send(AddressView::Peer(from), EventView::GrantVote)
                } else {
                    self
                }
            },
            _ => self,
        }
    }

    /// A node that does not lead takes a client's request: it hands the
    /// request on to its leader, or keeps it until there is one.
    pub open spec fn defer(self, from: AddressView, event: EventView) -> NodeView {
        match self.leader() {
            Some(leader) => self.proxy(leader, from, event),
            None => NodeView { queued: self.queued.push((from, event)), ..self },
        }
    }

    /// A follower takes a message of its own term.
    pub open spec fn follower_handle(self, msg: MessageView) -> Option<NodeView> {
        match msg.event {
            EventView::Heartbeat { commit_index, commit_term } => match msg.from {
                AddressView::Peer(from) => Some(
                    self.follower_heartbeat(from, commit_index, commit_term),
                ),
                _ => Some(self),
            },
            EventView::ReplicateEntries { base_index, base_term, entries } => match msg.from {
                AddressView::Peer(from) => self.follower_replicate(
                    from,
                    base_index,
                    base_term,
                    entries,
                ),
                _ => Some(self),
            },
            EventView::SolicitVote { last_index, last_term } => match msg.from {
                AddressView::Peer(from) => Some(self.follower_vote(from, last_index, last_term)),
                _ => Some(self),
            },
            EventView::ClientRequest { id, request } => Some(self.defer(msg.from, msg.event)),
            EventView::ClientResponse { id, response } => Some(self.respond(id, response)),
            _ => Some(self),
        }
    }

    /// Whether the message calls the node to a higher term: it comes from a
    /// peer, and its term is above the node's.
    pub open spec fn outranked_by(self, msg: MessageView) -> bool {
        msg.from is Peer && msg.term > self.term
    }

    /// A follower takes a message, or none where the message makes the node
    /// fail. A message that the node does not receive changes nothing. A
    /// message of a higher term from a peer makes the node a follower of
    /// that peer at that term first.
    pub open spec fn follower_step(self, msg: MessageView) -> Option<NodeView> {
        if !self.receives(msg) {
            Some(self)
        } else if self.outranked_by(msg) {
            self.follow(msg.term, msg.from->Peer_0).follower_handle(msg)
        } else {
            self.follower_handle(msg)
        }
    }

    /// A follower takes a tick of the clock, or none where its term cannot
    /// rise: it stands for election once it has waited longer than its
    /// election timeout.
    pub open spec fn follower_tick(self) -> Option<NodeView> {
        match self.role {
            RoleView::Follower { leader, voted_for, leader_seen_ticks, election_timeout } => {
                if leader_seen_ticks + 1 > election_timeout {
                    self.campaign()
                } else {
                    Some(
                        NodeView {
                            role: RoleView::Follower {
                                leader,
                                voted_for,
                                leader_seen_ticks: (leader_seen_ticks + 1) as u64,
                                election_timeout,
                            },
                            ..self
                        },
                    )
                }
            },
            _ => Some(self),
        }
    }
}

impl<R: Role, S: Store> RoleNode<R, S> {
    /// Makes the node a follower of `leader` at `term`. `vote` is the vote
    /// that the node has cast in its own term.
    pub(crate) fn become_follower(self, term: u64, leader: &String, vote: Option<String>) -> (r:
        Result<RoleNode<Follower, S>, Error>)
        requires
            self.wf(),
            term >= self.term,
            term == self.term ==> name_view(vote) == self@.log.voted_for,
        ensures
            match r {
                Ok(node) => {
                    &&& node.wf()
                    &&& node@ == self@.follow(term, leader@)
                    &&& node.reliable() == self.reliable()
                },
                Err(e) => fails(e, false, self.reliable()),
            },
    {
        let mut old_node = self;
        let was_leader = old_node.role.leads();
        let vote = if term > old_node.term {
            old_node.log.save_term(term, None)?;
            old_node.term = term;
            None
        } else {
            vote
        };
        if was_leader {
            instruct(&mut old_node.state_tx, Instruction::Abort);
        }
        let timeout = election_timeout(old_node.seed);
        old_node.seed = advance_seed(old_node.seed);
        proof {
            old_node.log.lemma_valid();
        }
        let mut node = old_node.become_role(
            Follower {
                leader: Some(leader.clone()),
                voted_for: vote,
                leader_seen_ticks: 0,
                election_timeout: timeout,
            },
        );
        node.abort_proxied();
        let ghost mid = node@;
        node.forward_queued(leader);
        proof {
            (NodeView { queued: Seq::empty(), ..mid }).lemma_forward_frame(leader@, mid.queued);
        }
        Ok(node)
    }

    /// Takes the answer to a request that the node handed on: the answer
    /// goes to the sender of the request.
    pub(crate) fn respond(&mut self, id: Vec<u8>, response: Result<Response, Error>)
        requires
            old(self).wf(),
        ensures
            final(self).wf(),
            final(self)@ == old(self)@.respond(id@, outcome_view(response)),
            final(self).log == old(self).log,
            final(self).role == old(self).role,
    {
        proof {
            lemma_without(self@.proxied, id@);
        }
        match self.proxied_reqs.remove(&id) {
            Some(to) => {
                emit(&mut self.node_tx, self.term, to, Event::ClientResponse { id, response });
            },
            None => {},
        }
    }
}

impl<S: Store> RoleNode<Follower, S> {
    /// Takes a client's request: hands it on to the leader, or keeps it
    /// until there is one.
    pub(crate) fn defer(&mut self, from: Address, event: Event)
        requires
            old(self).wf(),
            event@ is ClientRequest,
        ensures
            final(self).wf(),
            final(self)@ == old(self)@.defer(from@, event@),
            final(self).log == old(self).log,
    {
        proof {
            lemma_put(self@.proxied, event@->ClientRequest_id, from@);
        }
        match &self.role.leader {
            Some(leader) => {
                let id: Option<Vec<u8>> = match &event {
                    Event::ClientRequest { id, .. } => Some(copy_bytes(id)),
                    _ => None,
                };
                match id {
                    Some(id) => {
                        self.proxied_reqs.insert(id, from);
                        emit(&mut self.node_tx, self.term, Address::Peer(leader.clone()), event);
                    },
                    None => {},
                }
            },
            None => {
                self.queued_reqs.push((from, event));
                assert(self@.queued =~= old(self)@.queued.push((from@, event@)));
            },
        }
    }

    /// Takes `leader` for the leader where the follower has none.
    pub(crate) fn adopt(&mut self, leader: &String)
        requires
            old(self).wf(),
        ensures
            final(self).wf(),
            final(self)@ == old(self)@.adopt(leader@),
            final(self).log == old(self).log,
    {
        if self.role.leader.is_none() {
            self.role.leader = Some(leader.clone());
            instruct(&mut self.state_tx, Instruction::Abort);
            let ghost mid = self@;
            self.forward_queued(leader);
            proof {
                (NodeView { queued: Seq::empty(), ..mid }).lemma_forward_frame(leader@, mid.queued);
            }
        }
    }

    /// Whether the follower follows `name`.
    pub(crate) fn follows(&self, name: &String) -> (r: bool)
        ensures
            r == (self@.leader() == Some(name@)),
    {
        match &self.role.leader {
            Some(leader) => *leader == *name,
            None => false,
        }
    }

    /// Takes a heartbeat of the peer `from`.
    pub(crate) fn heartbeat(&mut self, from: String, commit_index: u64, commit_term: u64) -> (r:
        Result<(), Error>)
        requires
            old(self).wf(),
        ensures
            match r {
                Ok(()) => {
                    &&& final(self).wf()
                    &&& final(self)@ == old(self)@.follower_heartbeat(
                        from@,
                        commit_index,
                        commit_term,
                    )
                    &&& final(self).reliable() == old(self).reliable()
                },
                Err(e) => fails(e, false, old(self).reliable()),
            },
    {
        self.adopt(&from);
        if !self.follows(&from) {
            return Ok(());
        }
        self.role.leader_seen_ticks = 0;
        let has_committed = self.log.has(commit_index, commit_term)?;
        if has_committed && commit_index > self.log.commit_index() {
            self.commit_to(commit_index)?;
        }
        let last = self.log.last_index();
        emit(
            &mut self.node_tx,
            self.term,
            Address::Peer(from),
            Event::ConfirmLeader {
                commit_index: if commit_index <= last {
                    commit_index
                } else {
                    last
                },
                has_committed,
            },
        );
        Ok(())
    }

    /// Takes entries of the peer `from`.
    pub(crate) fn replicate(
        &mut self,
        from: String,
        base_index: u64,
        base_term: u64,
        entries: Vec<Entry>,
    ) -> (r: Result<(), Error>)
        requires
            old(self).wf(),
        ensures
            match r {
                Ok(()) => {
                    &&& final(self).wf()
                    &&& Some(final(self)@) == old(self)@.follower_replicate(
                        from@,
                        base_index,
                        base_term,
                        entry_views(entries@),
                    )
                    &&& final(self).reliable() == old(self).reliable()
                },
                Err(e) => fails(
                    e,
                    old(self)@.follower_replicate(
                        from@,
                        base_index,
                        base_term,
                        entry_views(entries@),
                    ) is None,
                    old(self).reliable(),
                ),
            },
    {
        self.adopt(&from);
        if !self.follows(&from) {
            return Ok(());
        }
        self.role.leader_seen_ticks = 0;
        if base_index > 0 && !self.log.has(base_index, base_term)? {
            emit(&mut self.node_tx, self.term, Address::Peer(from), Event::RejectEntries);
            return Ok(());
        }
        let last_index = self.log.splice(entries)?;
        proof {
            self.log.lemma_valid();
        }
        emit(
            &mut self.node_tx,
            self.term,
            Address::Peer(from),
            Event::AcceptEntries { last_index },
        );
        Ok(())
    }

    /// Answers the candidate `from`, which asks for a vote: the vote is
    /// saved before it is granted.
    pub(crate) fn vote(&mut self, from: String, last_index: u64, last_term: u64) -> (r: Result<
        (),
        Error,
    >)
        requires
            old(self).wf(),
        ensures
            match r {
                Ok(()) => {
                    &&& final(self).wf()
                    &&& final(self)@ == old(self)@.follower_vote(from@, last_index, last_term)
                    &&& final(self).reliable() == old(self).reliable()
                },
                Err(e) => fails(e, false, old(self).reliable()),
            },
    {
        let free = match &self.role.voted_for {
            Some(voted_for) => *voted_for == from,
            None => true,
        };
        let ours_term = self.log.last_term();
        let ours_index = self.log.last_index();
        let far_enough = last_term > ours_term || (last_term == ours_term && last_index
            >= ours_index);
        if free && far_enough {
            self.log.save_term(self.term, Some(from.as_str()))?;
            self.role.voted_for = Some(from.clone());
            proof {
                self.log.lemma_valid();
            }
            emit(&mut self.node_tx, self.term, Address::Peer(from), Event::GrantVote);
        }
        Ok(())
    }

    /// Processes a message.
    pub fn step(self, msg: Message) -> (r: Result<Node<S>, Error>)
        requires
            self.wf(),
        ensures
            match r {
                Ok(node) => {
                    &&& node.wf()
                    &&& Some(node@) == self@.follower_step(msg@)
                    &&& node.reliable() == self.reliable()
                },
                Err(e) => fails(e, self@.follower_step(msg@) is None, self.reliable()),
            },
    {
        if !self.validate(&msg) {
            return Ok(Node::Follower(self));
        }
        if msg.term > self.term {
            let sender: Option<String> = match &msg.from {
                Address::Peer(from) => Some(from.clone()),
                _ => None,
            };
            match sender {
                Some(from) => {
                    let node = self.become_follower(msg.term, &from, None)?;
                    return Ok(Node::Follower(node.handle(msg)?));
                },
                None => {},
            }
        }
        Ok(Node::Follower(self.handle(msg)?))
    }

    /// Processes a logical clock tick.
    pub fn tick(self) -> (r: Result<Node<S>, Error>)
        requires
            self.wf(),
        ensures
            match r {
                Ok(node) => {
                    &&& node.wf()
                    &&& Some(node@) == self@.follower_tick()
                    &&& node.reliable() == self.reliable()
                },
                Err(e) => fails(e, self@.follower_tick() is None, self.reliable()),
            },
    {
        let mut node = self;
        if node.role.leader_seen_ticks + 1 > node.role.election_timeout {
            Ok(Node::Candidate(node.become_candidate()?))
        } else {
            node.role.leader_seen_ticks = node.role.leader_seen_ticks + 1;
            Ok(Node::Follower(node))
        }
    }

    /// Takes a message of the node's own term.
    pub(crate) fn handle(self, msg: Message) -> (r: Result<RoleNode<Follower, S>, Error>)
        requires
            self.wf(),
        ensures
            match r {
                Ok(node) => {
                    &&& node.wf()
                    &&& Some(node@) == self@.follower_handle(msg@)
                    &&& node.reliable() == self.reliable()
                },
                Err(e) => fails(e, self@.follower_handle(msg@) is None, self.reliable()),
            },
    {
        let mut node = self;
        let Message { from, to, term, event } = msg;
        match event {
            Event::Heartbeat { commit_index, commit_term } => {
                if let Address::Peer(from) = from {
                    node.heartbeat(from, commit_index, commit_term)?;
                }
            },
            Event::ReplicateEntries { base_index, base_term, entries } => {
                if let Address::Peer(from) = from {
                    node.replicate(from, base_index, base_term, entries)?;
                }
            },
            Event::SolicitVote { last_index, last_term } => {
                if let Address::Peer(from) = from {
                    node.vote(from, last_index, last_term)?;
                }
            },
            Event::ClientRequest { id, request } => {
                node.defer(from, Event::ClientRequest { id, request });
            },
            Event::ClientResponse { id, response } => {
                node.respond(id, response);
            },
            _ => {},
        }
        Ok(node)
    }
}

} // verus!
