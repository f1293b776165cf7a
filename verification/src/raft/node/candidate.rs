//! The candidate: it asks its peers for their votes, and leads once a
//! quorum has voted for it.

use crate::error::Error;
use crate::raft::message::{
    name_views, Address, AddressView, Event, EventView, Message, MessageView,
};
use crate::raft::node::follower::Follower;
use crate::raft::node::leader::{index_all, Leader};
use crate::raft::node::{
    advance_seed, election_timeout, emit, fails, holds_name, queued_views, Node, NodeView, Role,
    RoleNode, RoleView, ELECTION_TIMEOUT_MAX, ELECTION_TIMEOUT_MIN,
};
use crate::raft::message::copy_names;
use crate::storage::log::Store;
use vstd::prelude::*;

verus! {

/// What a candidate keeps: who voted for it, itself first, the ticks since
/// its election began, and how many it will wait before it begins another.
#[derive(Debug)]
pub struct Candidate {
    pub(crate) votes: Vec<String>,
    pub(crate) election_ticks: u64,
    pub(crate) election_timeout: u64,
}

impl Role for Candidate {
    open(crate) spec fn role_view(&self) -> RoleView {
        RoleView::Candidate {
            votes: name_views(self.votes@),
            election_ticks: self.election_ticks,
            election_timeout: self.election_timeout,
        }
    }

    fn leads(&self) -> (r: bool) {
        false
    }

    fn fits(&self, id: &String, vote: &Option<String>) -> (r: bool) {
        let voted_self = match vote {
            Some(v) => *v == *id,
            None => false,
        };
        if self.votes.len() == 0 || !voted_self {
            return false;
        }
        assert(name_views(self.votes@)[0] == self.votes@[0]@);
        if !(self.votes[0] == *id) {
            return false;
        }
        if !(self.election_ticks < self.election_timeout && ELECTION_TIMEOUT_MIN
            <= self.election_timeout && self.election_timeout <= ELECTION_TIMEOUT_MAX) {
            return false;
        }
        let ghost names = name_views(self.votes@);
        let mut i: usize = 0;
        while i < self.votes.len()
            invariant
                0 <= i <= self.votes.len(),
                names == name_views(self.votes@),
                forall|a: int, b: int| 0 <= a < b < i ==> names[a] != names[b],
            decreases self.votes.len() - i,
        {
            let mut j: usize = 0;
            while j < i
                invariant
                    0 <= j <= i < self.votes.len(),
                    names == name_views(self.votes@),
                    forall|a: int| 0 <= a < j ==> names[a] != names[i as int],
                decreases i - j,
            {
                if self.votes[j] == self.votes[i] {
                    assert(names[j as int] == names[i as int]);
                    return false;
                }
                j += 1;
            }
            i += 1;
        }
        true
    }
}

impl Candidate {
    /// A candidate named `id` that has its own vote, and that waits
    /// `election_timeout` ticks for the others.
    pub fn new(id: &String, election_timeout: u64) -> (r: Self)
        requires
            ELECTION_TIMEOUT_MIN <= election_timeout <= ELECTION_TIMEOUT_MAX,
        ensures
            r.role_view() == (RoleView::Candidate {
                votes: seq![id@],
                election_ticks: 0,
                election_timeout,
            }),
    {
        let mut votes: Vec<String> = Vec::new();
        votes.push(id.clone());
        let r = Candidate { votes, election_ticks: 0, election_timeout };
        assert(name_views(r.votes@) =~= seq![id@]);
        r
    }
}

impl NodeView {
    /// The leader replays the requests of `queued`, first to last. None
    /// where one of them fails.
    pub open spec fn replay(self, queued: Seq<(AddressView, EventView)>) -> Option<NodeView>
        decreases queued.len(),
    {
        if queued.len() == 0 {
            Some(self)
        } else {
            match self.replay(queued.drop_last()) {
                Some(n) => n.leader_request(queued.last().0, queued.last().1),
                None => None,
            }
        }
    }

    /// The node as leader of its term, or none where its log is full or a
    /// waiting request fails: it asserts its leadership with a heartbeat,
    /// aborts the requests that it had handed on, and serves those that
    /// waited.
    pub open spec fn lead(self) -> Option<NodeView> {
        if self.log.entries.len() >= u64::MAX {
            None
        } else {
            (NodeView {
                role: RoleView::Leader {
                    heartbeat_ticks: 0,
                    peer_next_index: index_all(self.peers, (self.log.entries.len() + 1) as u64),
                    peer_last_index: index_all(self.peers, 0),
                },
                queued: Seq::empty(),
                ..self
            }).send(
                AddressView::Peers,
                EventView::Heartbeat {
                    commit_index: self.log.commit_index,
                    commit_term: self.log.commit_term(),
                },
            ).abort_proxied().replay(self.queued)
        }
    }

    /// A candidate is granted the vote of the peer `from`: with a quorum of
    /// votes it leads.
    pub open spec fn candidate_vote(self, from: Seq<char>) -> Option<NodeView> {
        match self.role {
            RoleView::Candidate { votes, election_ticks, election_timeout } => {
                let votes = if votes.contains(from) {
                    votes
                } else {
                    votes.push(from)
                };
                let n = NodeView {
                    role: RoleView::Candidate { votes, election_ticks, election_timeout },
                    ..self
                };
                if votes.len() >= self.quorum() {
                    n.lead()
                } else {
                    Some(n)
                }
            },
            _ => Some(self),
        }
    }

    /// A candidate takes a message, or none where the message makes the
    /// node fail. A message that the node does not receive changes nothing.
    /// A message of a higher term from a peer, and a heartbeat or entries of
    /// a leader of the candidate's own term, make the candidate a follower
    /// of the sender, which then takes the message.
    pub open spec fn candidate_step(self, msg: MessageView) -> Option<NodeView> {
        if !self.receives(msg) {
            Some(self)
        } else if self.outranked_by(msg) {
            self.follow(msg.term, msg.from->Peer_0).follower_handle(msg)
        } else {
            match msg.event {
                EventView::GrantVote => match msg.from {
                    AddressView::Peer(from) => self.candidate_vote(from),
                    _ => Some(self),
                },
                EventView::Heartbeat { .. } | EventView::ReplicateEntries { .. } => match msg.from {
                    AddressView::Peer(from) => self.follow(self.term, from).follower_handle(msg),
                    _ => Some(self),
                },
                EventView::ClientRequest { id, request } => Some(self.defer(msg.from, msg.event)),
                EventView::ClientResponse { id, response } => Some(self.respond(id, response)),
                _ => Some(self),
            }
        }
    }

    /// A candidate takes a tick of the clock, or none where its term cannot
    /// rise: it begins a new election once it has waited for its election
    /// timeout.
    pub open spec fn candidate_tick(self) -> Option<NodeView> {
        match self.role {
            RoleView::Candidate { votes, election_ticks, election_timeout } => {
                if election_ticks + 1 >= election_timeout {
                    self.campaign()
                } else {
                    Some(
                        NodeView {
                            role: RoleView::Candidate {
                                votes,
                                election_ticks: (election_ticks + 1) as u64,
                                election_timeout,
                            },
                            ..self
                        },
                    )
                }
            },
            _ => Some(self),
        }
    }

    /// Replaying requests leaves the node a consistent leader.
    pub proof fn lemma_replay_prefix_fails(self, queued: Seq<(AddressView, EventView)>, k: int)
        requires
            0 <= k <= queued.len(),
            self.replay(queued.take(k)) is None,
        ensures
            self.replay(queued) is None,
        decreases queued.len() - k,
    {
        if k < queued.len() {
            assert(queued.take(k + 1).drop_last() =~= queued.take(k));
            self.lemma_replay_prefix_fails(queued, k + 1);
        } else {
            assert(queued.take(k) =~= queued);
        }
    }
}

impl<R: Role, S: Store> RoleNode<R, S> {
    /// Makes the node a candidate in a new election.
    pub(crate) fn become_candidate(self) -> (r: Result<RoleNode<Candidate, S>, Error>)
        requires
            self.wf(),
        ensures
            match r {
                Ok(node) => {
                    &&& node.wf()
                    &&& Some(node@) == self@.campaign()
                    &&& node.reliable() == self.reliable()
                },
                Err(e) => fails(e, self@.campaign() is None, self.reliable()),
            },
    {
        let mut node = self;
        if node.term == u64::MAX {
            return Err(Error::internal("Term cannot rise"));
        }
        let term: u64 = node.term + 1;
        node.log.save_term(term, Some(node.id.as_str()))?;
        node.term = term;
        let timeout = election_timeout(node.seed);
        node.seed = advance_seed(node.seed);
        let last_index = node.log.last_index();
        let last_term = node.log.last_term();
        proof {
            node.log.lemma_valid();
        }
        let role = Candidate::new(&node.id, timeout);
        let mut node = node.become_role(role);
        emit(
            &mut node.node_tx,
            node.term,
            Address::Peers,
            Event::SolicitVote { last_index, last_term },
        );
        Ok(node)
    }
}

impl<S: Store> RoleNode<Candidate, S> {
    /// Makes the candidate the leader of its term.
    pub(crate) fn become_leader(self) -> (r: Result<RoleNode<Leader, S>, Error>)
        requires
            self.wf(),
        ensures
            match r {
                Ok(node) => {
                    &&& node.wf()
                    &&& Some(node@) == self@.lead()
                    &&& node.reliable() == self.reliable()
                },
                Err(e) => fails(e, self@.lead() is None, self.reliable()),
            },
    {
        let mut old_node = self;
        let last_index = old_node.log.last_index();
        if last_index == u64::MAX {
            return Err(Error::internal("Cannot lead with a full log"));
        }
        let mut queued: Vec<(Address, Event)> = Vec::new();
        core::mem::swap(&mut old_node.queued_reqs, &mut queued);
        let ghost all = self@.queued;
        let peers = copy_names(&old_node.peers);
        let role = Leader::new(peers, last_index);
        proof {
            old_node.log.lemma_valid();
            assert(old_node@.queued =~= Seq::empty());
        }
        let mut node = old_node.become_role(role);
        emit(
            &mut node.node_tx,
            node.term,
            Address::Peers,
            Event::Heartbeat {
                commit_index: node.log.commit_index(),
                commit_term: node.log.commit_term(),
            },
        );
        node.abort_proxied();
        let ghost start = node@;
        let n: usize = queued.len();
        let mut i: usize = 0;
        assert(all.take(0) =~= Seq::empty());
        while queued.len() > 0
            invariant
                0 <= i <= n,
                n == all.len(),
                queued@.len() == n - i,
                queued_views(queued@) == all.subrange(i as int, n as int),
                node.wf(),
                Some(node@) == start.replay(all.take(i as int)),
                node.reliable() == self.reliable(),
                self@.lead() == start.replay(all),
            decreases queued@.len(),
        {
            let ghost prev = queued@;
            let (from, event) = queued.remove(0);
            proof {
                assert(queued_views(prev)[0] == all.subrange(i as int, n as int)[0]);
                assert((from@, event@) == all[i as int]);
                assert(all.take(i + 1).drop_last() =~= all.take(i as int));
                assert(all.take(i + 1).last() == all[i as int]);
                assert forall|j: int| 0 <= j < queued@.len() implies queued_views(queued@)[j]
                    == all.subrange(i + 1, n as int)[j] by {
                    assert(queued@[j] == prev[j + 1]);
                    assert(queued_views(prev)[j + 1] == all.subrange(i as int, n as int)[j + 1]);
                }
                assert(queued_views(queued@) =~= all.subrange(i + 1, n as int));
            }
            match event {
                Event::ClientRequest { id, request } => {
                    match node.request(from, id, request) {
                        Ok(()) => {},
                        Err(e) => {
                            proof {
                                if start.replay(all.take(i + 1)) is None {
                                    start.lemma_replay_prefix_fails(all, i + 1);
                                }
                            }
                            return Err(e);
                        },
                    }
                },
                _ => {},
            }
            i += 1;
        }
        proof {
            assert(all.take(i as int) =~= all);
        }
        Ok(node)
    }

    /// Takes the vote of the peer `from`.
    pub(crate) fn vote(self, from: String) -> (r: Result<Node<S>, Error>)
        requires
            self.wf(),
        ensures
            match r {
                Ok(node) => {
                    &&& node.wf()
                    &&& Some(node@) == self@.candidate_vote(from@)
                    &&& node.reliable() == self.reliable()
                },
                Err(e) => fails(e, self@.candidate_vote(from@) is None, self.reliable()),
            },
    {
        let mut node = self;
        if !holds_name(&node.role.votes, &from) {
            let ghost before = name_views(node.role.votes@);
            node.role.votes.push(from);
            proof {
                assert(name_views(node.role.votes@) =~= before.push(from@));
            }
        }
        if node.role.votes.len() as u64 >= node.quorum() {
            Ok(Node::Leader(node.become_leader()?))
        } else {
            Ok(Node::Candidate(node))
        }
    }

    /// Processes a message.
    pub fn step(self, msg: Message) -> (r: Result<Node<S>, Error>)
        requires
            self.wf(),
        ensures
            match r {
                Ok(node) => {
                    &&& node.wf()
                    &&& Some(node@) == self@.candidate_step(msg@)
                    &&& node.reliable() == self.reliable()
                },
                Err(e) => fails(e, self@.candidate_step(msg@) is None, self.reliable()),
            },
    {
        if !self.validate(&msg) {
            return Ok(Node::Candidate(self));
        }
        let sender: Option<String> = match &msg.from {
            Address::Peer(from) => Some(from.clone()),
            _ => None,
        };
        let leads = match &msg.event {
            Event::Heartbeat { .. } => true,
            Event::ReplicateEntries { .. } => true,
            _ => false,
        };
        match sender {
            Some(from) => {
                if msg.term > self.term {
                    let node = self.become_follower(msg.term, &from, None)?;
                    return Ok(Node::Follower(node.handle(msg)?));
                }
                if leads {
                    let vote = Some(self.id.clone());
                    let term: u64 = self.term;
                    let node = self.become_follower(term, &from, vote)?;
                    return Ok(Node::Follower(node.handle(msg)?));
                }
                if let Event::GrantVote = &msg.event {
                    return self.vote(from);
                }
            },
            None => {},
        }
        let mut node = self;
        let Message { from, to, term, event } = msg;
        match event {
            Event::ClientRequest { id, request } => {
                node.queued_reqs.push((from, Event::ClientRequest { id, request }));
                assert(node@.queued =~= self@.queued.push((msg@.from, msg@.event)));
            },
            Event::ClientResponse { id, response } => {
                node.respond(id, response);
            },
            _ => {},
        }
        Ok(Node::Candidate(node))
    }

    /// Processes a logical clock tick.
    pub fn tick(self) -> (r: Result<Node<S>, Error>)
        requires
            self.wf(),
        ensures
            match r {
                Ok(node) => {
                    &&& node.wf()
                    &&& Some(node@) == self@.candidate_tick()
                    &&& node.reliable() == self.reliable()
                },
                Err(e) => fails(e, self@.candidate_tick() is None, self.reliable()),
            },
    {
        let mut node = self;
        if node.role.election_ticks + 1 >= node.role.election_timeout {
            Ok(Node::Candidate(node.become_candidate()?))
        } else {
            node.role.election_ticks = node.role.election_ticks + 1;
            Ok(Node::Candidate(node))
        }
    }
}

} // verus!
