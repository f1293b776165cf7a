//! A Raft node: what every role shares, and the rules that hold in each.
//!
//! A node takes one message or one tick of the clock at a time. What it wants
//! sent it leaves in its outbox, and what it wants the driver of the state
//! machine to do in its list of instructions; the host drains both.

pub mod candidate;
pub mod commitment;
pub mod election;
pub mod follower;
pub mod leader;
pub mod replication;
pub mod safety;

use crate::raft::node::candidate::Candidate;
use crate::raft::node::follower::Follower;
use crate::raft::node::leader::Leader;

use crate::assoc::{distinct_keys, has_key, put, to_map, without, AssocList};
use crate::error::{Error, ErrorView};
use crate::bytes::copy_bytes;
use crate::raft::codec::{entry_views, EntryView};
use crate::raft::log::{Log, LogView};
use crate::raft::message::{
    instruction_views, message_views, name_views, Address, AddressView, Event, EventView,
    Instruction, InstructionView, Message, MessageView,
};
use crate::storage::log::{Range, Store};
use vstd::prelude::*;
use vstd::string::StringExecFns;

verus! {

/// The least number of ticks without a leader after which a follower stands
/// for election.
pub const ELECTION_TIMEOUT_MIN: u64 = 8;

/// The greatest such number.
pub const ELECTION_TIMEOUT_MAX: u64 = 15;

/// The number of ticks between a leader's heartbeats.
pub const HEARTBEAT_INTERVAL: u64 = 3;

/// The seed that follows `seed` in a node's sequence of seeds.
pub open spec fn next_seed(seed: u64) -> u64 {
    (((seed % 2147483647) * 48271 + 12345) % 2147483647) as u64
}

/// The election timeout that a seed stands for: one of the eight from the
/// least to the greatest.
pub open spec fn timeout_of(seed: u64) -> u64 {
    (ELECTION_TIMEOUT_MIN + seed % 8) as u64
}

/// The seed that follows `seed`.
pub fn advance_seed(seed: u64) -> (r: u64)
    ensures
        r == next_seed(seed),
{
    ((seed % 2147483647) * 48271 + 12345) % 2147483647
}

/// The election timeout that `seed` stands for: between the least and the
/// greatest timeout.
pub fn election_timeout(seed: u64) -> (r: u64)
    ensures
        r == timeout_of(seed),
        ELECTION_TIMEOUT_MIN <= r <= ELECTION_TIMEOUT_MAX,
{
    ELECTION_TIMEOUT_MIN + seed % 8
}

/// What a role keeps for itself.
pub enum RoleView {
    /// A follower: whom it follows and whom it voted for in its term, the
    /// ticks since it heard from its leader, and how many it will wait.
    Follower {
        leader: Option<Seq<char>>,
        voted_for: Option<Seq<char>>,
        leader_seen_ticks: u64,
        election_timeout: u64,
    },
    /// A candidate: who voted for it, itself first, the ticks since its
    /// election began, and how many it will wait.
    Candidate { votes: Seq<Seq<char>>, election_ticks: u64, election_timeout: u64 },
    /// A leader: the ticks since its last heartbeat, and for each peer the
    /// next index to send and the last index known to be on it.
    Leader {
        heartbeat_ticks: u64,
        peer_next_index: Seq<(Seq<char>, u64)>,
        peer_last_index: Seq<(Seq<char>, u64)>,
    },
}

impl RoleView {
    /// Whether the role can be that of the node `id` whose log has saved the
    /// vote `vote`. A follower's vote is the saved one; a candidate has
    /// voted for itself, and holds its own vote first and no vote twice; the
    /// tick counts are within their bounds; and a leader names no peer
    /// twice.
    pub open spec fn fits(self, id: Seq<char>, vote: Option<Seq<char>>) -> bool {
        match self {
            RoleView::Follower { leader, voted_for, leader_seen_ticks, election_timeout } => {
                &&& leader_seen_ticks <= election_timeout
                &&& ELECTION_TIMEOUT_MIN <= election_timeout <= ELECTION_TIMEOUT_MAX
                &&& voted_for == vote
            },
            RoleView::Candidate { votes, election_ticks, election_timeout } => {
                &&& votes.no_duplicates()
                &&& votes.len() >= 1
                &&& votes[0] == id
                &&& election_ticks < election_timeout
                &&& ELECTION_TIMEOUT_MIN <= election_timeout <= ELECTION_TIMEOUT_MAX
                &&& vote == Some(id)
            },
            RoleView::Leader { heartbeat_ticks, peer_next_index, peer_last_index } => {
                &&& heartbeat_ticks < HEARTBEAT_INTERVAL
                &&& distinct_keys(peer_next_index)
                &&& distinct_keys(peer_last_index)
            },
        }
    }
}

/// The `Apply` instructions for the entries above index `from` up to index
/// `to`, in order.
pub open spec fn applies(entries: Seq<EntryView>, from: u64, to: u64) -> Seq<InstructionView> {
    Seq::new((to - from) as nat, |i: int| InstructionView::Apply { entry: entries[from + i] })
}

/// The mathematical value of a node.
pub struct NodeView {
    /// The node's name.
    pub id: Seq<char>,
    /// The names of the other nodes of the cluster.
    pub peers: Seq<Seq<char>>,
    /// The node's term.
    pub term: u64,
    /// The node's log.
    pub log: LogView,
    /// The node's role.
    pub role: RoleView,
    /// Client requests that wait for a leader, with their senders.
    pub queued: Seq<(AddressView, EventView)>,
    /// The requests handed on to the leader, each with its sender.
    pub proxied: Seq<(Seq<u8>, AddressView)>,
    /// The messages to send that the host has not taken yet.
    pub outbox: Seq<MessageView>,
    /// The instructions to the driver that the host has not taken yet.
    pub instructions: Seq<InstructionView>,
    /// The seed of the node's next election timeout.
    pub seed: u64,
    /// The name of the kind of store behind the log.
    pub storage: Seq<char>,
}

impl NodeView {
    /// What holds of a node in every state.
    pub open spec fn wf(self) -> bool {
        &&& self.log.valid()
        &&& self.log.term == self.term
        &&& self.peers.no_duplicates()
        &&& !self.peers.contains(self.id)
        &&& distinct_keys(self.proxied)
        &&& self.role.fits(self.id, self.log.voted_for)
    }

    /// The number of nodes that make a majority of the cluster.
    pub open spec fn quorum(self) -> nat {
        (self.peers.len() + 1) / 2 + 1
    }

    /// The node with one more message in its outbox, from itself and at its
    /// term.
    pub open spec fn send(self, to: AddressView, event: EventView) -> NodeView {
        NodeView {
            outbox: self.outbox.push(
                MessageView { from: AddressView::Local, to, term: self.term, event },
            ),
            ..self
        }
    }

    /// The node with one more instruction to the driver.
    pub open spec fn instruct(self, instruction: InstructionView) -> NodeView {
        NodeView { instructions: self.instructions.push(instruction), ..self }
    }

    /// Whether the node takes the message: it is addressed to the node, and
    /// it is not a message of a peer from an earlier term, unless it carries
    /// a client's request or the answer to one.
    pub open spec fn receives(self, msg: MessageView) -> bool {
        &&& msg.to is Local || msg.to == AddressView::Peer(self.id)
        &&& msg.term >= self.term || !(msg.from is Peer) || msg.event.of_client()
    }

    /// The node after it has told the sender of each request that it handed
    /// on that the request is aborted.
    pub open spec fn abort_proxied(self) -> NodeView {
        NodeView {
            outbox: self.outbox + Seq::new(
                self.proxied.len(),
                |i: int|
                    MessageView {
                        from: AddressView::Local,
                        to: self.proxied[i].1,
                        term: self.term,
                        event: EventView::ClientResponse {
                            id: self.proxied[i].0,
                            response: Err(ErrorView::Abort),
                        },
                    },
            ),
            proxied: Seq::empty(),
            ..self
        }
    }

    /// The node after it has handed a client's request on to `leader`, and
    /// noted the sender.
    pub open spec fn proxy(self, leader: Seq<char>, from: AddressView, event: EventView) -> NodeView {
        match event {
            EventView::ClientRequest { id, request } => (NodeView {
                proxied: put(self.proxied, id, from),
                ..self
            }).send(AddressView::Peer(leader), event),
            _ => self,
        }
    }

    /// The node after it has handed the requests of `queued` on to `leader`,
    /// first to last.
    pub open spec fn forward(
        self,
        leader: Seq<char>,
        queued: Seq<(AddressView, EventView)>,
    ) -> NodeView
        decreases queued.len(),
    {
        if queued.len() == 0 {
            self
        } else {
            self.forward(leader, queued.drop_last()).proxy(
                leader,
                queued.last().0,
                queued.last().1,
            )
        }
    }

    /// The node after it has handed its waiting requests on to `leader`.
    pub open spec fn forward_queued(self, leader: Seq<char>) -> NodeView {
        (NodeView { queued: Seq::empty(), ..self }).forward(leader, self.queued)
    }

    /// The node as a follower of `leader` at `term`, which is not below the
    /// node's own. A higher term clears the vote. A leader that steps down
    /// tells the driver to abort. The requests handed on are aborted, and
    /// those that wait go to the new leader.
    pub open spec fn follow(self, term: u64, leader: Seq<char>) -> NodeView {
        let vote = if term > self.term {
            None
        } else {
            self.log.voted_for
        };
        (NodeView {
            term,
            log: LogView { term, voted_for: vote, ..self.log },
            instructions: if self.role is Leader {
                self.instructions.push(InstructionView::Abort)
            } else {
                self.instructions
            },
            role: RoleView::Follower {
                leader: Some(leader),
                voted_for: vote,
                leader_seen_ticks: 0,
                election_timeout: timeout_of(self.seed),
            },
            seed: next_seed(self.seed),
            ..self
        }).abort_proxied().forward_queued(leader)
    }

    /// The node as a candidate in a new election, or none where the term
    /// cannot rise: the term is one higher, the node has voted for itself,
    /// and it asks every peer for a vote.
    pub open spec fn campaign(self) -> Option<NodeView> {
        if self.term == u64::MAX {
            None
        } else {
            let term = (self.term + 1) as u64;
            Some(
                (NodeView {
                    term,
                    log: LogView { term, voted_for: Some(self.id), ..self.log },
                    role: RoleView::Candidate {
                        votes: seq![self.id],
                        election_ticks: 0,
                        election_timeout: timeout_of(self.seed),
                    },
                    seed: next_seed(self.seed),
                    ..self
                }).send(
                    AddressView::Peers,
                    EventView::SolicitVote {
                        last_index: self.log.last_index(),
                        last_term: self.log.last_term(),
                    },
                ),
            )
        }
    }

    /// The node after it has committed its log up to `index`, and told the
    /// driver to apply each entry that this commits, in order.
    pub open spec fn commit_to(self, index: u64) -> NodeView {
        NodeView {
            log: LogView { commit_index: index, ..self.log },
            instructions: self.instructions + applies(
                self.log.entries,
                self.log.commit_index,
                index,
            ),
            ..self
        }
    }

    /// The node after the answer to a request that it handed on has come:
    /// the answer goes to the sender of the request, and the request is
    /// forgotten. An answer to a request that the node did not hand on is
    /// dropped.
    pub open spec fn respond(
        self,
        id: Seq<u8>,
        response: Result<crate::raft::message::ResponseView, ErrorView>,
    ) -> NodeView {
        if has_key(self.proxied, id) {
            (NodeView { proxied: without(self.proxied, id), ..self }).send(
                to_map(self.proxied)[id],
                EventView::ClientResponse { id, response },
            )
        } else {
            self
        }
    }
}

impl NodeView {
    /// Handing requests on changes only the outbox and the note of what was
    /// handed on.
    pub proof fn lemma_forward_frame(self, leader: Seq<char>, queued: Seq<(AddressView, EventView)>)
        ensures
            self.forward(leader, queued) == (NodeView {
                proxied: self.forward(leader, queued).proxied,
                outbox: self.forward(leader, queued).outbox,
                ..self
            }),
            self.outbox.len() <= self.forward(leader, queued).outbox.len(),
            self.forward(leader, queued).outbox.take(self.outbox.len() as int) == self.outbox,
        decreases queued.len(),
    {
        if queued.len() > 0 {
            self.lemma_forward_frame(leader, queued.drop_last());
            let mid = self.forward(leader, queued.drop_last());
            let end = self.forward(leader, queued);
            assert(end.outbox.take(self.outbox.len() as int) =~= mid.outbox.take(
                self.outbox.len() as int,
            ));
        } else {
            assert(self.outbox.take(self.outbox.len() as int) =~= self.outbox);
        }
    }
}

/// The values of the requests of a queue.
pub open spec fn queued_views(queued: Seq<(Address, Event)>) -> Seq<(AddressView, EventView)> {
    Seq::new(queued.len(), |i: int| (queued[i].0@, queued[i].1@))
}

/// What a role keeps for itself, as the node sees it.
pub trait Role: Sized {
    /// The value of the role.
    spec fn role_view(&self) -> RoleView;

    /// Whether the role is that of a leader.
    fn leads(&self) -> (r: bool)
        ensures
            r == (self.role_view() is Leader),
    ;

    /// Whether the role can be that of the node `id` whose log has saved the
    /// vote `vote`.
    fn fits(&self, id: &String, vote: &Option<String>) -> (r: bool)
        ensures
            r == self.role_view().fits(
                id@,
                match vote {
                    Some(v) => Some(v@),
                    None => None,
                },
            ),
    ;
}

/// Whether an operation that failed with `e` was entitled to: either the
/// rules call for a failure, and `e` is `Internal`, or the store is not
/// reliable, and `e` is `IO`.
pub open spec fn fails(e: Error, called_for: bool, reliable: bool) -> bool {
    ||| e@ is Internal && called_for
    ||| e@ is IO && !reliable
}

/// Puts a message from the node itself into the outbox.
pub fn emit(outbox: &mut Vec<Message>, term: u64, to: Address, event: Event)
    ensures
        message_views(final(outbox)@) == message_views(old(outbox)@).push(
            MessageView { from: AddressView::Local, to: to@, term, event: event@ },
        ),
{
    let message = Message { from: Address::Local, to, term, event };
    outbox.push(message);
    assert(message_views(outbox@) =~= message_views(old(outbox)@).push(message@));
}

/// Adds an instruction to the driver.
pub fn instruct(instructions: &mut Vec<Instruction>, instruction: Instruction)
    ensures
        instruction_views(final(instructions)@) == instruction_views(old(instructions)@).push(
            instruction@,
        ),
{
    let ghost v = instruction@;
    instructions.push(instruction);
    assert(instruction_views(instructions@) =~= instruction_views(old(instructions)@).push(v));
}

/// Whether `names` holds `name`.
pub fn holds_name(names: &Vec<String>, name: &String) -> (r: bool)
    ensures
        r == name_views(names@).contains(name@),
{
    let mut i: usize = 0;
    while i < names.len()
        invariant
            0 <= i <= names.len(),
            forall|j: int| 0 <= j < i ==> name_views(names@)[j] != name@,
        decreases names.len() - i,
    {
        if names[i] == *name {
            assert(name_views(names@)[i as int] == name@);
            return true;
        }
        i += 1;
    }
    false
}

/// Whether a node named `id` can have the peers `peers`: no peer is named
/// twice, and none has the node's own name.
pub fn cluster_ok(id: &String, peers: &Vec<String>) -> (r: bool)
    ensures
        r == (name_views(peers@).no_duplicates() && !name_views(peers@).contains(id@)),
{
    let ghost names = name_views(peers@);
    let mut i: usize = 0;
    while i < peers.len()
        invariant
            0 <= i <= peers.len(),
            names == name_views(peers@),
            forall|a: int, b: int| 0 <= a < b < i ==> names[a] != names[b],
            forall|a: int| 0 <= a < i ==> names[a] != id@,
        decreases peers.len() - i,
    {
        if peers[i] == *id {
            assert(names[i as int] == id@);
            return false;
        }
        let mut j: usize = 0;
        while j < i
            invariant
                0 <= j <= i < peers.len(),
                names == name_views(peers@),
                forall|a: int| 0 <= a < j ==> names[a] != names[i as int],
            decreases i - j,
        {
            if peers[j] == peers[i] {
                assert(names[j as int] == names[i as int]);
                return false;
            }
            j += 1;
        }
        i += 1;
    }
    true
}

/// A node in one role. `R` is what the role keeps for itself, `S` the store
/// behind the log.
pub struct RoleNode<R, S> {
    pub(crate) id: String,
    pub(crate) peers: Vec<String>,
    pub(crate) term: u64,
    pub(crate) log: Log<S>,
    pub(crate) node_tx: Vec<Message>,
    pub(crate) state_tx: Vec<Instruction>,
    pub(crate) queued_reqs: Vec<(Address, Event)>,
    pub(crate) proxied_reqs: AssocList<Vec<u8>, Address>,
    pub(crate) seed: u64,
    pub(crate) role: R,
}

impl<R: Role, S: Store> RoleNode<R, S> {
    /// The value of the node.
    pub open(crate) spec fn view(&self) -> NodeView {
        NodeView {
            id: self.id@,
            peers: name_views(self.peers@),
            term: self.term,
            log: self.log@,
            role: self.role.role_view(),
            queued: queued_views(self.queued_reqs@),
            proxied: self.proxied_reqs.pairs(),
            outbox: message_views(self.node_tx@),
            instructions: instruction_views(self.state_tx@),
            seed: self.seed,
            storage: S::kind(),
        }
    }

    /// The node's consistency.
    pub open(crate) spec fn wf(&self) -> bool {
        &&& self.log.wf()
        &&& self@.wf()
    }

    /// Whether the store behind the node's log never fails on its own
    /// account.
    pub open(crate) spec fn reliable(&self) -> bool {
        self.log.reliable()
    }

    /// The number of nodes that make a majority of the cluster.
    pub fn quorum(&self) -> (r: u64)
        ensures
            r == self@.quorum(),
    {
        let n: u64 = self.peers.len() as u64;
        n / 2 + n % 2 + 1
    }

    /// Whether the node takes the message.
    pub fn validate(&self, msg: &Message) -> (r: bool)
        ensures
            r == self@.receives(msg@),
    {
        let to_me = match &msg.to {
            Address::Local => true,
            Address::Peer(id) => *id == self.id,
            _ => false,
        };
        let of_peer = match &msg.from {
            Address::Peer(_) => true,
            _ => false,
        };
        let of_client = match &msg.event {
            Event::ClientRequest { .. } => true,
            Event::ClientResponse { .. } => true,
            _ => false,
        };
        to_me && (msg.term >= self.term || !of_peer || of_client)
    }

    /// The node's name.
    pub fn id(&self) -> (r: &String)
        ensures
            r@ == self@.id,
    {
        &self.id
    }

    /// The node's term.
    pub fn term(&self) -> (r: u64)
        ensures
            r == self@.term,
    {
        self.term
    }

    /// The node's log.
    pub fn log(&self) -> (r: &Log<S>)
        ensures
            r@ == self@.log,
            self.wf() ==> r.wf(),
    {
        &self.log
    }

    /// Hands out the messages that wait to be sent, first to last.
    pub fn take_messages(&mut self) -> (r: Vec<Message>)
        ensures
            message_views(r@) == old(self)@.outbox,
            final(self)@ == (NodeView { outbox: Seq::empty(), ..old(self)@ }),
            old(self).wf() ==> final(self).wf(),
            final(self).reliable() == old(self).reliable(),
    {
        let mut messages: Vec<Message> = Vec::new();
        core::mem::swap(&mut self.node_tx, &mut messages);
        assert(self@.outbox =~= Seq::empty());
        messages
    }

    /// Hands out the instructions that wait for the driver, first to last.
    pub fn take_instructions(&mut self) -> (r: Vec<Instruction>)
        ensures
            instruction_views(r@) == old(self)@.instructions,
            final(self)@ == (NodeView { instructions: Seq::empty(), ..old(self)@ }),
            old(self).wf() ==> final(self).wf(),
            final(self).reliable() == old(self).reliable(),
    {
        let mut instructions: Vec<Instruction> = Vec::new();
        core::mem::swap(&mut self.state_tx, &mut instructions);
        assert(self@.instructions =~= Seq::empty());
        instructions
    }

    /// The node with the same substrate in another role.
    pub(crate) fn become_role<T: Role>(self, role: T) -> (r: RoleNode<T, S>)
        ensures
            r@ == (NodeView { role: role.role_view(), ..self@ }),
            r.log == self.log,
            r.role == role,
    {
        RoleNode {
            id: self.id,
            peers: self.peers,
            term: self.term,
            log: self.log,
            node_tx: self.node_tx,
            state_tx: self.state_tx,
            queued_reqs: self.queued_reqs,
            proxied_reqs: self.proxied_reqs,
            seed: self.seed,
            role,
        }
    }

    /// Commits the log up to `index`, and tells the driver to apply each
    /// entry that this commits, in order.
    pub(crate) fn commit_to(&mut self, index: u64) -> (r: Result<(), Error>)
        requires
            old(self).wf(),
            old(self)@.log.commit_index < index <= old(self)@.log.entries.len(),
        ensures
            match r {
                Ok(()) => {
                    &&& final(self).wf()
                    &&& final(self)@ == old(self)@.commit_to(index)
                    &&& final(self).reliable() == old(self).reliable()
                    &&& final(self).role == old(self).role
                },
                Err(e) => fails(e, false, old(self).reliable()),
            },
    {
        let from: u64 = self.log.commit_index();
        self.log.commit(index)?;
        let entries = self.log.scan(Range::inclusive(from + 1, index))?;
        let ghost all = self@.log.entries;
        let ghost before = self@.instructions;
        proof {
            self.log.lemma_valid();
            assert(entry_views(entries@).len() == index - from);
        }
        let mut i: usize = 0;
        while i < entries.len()
            invariant
                0 <= i <= entries@.len(),
                entries@.len() == index - from,
                index <= all.len(),
                entry_views(entries@) == all.subrange(from as int, index as int),
                before == old(self)@.instructions,
                self@ == (NodeView {
                    instructions: before + applies(all, from, index).take(i as int),
                    ..old(self)@.commit_to(index)
                }),
                self.log.wf(),
                self.log@.entries == all,
                self.reliable() == old(self).reliable(),
                self.role == old(self).role,
            decreases entries@.len() - i,
        {
            let entry = entries[i].clone();
            proof {
                assert(entry@ == entry_views(entries@)[i as int]);
                assert(entry@ == all[from + i]);
            }
            instruct(&mut self.state_tx, Instruction::Apply { entry });
            i += 1;
            assert(self@.instructions =~= before + applies(all, from, index).take(i as int));
        }
        assert(applies(all, from, index).take(i as int) =~= applies(all, from, index));
        Ok(())
    }

    /// Tells the sender of each request that was handed on that the request
    /// is aborted, and forgets the requests.
    pub(crate) fn abort_proxied(&mut self)
        requires
            old(self).wf(),
        ensures
            final(self)@ == old(self)@.abort_proxied(),
            final(self).log == old(self).log,
            final(self).role == old(self).role,
    {
        let items = self.proxied_reqs.take();
        let ghost before = self@.outbox;
        let ghost want = old(self)@.abort_proxied().outbox;
        let mut i: usize = 0;
        proof {
            assert(want.take(before.len() as int) =~= before);
            assert(self@.proxied =~= Seq::empty());
        }
        while i < items.len()
            invariant
                0 <= i <= items@.len(),
                items@.len() == old(self)@.proxied.len(),
                forall|j: int|
                    0 <= j < items@.len() ==> (#[trigger] items@[j]).0@ == old(self)@.proxied[j].0
                        && items@[j].1@ == old(self)@.proxied[j].1,
                want == old(self)@.abort_proxied().outbox,
                self@ == (NodeView {
                    outbox: want.take(before.len() + i),
                    proxied: Seq::empty(),
                    ..old(self)@
                }),
                before == old(self)@.outbox,
                self.log == old(self).log,
                self.role == old(self).role,
            decreases items@.len() - i,
        {
            let id = copy_bytes(&items[i].0);
            let to = items[i].1.clone();
            emit(
                &mut self.node_tx,
                self.term,
                to,
                Event::ClientResponse { id, response: Err(Error::Abort) },
            );
            i += 1;
            assert(self@.outbox =~= want.take(before.len() + i));
        }
        assert(want.take(before.len() + i) =~= want);
    }

    /// Hands the waiting requests on to `leader`, and notes their senders.
    pub(crate) fn forward_queued(&mut self, leader: &String)
        requires
            old(self).wf(),
        ensures
            final(self)@ == old(self)@.forward_queued(leader@),
            final(self).log == old(self).log,
            final(self).role == old(self).role,
            distinct_keys(final(self)@.proxied),
    {
        let mut queued: Vec<(Address, Event)> = Vec::new();
        core::mem::swap(&mut self.queued_reqs, &mut queued);
        let ghost all = old(self)@.queued;
        let ghost start = NodeView { queued: Seq::empty(), ..old(self)@ };
        assert(self@ =~= start) by {
            assert(self@.queued =~= Seq::empty());
        }
        assert(all.take(0) =~= Seq::empty());
        let n: usize = queued.len();
        let mut i: usize = 0;
        while queued.len() > 0
            invariant
                0 <= i <= n,
                n == all.len(),
                queued@.len() == n - i,
                queued_views(queued@) == all.subrange(i as int, n as int),
                self@ == start.forward(leader@, all.take(i as int)),
                self.proxied_reqs.wf(),
                self.log == old(self).log,
                self.role == old(self).role,
            decreases queued@.len(),
        {
            let ghost prev = queued@;
            let (from, event) = queued.remove(0);
            proof {
                assert(queued_views(prev)[0] == all.subrange(i as int, n as int)[0]);
                assert((from@, event@) == all[i as int]);
                assert(all.take(i + 1).drop_last() =~= all.take(i as int));
                assert(all.take(i + 1).last() == all[i as int]);
                assert forall|j: int| 0 <= j < queued@.len() implies queued_views(queued@)[j]
                    == all.subrange(i + 1, n as int)[j] by {
                    assert(queued@[j] == prev[j + 1]);
                    assert(queued_views(prev)[j + 1] == all.subrange(i as int, n as int)[j + 1]);
                }
                assert(queued_views(queued@) =~= all.subrange(i + 1, n as int));
            }
            let id: Option<Vec<u8>> = match &event {
                Event::ClientRequest { id, .. } => Some(copy_bytes(id)),
                _ => None,
            };
            match id {
                Some(id) => {
                    self.proxied_reqs.insert(id, from);
                    emit(&mut self.node_tx, self.term, Address::Peer(leader.clone()), event);
                },
                None => {},
            }
            i += 1;
        }
        assert(all.take(i as int) =~= all);
    }
}

/// A node in whatever role it has.
pub enum Node<S> {
    Candidate(RoleNode<Candidate, S>),
    Follower(RoleNode<Follower, S>),
    Leader(RoleNode<Leader, S>),
}

impl NodeView {
    /// The node takes a message in its role, or none where the message
    /// makes the node fail.
    pub open spec fn step(self, msg: MessageView) -> Option<NodeView> {
        match self.role {
            RoleView::Follower { .. } => self.follower_step(msg),
            RoleView::Candidate { .. } => self.candidate_step(msg),
            RoleView::Leader { .. } => self.leader_step(msg),
        }
    }

    /// The node takes a tick of the clock in its role, or none where its
    /// term cannot rise.
    pub open spec fn tick(self) -> Option<NodeView> {
        match self.role {
            RoleView::Follower { .. } => self.follower_tick(),
            RoleView::Candidate { .. } => self.candidate_tick(),
            RoleView::Leader { .. } => Some(self.leader_tick()),
        }
    }
}

impl NodeView {
    /// The node as it starts on a log: at the term that the log has saved,
    /// with nothing queued and nothing to send. Alone in its cluster it
    /// leads; with peers it is a follower without a leader, with the vote
    /// that the log has saved.
    pub open spec fn boot(
        id: Seq<char>,
        peers: Seq<Seq<char>>,
        log: LogView,
        seed: u64,
        storage: Seq<char>,
    ) -> NodeView {
        NodeView {
            id,
            peers,
            term: log.term,
            log,
            role: if peers.len() == 0 {
                RoleView::Leader {
                    heartbeat_ticks: 0,
                    peer_next_index: Seq::empty(),
                    peer_last_index: Seq::empty(),
                }
            } else {
                RoleView::Follower {
                    leader: None,
                    voted_for: log.voted_for,
                    leader_seen_ticks: 0,
                    election_timeout: timeout_of(seed),
                }
            },
            queued: Seq::empty(),
            proxied: Seq::empty(),
            outbox: Seq::empty(),
            instructions: Seq::empty(),
            seed: next_seed(seed),
            storage,
        }
    }

    /// The node as it is assembled in the role `role` on a log.
    pub open spec fn assembled(
        id: Seq<char>,
        peers: Seq<Seq<char>>,
        log: LogView,
        role: RoleView,
        seed: u64,
        storage: Seq<char>,
    ) -> NodeView {
        NodeView {
            id,
            peers,
            term: log.term,
            log,
            role,
            queued: Seq::empty(),
            proxied: Seq::empty(),
            outbox: Seq::empty(),
            instructions: Seq::empty(),
            seed,
            storage,
        }
    }

    /// Whether the names can be those of a node and its peers: no peer is
    /// named twice, and none has the node's own name.
    pub open spec fn cluster_ok(id: Seq<char>, peers: Seq<Seq<char>>) -> bool {
        peers.no_duplicates() && !peers.contains(id)
    }
}

impl<R: Role, S: Store> RoleNode<R, S> {
    /// Assembles a node in the role `role` on a log, at the term that the
    /// log has saved.
    ///
    /// Fails with `Config` exactly where the names are not those of a
    /// cluster, or the role does not go with the log: a follower's vote is
    /// not the vote that the log has saved, a candidate is not the one that
    /// the log says the node voted for, or a tick count is out of range.
    pub fn assemble(id: &str, peers: Vec<String>, log: Log<S>, role: R, seed: u64) -> (r: Result<
        Self,
        Error,
    >)
        requires
            log.wf(),
        ensures
            match r {
                Ok(node) => {
                    &&& node.wf()
                    &&& node@ == NodeView::assembled(
                        id@,
                        name_views(peers@),
                        log@,
                        role.role_view(),
                        seed,
                        S::kind(),
                    )
                    &&& node.reliable() == log.reliable()
                },
                Err(e) => {
                    ||| e@ is Config && !NodeView::assembled(
                        id@,
                        name_views(peers@),
                        log@,
                        role.role_view(),
                        seed,
                        S::kind(),
                    ).wf()
                    ||| e@ is IO && !log.reliable()
                },
            },
    {
        let (term, vote) = log.load_term()?;
        RoleNode::build(id, peers, term, vote, log, role, seed)
    }

    /// Assembles a node in the role `role` on a log of which the election
    /// record is at hand.
    pub(crate) fn build(
        id: &str,
        peers: Vec<String>,
        term: u64,
        vote: Option<String>,
        log: Log<S>,
        role: R,
        seed: u64,
    ) -> (r: Result<Self, Error>)
        requires
            log.wf(),
            term == log@.term,
            log@.voted_for == match vote {
                Some(v) => Some(v@),
                None => None,
            },
        ensures
            match r {
                Ok(node) => {
                    &&& node.wf()
                    &&& node@ == NodeView::assembled(
                        id@,
                        name_views(peers@),
                        log@,
                        role.role_view(),
                        seed,
                        S::kind(),
                    )
                    &&& node.reliable() == log.reliable()
                },
                Err(e) => e@ is Config && !NodeView::assembled(
                    id@,
                    name_views(peers@),
                    log@,
                    role.role_view(),
                    seed,
                    S::kind(),
                ).wf(),
            },
    {
        let id = String::from_str(id);
        proof {
            log.lemma_valid();
        }
        let node = RoleNode {
            id,
            peers,
            term,
            log,
            node_tx: Vec::new(),
            state_tx: Vec::new(),
            queued_reqs: Vec::new(),
            proxied_reqs: AssocList::new(),
            seed,
            role,
        };
        proof {
            assert(node@.queued =~= Seq::empty());
            assert(node@.outbox =~= Seq::empty());
            assert(node@.instructions =~= Seq::empty());
        }
        if !cluster_ok(&node.id, &node.peers) {
            return Err(Error::config("A peer is named twice, or as the node itself"));
        }
        if !node.role.fits(&node.id, &vote) {
            return Err(Error::config("The role does not go with the log"));
        }
        Ok(node)
    }
}

impl<S: Store> Node<S> {
    /// Starts a node on a log, at the term that the log has saved. Alone in
    /// its cluster the node leads; with peers it is a follower without a
    /// leader.
    ///
    /// Fails with `Config` exactly where a peer is named twice or has the
    /// node's own name.
    pub fn new(id: &str, peers: Vec<String>, log: Log<S>, seed: u64) -> (r: Result<Self, Error>)
        requires
            log.wf(),
        ensures
            match r {
                Ok(node) => {
                    &&& node.wf()
                    &&& node@ == NodeView::boot(id@, name_views(peers@), log@, seed, S::kind())
                    &&& node.reliable() == log.reliable()
                },
                Err(e) => {
                    ||| e@ is Config && !NodeView::cluster_ok(id@, name_views(peers@))
                    ||| e@ is IO && !log.reliable()
                },
            },
    {
        let (term, vote) = log.load_term()?;
        let timeout = election_timeout(seed);
        let next = advance_seed(seed);
        proof {
            log.lemma_valid();
        }
        if peers.len() == 0 {
            let role = Leader {
                heartbeat_ticks: 0,
                peer_next_index: AssocList::new(),
                peer_last_index: AssocList::new(),
            };
            match RoleNode::build(id, peers, term, vote, log, role, next) {
                Ok(node) => Ok(Node::Leader(node)),
                Err(e) => Err(e),
            }
        } else {
            let role = Follower {
                leader: None,
                voted_for: vote.clone(),
                leader_seen_ticks: 0,
                election_timeout: timeout,
            };
            match RoleNode::build(id, peers, term, vote, log, role, next) {
                Ok(node) => Ok(Node::Follower(node)),
                Err(e) => Err(e),
            }
        }
    }

    /// The node's name.
    pub fn id(&self) -> (r: &String)
        ensures
            r@ == self@.id,
    {
        match self {
            Node::Candidate(n) => n.id(),
            Node::Follower(n) => n.id(),
            Node::Leader(n) => n.id(),
        }
    }

    /// The node's term.
    pub fn term(&self) -> (r: u64)
        ensures
            r == self@.term,
    {
        match self {
            Node::Candidate(n) => n.term(),
            Node::Follower(n) => n.term(),
            Node::Leader(n) => n.term(),
        }
    }

    /// The node's log.
    pub fn log(&self) -> (r: &Log<S>)
        ensures
            r@ == self@.log,
            self.wf() ==> r.wf(),
    {
        match self {
            Node::Candidate(n) => n.log(),
            Node::Follower(n) => n.log(),
            Node::Leader(n) => n.log(),
        }
    }

    /// Whether the node leads.
    pub fn is_leader(&self) -> (r: bool)
        ensures
            r == (self@.role is Leader),
    {
        match self {
            Node::Leader(_) => true,
            _ => false,
        }
    }

    /// Whether the node follows.
    pub fn is_follower(&self) -> (r: bool)
        ensures
            r == (self@.role is Follower),
    {
        match self {
            Node::Follower(_) => true,
            _ => false,
        }
    }

    /// Whether the node stands for election.
    pub fn is_candidate(&self) -> (r: bool)
        ensures
            r == (self@.role is Candidate),
    {
        match self {
            Node::Candidate(_) => true,
            _ => false,
        }
    }

    /// The leader that the node follows, if it follows one.
    pub fn leader(&self) -> (r: Option<String>)
        ensures
            crate::raft::node::follower::name_view(r) == self@.leader(),
    {
        match self {
            Node::Follower(n) => n.role.leader.clone(),
            _ => None,
        }
    }

    /// Hands out the messages that wait to be sent, first to last.
    pub fn take_messages(&mut self) -> (r: Vec<Message>)
        ensures
            message_views(r@) == old(self)@.outbox,
            final(self)@ == (NodeView { outbox: Seq::empty(), ..old(self)@ }),
            old(self).wf() ==> final(self).wf(),
            final(self).reliable() == old(self).reliable(),
    {
        match self {
            Node::Candidate(n) => n.take_messages(),
            Node::Follower(n) => n.take_messages(),
            Node::Leader(n) => n.take_messages(),
        }
    }

    /// Hands out the instructions that wait for the driver, first to last.
    pub fn take_instructions(&mut self) -> (r: Vec<Instruction>)
        ensures
            instruction_views(r@) == old(self)@.instructions,
            final(self)@ == (NodeView { instructions: Seq::empty(), ..old(self)@ }),
            old(self).wf() ==> final(self).wf(),
            final(self).reliable() == old(self).reliable(),
    {
        match self {
            Node::Candidate(n) => n.take_instructions(),
            Node::Follower(n) => n.take_instructions(),
            Node::Leader(n) => n.take_instructions(),
        }
    }

    /// The value of the node.
    pub open(crate) spec fn view(&self) -> NodeView {
        match self {
            Node::Candidate(n) => n@,
            Node::Follower(n) => n@,
            Node::Leader(n) => n@,
        }
    }

    /// The node's consistency.
    pub open(crate) spec fn wf(&self) -> bool {
        match self {
            Node::Candidate(n) => n.wf(),
            Node::Follower(n) => n.wf(),
            Node::Leader(n) => n.wf(),
        }
    }

    /// Whether the store behind the node's log never fails on its own
    /// account.
    pub open(crate) spec fn reliable(&self) -> bool {
        match self {
            Node::Candidate(n) => n.reliable(),
            Node::Follower(n) => n.reliable(),
            Node::Leader(n) => n.reliable(),
        }
    }

    /// Processes a message.
    pub fn step(self, msg: Message) -> (r: Result<Node<S>, Error>)
        requires
            self.wf(),
        ensures
            match r {
                Ok(node) => {
                    &&& node.wf()
                    &&& Some(node@) == self@.step(msg@)
                    &&& node.reliable() == self.reliable()
                },
                Err(e) => fails(e, self@.step(msg@) is None, self.reliable()),
            },
    {
        match self {
            Node::Candidate(n) => n.step(msg),
            Node::Follower(n) => n.step(msg),
            Node::Leader(n) => n.step(msg),
        }
    }

    /// Processes a logical clock tick.
    pub fn tick(self) -> (r: Result<Node<S>, Error>)
        requires
            self.wf(),
        ensures
            match r {
                Ok(node) => {
                    &&& node.wf()
                    &&& Some(node@) == self@.tick()
                    &&& node.reliable() == self.reliable()
                },
                Err(e) => fails(e, self@.tick() is None, self.reliable()),
            },
    {
        match self {
            Node::Candidate(n) => n.tick(),
            Node::Follower(n) => n.tick(),
            Node::Leader(n) => n.tick(),
        }
    }
}

} // verus!
