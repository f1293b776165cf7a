//! What a node receives and sends: messages between nodes and clients, and
//! instructions to the driver of the state machine.

use crate::assoc::AssocList;
use crate::error::{Error, ErrorView};
use crate::raft::codec::{entry_views, Entry, EntryView};
use vstd::prelude::*;

verus! {

/// Where a message comes from or goes to.
#[derive(Debug, PartialEq, Eq)]
pub enum Address {
    /// Every peer of the sender.
    Peers,
    /// The peer with the given name.
    Peer(String),
    /// The node itself.
    Local,
    /// A client of the node.
    Client,
}

/// The mathematical value of an [`Address`].
pub enum AddressView {
    Peers,
    Peer(Seq<char>),
    Local,
    Client,
}

impl View for Address {
    type V = AddressView;

    open spec fn view(&self) -> AddressView {
        match self {
            Address::Peers => AddressView::Peers,
            Address::Peer(id) => AddressView::Peer(id@),
            Address::Local => AddressView::Local,
            Address::Client => AddressView::Client,
        }
    }
}

impl Clone for Address {
    fn clone(&self) -> (r: Self)
        ensures
            r@ == self@,
    {
        match self {
            Address::Peers => Address::Peers,
            Address::Peer(id) => Address::Peer(id.clone()),
            Address::Local => Address::Local,
            Address::Client => Address::Client,
        }
    }
}

/// What a client asks of the cluster.
#[derive(Debug, PartialEq, Eq)]
pub enum Request {
    Query(Vec<u8>),
    Mutate(Vec<u8>),
    Status,
}

/// The mathematical value of a [`Request`].
pub enum RequestView {
    Query(Seq<u8>),
    Mutate(Seq<u8>),
    Status,
}

impl View for Request {
    type V = RequestView;

    open spec fn view(&self) -> RequestView {
        match self {
            Request::Query(c) => RequestView::Query(c@),
            Request::Mutate(c) => RequestView::Mutate(c@),
            Request::Status => RequestView::Status,
        }
    }
}

/// The state of a node as its leader reports it.
#[derive(Debug, PartialEq, Eq)]
pub struct Status {
    pub server: String,
    pub leader: String,
    pub term: u64,
    pub node_last_index: AssocList<String, u64>,
    pub commit_index: u64,
    pub apply_index: u64,
    pub storage: String,
    pub storage_size: u64,
}

/// The mathematical value of a [`Status`].
pub struct StatusView {
    pub server: Seq<char>,
    pub leader: Seq<char>,
    pub term: u64,
    pub node_last_index: Map<Seq<char>, u64>,
    pub commit_index: u64,
    pub apply_index: u64,
    pub storage: Seq<char>,
    pub storage_size: u64,
}

impl View for Status {
    type V = StatusView;

    open spec fn view(&self) -> StatusView {
        StatusView {
            server: self.server@,
            leader: self.leader@,
            term: self.term,
            node_last_index: self.node_last_index@,
            commit_index: self.commit_index,
            apply_index: self.apply_index,
            storage: self.storage@,
            storage_size: self.storage_size,
        }
    }
}

/// What the cluster answers a client.
#[derive(Debug, PartialEq, Eq)]
pub enum Response {
    State(Vec<u8>),
    Status(Status),
}

/// The mathematical value of a [`Response`].
pub enum ResponseView {
    State(Seq<u8>),
    Status(StatusView),
}

impl View for Response {
    type V = ResponseView;

    open spec fn view(&self) -> ResponseView {
        match self {
            Response::State(s) => ResponseView::State(s@),
            Response::Status(s) => ResponseView::Status(s@),
        }
    }
}

impl Response {
    /// The state that answers a mutation or a query. A status in its
    /// place is an `Internal` error.
    pub fn into_state(self) -> (r: Result<Vec<u8>, Error>)
        ensures
            match r {
                Ok(state) => self@ == ResponseView::State(state@),
                Err(e) => self@ is Status && e@ is Internal,
            },
    {
        match self {
            Response::State(state) => Ok(state),
            Response::Status(_) => Err(Error::internal("Unexpected Raft response: a status")),
        }
    }

    /// The status that answers a request for it. A state in its place is
    /// an `Internal` error.
    pub fn into_status(self) -> (r: Result<Status, Error>)
        ensures
            match r {
                Ok(status) => self@ == ResponseView::Status(status@),
                Err(e) => self@ is State && e@ is Internal,
            },
    {
        match self {
            Response::Status(status) => Ok(status),
            Response::State(_) => Err(Error::internal("Unexpected Raft response: a state")),
        }
    }
}

/// The value of the outcome of a request.
pub open spec fn outcome_view(r: Result<Response, Error>) -> Result<ResponseView, ErrorView> {
    match r {
        Ok(response) => Ok(response@),
        Err(e) => Err(e@),
    }
}

/// What a message is about.
#[derive(Debug, PartialEq, Eq)]
pub enum Event {
    /// A leader tells its peers that it leads, and how far it has committed.
    Heartbeat { commit_index: u64, commit_term: u64 },
    /// A follower confirms its leader's heartbeat, and says whether its log
    /// holds the leader's last committed entry.
    ConfirmLeader { commit_index: u64, has_committed: bool },
    /// A candidate asks for a vote.
    SolicitVote { last_index: u64, last_term: u64 },
    /// A follower grants its vote.
    GrantVote,
    /// A leader hands entries to a follower, to follow the entry at
    /// `base_index`, which has the term `base_term`.
    ReplicateEntries { base_index: u64, base_term: u64, entries: Vec<Entry> },
    /// A follower has taken the entries, and its log now ends at `last_index`.
    AcceptEntries { last_index: u64 },
    /// A follower has refused the entries: its log does not hold the base.
    RejectEntries,
    /// A client's request.
    ClientRequest { id: Vec<u8>, request: Request },
    /// The answer to a client's request.
    ClientResponse { id: Vec<u8>, response: Result<Response, Error> },
}

/// The mathematical value of an [`Event`].
pub enum EventView {
    Heartbeat { commit_index: u64, commit_term: u64 },
    ConfirmLeader { commit_index: u64, has_committed: bool },
    SolicitVote { last_index: u64, last_term: u64 },
    GrantVote,
    ReplicateEntries { base_index: u64, base_term: u64, entries: Seq<EntryView> },
    AcceptEntries { last_index: u64 },
    RejectEntries,
    ClientRequest { id: Seq<u8>, request: RequestView },
    ClientResponse { id: Seq<u8>, response: Result<ResponseView, ErrorView> },
}

impl View for Event {
    type V = EventView;

    open spec fn view(&self) -> EventView {
        match self {
            Event::Heartbeat { commit_index, commit_term } => EventView::Heartbeat {
                commit_index: *commit_index,
                commit_term: *commit_term,
            },
            Event::ConfirmLeader { commit_index, has_committed } => EventView::ConfirmLeader {
                commit_index: *commit_index,
                has_committed: *has_committed,
            },
            Event::SolicitVote { last_index, last_term } => EventView::SolicitVote {
                last_index: *last_index,
                last_term: *last_term,
            },
            Event::GrantVote => EventView::GrantVote,
            Event::ReplicateEntries { base_index, base_term, entries } => {
                EventView::ReplicateEntries {
                    base_index: *base_index,
                    base_term: *base_term,
                    entries: entry_views(entries@),
                }
            },
            Event::AcceptEntries { last_index } => EventView::AcceptEntries {
                last_index: *last_index,
            },
            Event::RejectEntries => EventView::RejectEntries,
            Event::ClientRequest { id, request } => EventView::ClientRequest {
                id: id@,
                request: request@,
            },
            Event::ClientResponse { id, response } => EventView::ClientResponse {
                id: id@,
                response: outcome_view(*response),
            },
        }
    }
}

impl EventView {
    /// Whether the event is a client's request or the answer to one.
    pub open spec fn of_client(self) -> bool {
        self is ClientRequest || self is ClientResponse
    }
}

/// A message between nodes, or between a node and a client.
#[derive(Debug, PartialEq, Eq)]
pub struct Message {
    /// The sender.
    pub from: Address,
    /// The recipient.
    pub to: Address,
    /// The sender's term.
    pub term: u64,
    /// What the message is about.
    pub event: Event,
}

/// The mathematical value of a [`Message`].
pub struct MessageView {
    pub from: AddressView,
    pub to: AddressView,
    pub term: u64,
    pub event: EventView,
}

impl View for Message {
    type V = MessageView;

    open spec fn view(&self) -> MessageView {
        MessageView { from: self.from@, to: self.to@, term: self.term, event: self.event@ }
    }
}

/// The values of the messages of a vector.
pub open spec fn message_views(messages: Seq<Message>) -> Seq<MessageView> {
    Seq::new(messages.len(), |i: int| messages[i]@)
}

/// What a node tells the driver of the state machine to do.
#[derive(Debug, PartialEq, Eq)]
pub enum Instruction {
    /// Drop what is pending: the node no longer leads, or follows another.
    Abort,
    /// Apply a committed entry to the state machine.
    Apply { entry: Entry },
    /// A client waits for the result of the entry at `index`.
    Notify { id: Vec<u8>, address: Address, index: u64 },
    /// Run a query once a quorum has confirmed the term and the index.
    Query { id: Vec<u8>, address: Address, command: Vec<u8>, term: u64, index: u64, quorum: u64 },
    /// Complete the status and hand it to the client.
    Status { id: Vec<u8>, address: Address, status: Box<Status> },
    /// A node confirms the leader at the term and the index.
    Vote { term: u64, index: u64, address: Address },
}

/// The mathematical value of an [`Instruction`].
pub enum InstructionView {
    Abort,
    Apply { entry: EntryView },
    Notify { id: Seq<u8>, address: AddressView, index: u64 },
    Query {
        id: Seq<u8>,
        address: AddressView,
        command: Seq<u8>,
        term: u64,
        index: u64,
        quorum: u64,
    },
    Status { id: Seq<u8>, address: AddressView, status: StatusView },
    Vote { term: u64, index: u64, address: AddressView },
}

impl View for Instruction {
    type V = InstructionView;

    open spec fn view(&self) -> InstructionView {
        match self {
            Instruction::Abort => InstructionView::Abort,
            Instruction::Apply { entry } => InstructionView::Apply { entry: entry@ },
            Instruction::Notify { id, address, index } => InstructionView::Notify {
                id: id@,
                address: address@,
                index: *index,
            },
            Instruction::Query { id, address, command, term, index, quorum } => {
                InstructionView::Query {
                    id: id@,
                    address: address@,
                    command: command@,
                    term: *term,
                    index: *index,
                    quorum: *quorum,
                }
            },
            Instruction::Status { id, address, status } => InstructionView::Status {
                id: id@,
                address: address@,
                status: status@,
            },
            Instruction::Vote { term, index, address } => InstructionView::Vote {
                term: *term,
                index: *index,
                address: address@,
            },
        }
    }
}

/// The values of the instructions of a vector.
pub open spec fn instruction_views(instructions: Seq<Instruction>) -> Seq<InstructionView> {
    Seq::new(instructions.len(), |i: int| instructions[i]@)
}

/// The values of the names of a vector.
pub open spec fn name_views(names: Seq<String>) -> Seq<Seq<char>> {
    Seq::new(names.len(), |i: int| names[i]@)
}

/// A copy of the names.
pub fn copy_names(names: &Vec<String>) -> (r: Vec<String>)
    ensures
        name_views(r@) == name_views(names@),
{
    let mut r: Vec<String> = Vec::new();
    let mut i: usize = 0;
    while i < names.len()
        invariant
            0 <= i <= names.len(),
            r@.len() == i,
            forall|j: int| 0 <= j < i ==> (#[trigger] r@[j])@ == names@[j]@,
        decreases names.len() - i,
    {
        r.push(names[i].clone());
        i += 1;
    }
    assert(name_views(r@) =~= name_views(names@));
    r
}

} // verus!
