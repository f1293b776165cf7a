//! The leader: it serves the clients' requests, replicates its log to its
//! peers, and commits what a quorum holds.

use crate::assoc::{
    distinct_keys, has_key, lemma_put, put, to_map, values_of, AssocList,
};
use crate::error::Error;
use crate::raft::message::{
    name_views, Address, AddressView, Event, EventView, Instruction, InstructionView, Message,
    MessageView, Request, RequestView, Response, ResponseView, Status, StatusView,
};
use crate::raft::node::follower::Follower;
use crate::raft::node::{
    emit, fails, instruct, Node, NodeView, Role, RoleNode, RoleView, HEARTBEAT_INTERVAL,
};
use crate::storage::log::{Bound, Range, Store};
use vstd::prelude::*;

verus! {

/// The pairs that give each of `peers` the value `value`, in the order in
/// which the peers come first.
pub open spec fn index_all(peers: Seq<Seq<char>>, value: u64) -> Seq<(Seq<char>, u64)>
    decreases peers.len(),
{
    if peers.len() == 0 {
        Seq::empty()
    } else {
        put(index_all(peers.drop_last(), value), peers.last(), value)
    }
}

/// No peer stands twice in `index_all`.
pub proof fn lemma_index_all(peers: Seq<Seq<char>>, value: u64)
    ensures
        distinct_keys(index_all(peers, value)),
    decreases peers.len(),
{
    if peers.len() > 0 {
        lemma_index_all(peers.drop_last(), value);
        lemma_put(index_all(peers.drop_last(), value), peers.last(), value);
    }
}

/// How many of `values` are at least `v`.
pub open spec fn count_ge(values: Seq<u64>, v: u64) -> nat
    decreases values.len(),
{
    if values.len() == 0 {
        0
    } else {
        count_ge(values.drop_last(), v) + if values.last() >= v {
            1nat
        } else {
            0nat
        }
    }
}

/// Whether `r` is the greatest of `values` that a quorum of them reaches, or
/// 0 where there is none.
pub open spec fn is_quorum_index(values: Seq<u64>, quorum: nat, r: u64) -> bool {
    &&& r == 0 || (values.contains(r) && count_ge(values, r) >= quorum)
    &&& forall|i: int|
        0 <= i < values.len() && count_ge(values, #[trigger] values[i]) >= quorum ==> values[i]
            <= r
}

/// The greatest of `values` that at least `quorum` of them reach, or 0 where
/// there is none: the highest index that a quorum of logs holds.
pub open spec fn quorum_index_of(values: Seq<u64>, quorum: nat) -> u64 {
    choose|r: u64| is_quorum_index(values, quorum, r)
}

/// Only one value is the quorum index.
pub proof fn lemma_quorum_index(values: Seq<u64>, quorum: nat, r: u64)
    requires
        is_quorum_index(values, quorum, r),
    ensures
        quorum_index_of(values, quorum) == r,
{
    let c = quorum_index_of(values, quorum);
    assert(is_quorum_index(values, quorum, c));
    if c != 0 {
        let i = choose|i: int| 0 <= i < values.len() && values[i] == c;
        assert(values[i] <= r);
    }
    if r != 0 {
        let i = choose|i: int| 0 <= i < values.len() && values[i] == r;
        assert(values[i] <= c);
    }
}

/// Some value is the quorum index: the search from `i` on finds it.
pub proof fn lemma_quorum_scan(values: Seq<u64>, quorum: nat, i: int, best: u64)
    requires
        0 <= i <= values.len(),
        best == 0 || (values.contains(best) && count_ge(values, best) >= quorum),
        forall|j: int|
            0 <= j < i && count_ge(values, #[trigger] values[j]) >= quorum ==> values[j] <= best,
    ensures
        is_quorum_index(values, quorum, quorum_index_of(values, quorum)),
    decreases values.len() - i,
{
    if i == values.len() {
        assert(is_quorum_index(values, quorum, best));
    } else {
        let v = values[i];
        if v > best && count_ge(values, v) >= quorum {
            lemma_quorum_scan(values, quorum, i + 1, v);
        } else {
            lemma_quorum_scan(values, quorum, i + 1, best);
        }
    }
}

/// The least of `values` that reaches `v`, where one does.
pub proof fn lemma_least_reaching(values: Seq<u64>, v: u64) -> (m: u64)
    requires
        count_ge(values, v) >= 1,
    ensures
        values.contains(m),
        m >= v,
        forall|i: int| 0 <= i < values.len() && #[trigger] values[i] >= v ==> values[i] >= m,
    decreases values.len(),
{
    let front = values.drop_last();
    let last = values.last();
    if count_ge(front, v) >= 1 {
        let f = lemma_least_reaching(front, v);
        let i = choose|i: int| 0 <= i < front.len() && front[i] == f;
        assert(values[i] == f);
        let m = if last >= v && last < f {
            last
        } else {
            f
        };
        assert(values[values.len() - 1] == last);
        assert forall|j: int| 0 <= j < values.len() && #[trigger] values[j] >= v implies values[j]
            >= m by {
            if j < front.len() {
                assert(front[j] == values[j]);
            }
        }
        m
    } else {
        assert(values[values.len() - 1] == last);
        assert forall|j: int| 0 <= j < values.len() && #[trigger] values[j] >= v implies values[j]
            >= last by {
            if j < front.len() {
                assert(front[j] == values[j]);
                lemma_count_ge_member(front, v, j);
            }
        }
        last
    }
}

/// A value that reaches `v` is counted among those that do.
pub proof fn lemma_count_ge_member(values: Seq<u64>, v: u64, j: int)
    requires
        0 <= j < values.len(),
        values[j] >= v,
    ensures
        count_ge(values, v) >= 1,
    decreases values.len(),
{
    if j < values.len() - 1 {
        assert(values.drop_last()[j] == values[j]);
        lemma_count_ge_member(values.drop_last(), v, j);
    }
}

/// As many values reach `v` as reach the least value that reaches `v`.
pub proof fn lemma_count_ge_same(values: Seq<u64>, v: u64, m: u64)
    requires
        v <= m,
        forall|i: int| 0 <= i < values.len() && #[trigger] values[i] >= v ==> values[i] >= m,
    ensures
        count_ge(values, v) == count_ge(values, m),
    decreases values.len(),
{
    if values.len() > 0 {
        let front = values.drop_last();
        assert forall|i: int| 0 <= i < front.len() && #[trigger] front[i] >= v implies front[i]
            >= m by {
            assert(front[i] == values[i]);
        }
        lemma_count_ge_same(front, v, m);
        assert(values[values.len() - 1] == values.last());
    }
}

/// The quorum index is the highest index that a quorum reaches: fewer
/// than a quorum of the values reach any index above it.
pub proof fn lemma_quorum_index_highest(values: Seq<u64>, quorum: nat, v: u64)
    requires
        quorum >= 1,
        v > quorum_index_of(values, quorum),
    ensures
        count_ge(values, v) < quorum,
{
    lemma_quorum_scan(values, quorum, 0, 0);
    let r = quorum_index_of(values, quorum);
    if count_ge(values, v) >= quorum {
        let m = lemma_least_reaching(values, v);
        lemma_count_ge_same(values, v, m);
        let i = choose|i: int| 0 <= i < values.len() && values[i] == m;
        assert(values[i] <= r);
    }
}

/// How many of `values` are at least `v`.
pub fn count_at_least(values: &Vec<u64>, v: u64) -> (r: usize)
    ensures
        r == count_ge(values@, v),
{
    let mut count: usize = 0;
    let mut i: usize = 0;
    while i < values.len()
        invariant
            0 <= i <= values.len(),
            count == count_ge(values@.take(i as int), v),
            count <= i,
        decreases values.len() - i,
    {
        assert(values@.take(i + 1).drop_last() =~= values@.take(i as int));
        if values[i] >= v {
            count += 1;
        }
        i += 1;
    }
    assert(values@.take(i as int) =~= values@);
    count
}

/// The highest index that a quorum of logs holds: the greatest of `values`
/// that at least `quorum` of them reach, or 0 where there is none.
pub fn quorum_index(values: &Vec<u64>, quorum: u64) -> (r: u64)
    ensures
        is_quorum_index(values@, quorum as nat, r),
        r == quorum_index_of(values@, quorum as nat),
{
    let mut best: u64 = 0;
    let mut i: usize = 0;
    while i < values.len()
        invariant
            0 <= i <= values.len(),
            best == 0 || (values@.contains(best) && count_ge(values@, best) >= quorum),
            forall|j: int|
                0 <= j < i && count_ge(values@, #[trigger] values@[j]) >= quorum ==> values@[j]
                    <= best,
        decreases values.len() - i,
    {
        let v: u64 = values[i];
        if v > best && count_at_least(values, v) as u64 >= quorum {
            best = v;
        }
        i += 1;
    }
    proof {
        lemma_quorum_index(values@, quorum as nat, best);
    }
    best
}

/// What a leader keeps: the ticks since its last heartbeat, and for each
/// peer the next index to send and the last index known to be on it.
#[derive(Debug)]
pub struct Leader {
    pub(crate) heartbeat_ticks: u64,
    pub(crate) peer_next_index: AssocList<String, u64>,
    pub(crate) peer_last_index: AssocList<String, u64>,
}

impl Role for Leader {
    open(crate) spec fn role_view(&self) -> RoleView {
        RoleView::Leader {
            heartbeat_ticks: self.heartbeat_ticks,
            peer_next_index: self.peer_next_index.pairs(),
            peer_last_index: self.peer_last_index.pairs(),
        }
    }

    fn leads(&self) -> (r: bool) {
        true
    }

    fn fits(&self, id: &String, vote: &Option<String>) -> (r: bool) {
        self.heartbeat_ticks < HEARTBEAT_INTERVAL && self.peer_next_index.is_wf()
            && self.peer_last_index.is_wf()
    }
}

impl Leader {
    /// Creates a new leader role: every peer is to be sent the entry that
    /// follows `last_index` next, and is known to hold nothing.
    pub fn new(peers: Vec<String>, last_index: u64) -> (r: Self)
        requires
            last_index < u64::MAX,
        ensures
            r.role_view() == (RoleView::Leader {
                heartbeat_ticks: 0,
                peer_next_index: index_all(name_views(peers@), (last_index + 1) as u64),
                peer_last_index: index_all(name_views(peers@), 0),
            }),
            distinct_keys(index_all(name_views(peers@), (last_index + 1) as u64)),
            distinct_keys(index_all(name_views(peers@), 0)),
    {
        let mut leader = Leader {
            heartbeat_ticks: 0,
            peer_next_index: AssocList::new(),
            peer_last_index: AssocList::new(),
        };
        let ghost names = name_views(peers@);
        let mut i: usize = 0;
        assert(names.take(0) =~= Seq::empty());
        while i < peers.len()
            invariant
                0 <= i <= peers.len(),
                names == name_views(peers@),
                last_index < u64::MAX,
                leader.heartbeat_ticks == 0,
                leader.peer_next_index.wf(),
                leader.peer_last_index.wf(),
                leader.peer_next_index.pairs() == index_all(
                    names.take(i as int),
                    (last_index + 1) as u64,
                ),
                leader.peer_last_index.pairs() == index_all(names.take(i as int), 0),
            decreases peers.len() - i,
        {
            proof {
                assert(names.take(i + 1).drop_last() =~= names.take(i as int));
                assert(names.take(i + 1).last() == peers@[i as int]@);
            }
            leader.peer_next_index.insert(peers[i].clone(), last_index + 1);
            leader.peer_last_index.insert(peers[i].clone(), 0);
            i += 1;
        }
        proof {
            assert(names.take(i as int) =~= names);
            lemma_index_all(names, (last_index + 1) as u64);
            lemma_index_all(names, 0);
        }
        leader
    }
}

/// The answer with the name `server` in it, where it is a status.
pub open spec fn stamped(
    response: Result<ResponseView, crate::error::ErrorView>,
    server: Seq<char>,
) -> Result<ResponseView, crate::error::ErrorView> {
    match response {
        Ok(ResponseView::Status(status)) => Ok(
            ResponseView::Status(StatusView { server, ..status }),
        ),
        _ => response,
    }
}

impl NodeView {
    /// The last index of the leader's own log, and then those known to be on
    /// its peers.
    pub open spec fn last_indexes(self) -> Seq<u64> {
        match self.role {
            RoleView::Leader { peer_last_index, .. } => seq![self.log.last_index()] + values_of(
                peer_last_index,
            ),
            _ => seq![self.log.last_index()],
        }
    }

    /// The index up to which the leader may commit: the highest that a
    /// quorum holds.
    pub open spec fn quorum_index(self) -> u64 {
        quorum_index_of(self.last_indexes(), self.quorum())
    }

    /// Whether the leader commits: a quorum holds an entry above the commit
    /// index, and that entry is of the leader's own term.
    pub open spec fn commits(self) -> bool {
        self.quorum_index() > self.log.commit_index && self.log.has(self.quorum_index(), self.term)
    }

    /// The leader commits what it may.
    pub open spec fn leader_commit(self) -> NodeView {
        if self.commits() {
            self.commit_to(self.quorum_index())
        } else {
            self
        }
    }

    /// The leader sends `peer` the entries from the peer's next index on,
    /// with the index and term of the entry before them. None where the peer
    /// is unknown or the log does not hold the entry before them.
    pub open spec fn leader_replicate(self, peer: Seq<char>) -> Option<NodeView> {
        match self.role {
            RoleView::Leader { peer_next_index, .. } => {
                if !has_key(peer_next_index, peer) {
                    None
                } else {
                    let next = to_map(peer_next_index)[peer];
                    let base_index: u64 = if next > 0 {
                        (next - 1) as u64
                    } else {
                        0
                    };
                    if base_index > self.log.entries.len() {
                        None
                    } else {
                        Some(
                            self.send(
                                AddressView::Peer(peer),
                                EventView::ReplicateEntries {
                                    base_index,
                                    base_term: self.log.term_at(base_index),
                                    entries: (Range {
                                        start: Bound::Included(next),
                                        end: Bound::Unbounded,
                                    }).select(self.log.entries),
                                },
                            ),
                        )
                    }
                }
            },
            _ => Some(self),
        }
    }

    /// The leader replicates to each of `peers` in turn. None where one of
    /// them fails.
    pub open spec fn replicate_all(self, peers: Seq<Seq<char>>) -> Option<NodeView>
        decreases peers.len(),
    {
        if peers.len() == 0 {
            Some(self)
        } else {
            match self.replicate_all(peers.drop_last()) {
                Some(n) => n.leader_replicate(peers.last()),
                None => None,
            }
        }
    }

    /// The leader appends a command to its log and replicates to every peer.
    /// None where the log is full or a replication fails.
    pub open spec fn leader_append(self, command: Option<Seq<u8>>) -> Option<NodeView> {
        if self.log.entries.len() >= u64::MAX {
            None
        } else {
            (NodeView { log: self.log.append(self.term, command), ..self }).replicate_all(
                self.peers,
            )
        }
    }

    /// The status that the leader reports.
    pub open spec fn status(self) -> StatusView {
        StatusView {
            server: self.id,
            leader: self.id,
            term: self.term,
            node_last_index: match self.role {
                RoleView::Leader { peer_last_index, .. } => to_map(peer_last_index).insert(
                    self.id,
                    self.log.last_index(),
                ),
                _ => Map::empty(),
            },
            commit_index: self.log.commit_index,
            apply_index: 0,
            storage: self.storage,
            storage_size: self.log.size(),
        }
    }

    /// The leader takes a client's request from `from`. None where a
    /// mutation cannot be appended or replicated.
    pub open spec fn leader_request(self, from: AddressView, event: EventView) -> Option<NodeView> {
        match event {
            EventView::ClientRequest { id, request } => match request {
                RequestView::Query(command) => {
                    let n = self.instruct(
                        InstructionView::Query {
                            id,
                            address: from,
                            command,
                            term: self.term,
                            index: self.log.commit_index,
                            quorum: self.quorum() as u64,
                        },
                    ).instruct(
                        InstructionView::Vote {
                            term: self.term,
                            index: self.log.commit_index,
                            address: AddressView::Local,
                        },
                    );
                    if self.peers.len() > 0 {
                        Some(
                            n.send(
                                AddressView::Peers,
                                EventView::Heartbeat {
                                    commit_index: self.log.commit_index,
                                    commit_term: self.log.commit_term(),
                                },
                            ),
                        )
                    } else {
                        Some(n)
                    }
                },
                RequestView::Mutate(command) => match self.leader_append(Some(command)) {
                    Some(n) => {
                        let n = n.instruct(
                            InstructionView::Notify {
                                id,
                                address: from,
                                index: n.log.last_index(),
                            },
                        );
                        if self.peers.len() == 0 {
                            Some(n.leader_commit())
                        } else {
                            Some(n)
                        }
                    },
                    None => None,
                },
                RequestView::Status => Some(
                    self.instruct(
                        InstructionView::Status { id, address: from, status: self.status() },
                    ),
                ),
            },
            _ => Some(self),
        }
    }

    /// The leader hears from the peer `from` that it confirms the leader.
    pub open spec fn leader_confirm(
        self,
        from: Seq<char>,
        term: u64,
        commit_index: u64,
        has_committed: bool,
    ) -> Option<NodeView> {
        let n = self.instruct(
            InstructionView::Vote { term, index: commit_index, address: AddressView::Peer(from) },
        );
        if has_committed {
            Some(n)
        } else {
            n.leader_replicate(from)
        }
    }

    /// The leader hears that a peer has taken entries up to `last_index`.
    pub open spec fn leader_accept(self, from: AddressView, last_index: u64) -> NodeView {
        match (self.role, from) {
            (
                RoleView::Leader { heartbeat_ticks, peer_next_index, peer_last_index },
                AddressView::Peer(peer),
            ) => {
                if last_index < u64::MAX {
                    (NodeView {
                        role: RoleView::Leader {
                            heartbeat_ticks,
                            peer_next_index: put(peer_next_index, peer, (last_index + 1) as u64),
                            peer_last_index: put(peer_last_index, peer, last_index),
                        },
                        ..self
                    }).leader_commit()
                } else {
                    self.leader_commit()
                }
            },
            _ => self.leader_commit(),
        }
    }

    /// The leader hears that the peer `from` has refused entries: it goes
    /// one entry back for that peer, not below the first, and replicates.
    pub open spec fn leader_reject(self, from: Seq<char>) -> Option<NodeView> {
        match self.role {
            RoleView::Leader { heartbeat_ticks, peer_next_index, peer_last_index } => {
                if has_key(peer_next_index, from) && to_map(peer_next_index)[from] > 1 {
                    (NodeView {
                        role: RoleView::Leader {
                            heartbeat_ticks,
                            peer_next_index: put(
                                peer_next_index,
                                from,
                                (to_map(peer_next_index)[from] - 1) as u64,
                            ),
                            peer_last_index,
                        },
                        ..self
                    }).leader_replicate(from)
                } else {
                    self.leader_replicate(from)
                }
            },
            _ => Some(self),
        }
    }

    /// The leader hands the answer to a request on to the client, with its
    /// own name in it where the answer is a status.
    pub open spec fn leader_response(
        self,
        id: Seq<u8>,
        response: Result<ResponseView, crate::error::ErrorView>,
    ) -> NodeView {
        self.send(
            AddressView::Client,
            EventView::ClientResponse { id, response: stamped(response, self.id) },
        )
    }

    /// A leader takes a message, or none where the message makes the node
    /// fail. A message that the node does not receive changes nothing. A
    /// message of a higher term from a peer makes the leader a follower of
    /// that peer, which then takes the message.
    pub open spec fn leader_step(self, msg: MessageView) -> Option<NodeView> {
        if !self.receives(msg) {
            Some(self)
        } else if self.outranked_by(msg) {
            self.follow(msg.term, msg.from->Peer_0).follower_handle(msg)
        } else {
            match msg.event {
                EventView::ConfirmLeader { commit_index, has_committed } => match msg.from {
                    AddressView::Peer(from) => self.leader_confirm(
                        from,
                        msg.term,
                        commit_index,
                        has_committed,
                    ),
                    _ => Some(self),
                },
                EventView::AcceptEntries { last_index } => Some(
                    self.leader_accept(msg.from, last_index),
                ),
                EventView::RejectEntries => match msg.from {
                    AddressView::Peer(from) => self.leader_reject(from),
                    _ => Some(self),
                },
                EventView::ClientRequest { id, request } => self.leader_request(
                    msg.from,
                    msg.event,
                ),
                EventView::ClientResponse { id, response } => Some(
                    self.leader_response(id, response),
                ),
                _ => Some(self),
            }
        }
    }

    /// A leader takes a tick of the clock: with peers, it sends a heartbeat
    /// every `HEARTBEAT_INTERVAL` ticks.
    pub open spec fn leader_tick(self) -> NodeView {
        match self.role {
            RoleView::Leader { heartbeat_ticks, peer_next_index, peer_last_index } => {
                if self.peers.len() == 0 {
                    self
                } else if heartbeat_ticks + 1 >= HEARTBEAT_INTERVAL {
                    (NodeView {
                        role: RoleView::Leader {
                            heartbeat_ticks: 0,
                            peer_next_index,
                            peer_last_index,
                        },
                        ..self
                    }).send(
                        AddressView::Peers,
                        EventView::Heartbeat {
                            commit_index: self.log.commit_index,
                            commit_term: self.log.commit_term(),
                        },
                    )
                } else {
                    NodeView {
                        role: RoleView::Leader {
                            heartbeat_ticks: (heartbeat_ticks + 1) as u64,
                            peer_next_index,
                            peer_last_index,
                        },
                        ..self
                    }
                }
            },
            _ => self,
        }
    }
}

impl<S: Store> RoleNode<Leader, S> {
    /// Replicates the log to a peer.
    pub(crate) fn replicate(&mut self, peer: &String) -> (r: Result<(), Error>)
        requires
            old(self).wf(),
        ensures
            match r {
                Ok(()) => {
                    &&& final(self).wf()
                    &&& Some(final(self)@) == old(self)@.leader_replicate(peer@)
                    &&& final(self).reliable() == old(self).reliable()
                },
                Err(e) => {
                    &&& fails(e, old(self)@.leader_replicate(peer@) is None, old(self).reliable())
                    &&& final(self).wf()
                    &&& final(self)@ == old(self)@
                    &&& final(self).reliable() == old(self).reliable()
                },
            },
    {
        let peer_next: u64 = match self.role.peer_next_index.get(peer) {
            Some(next) => *next,
            None => {
                return Err(Error::internal("Unknown peer"));
            },
        };
        let base_index: u64 = if peer_next > 0 {
            peer_next - 1
        } else {
            0
        };
        let base_term: u64 = match self.log.get(base_index)? {
            Some(base) => base.term,
            None => {
                if base_index != 0 {
                    return Err(Error::internal("Missing base entry"));
                }
                0
            },
        };
        let entries = self.log.scan(Range::from_index(peer_next))?;
        emit(
            &mut self.node_tx,
            self.term,
            Address::Peer(peer.clone()),
            Event::ReplicateEntries { base_index, base_term, entries },
        );
        Ok(())
    }

    /// Appends an entry to the log and replicates it to peers. Returns the
    /// index of the entry. After a failure the node is still consistent,
    /// with or without the entry.
    pub fn append(&mut self, command: Option<Vec<u8>>) -> (r: Result<u64, Error>)
        requires
            old(self).wf(),
        ensures
            match r {
                Ok(index) => {
                    &&& final(self).wf()
                    &&& Some(final(self)@) == old(self)@.leader_append(
                        match command {
                            Some(c) => Some(c@),
                            None => None,
                        },
                    )
                    &&& index == old(self)@.log.entries.len() + 1
                    &&& index == final(self)@.log.last_index()
                    &&& final(self)@ == (NodeView {
                        log: final(self)@.log,
                        outbox: final(self)@.outbox,
                        ..old(self)@
                    })
                    &&& final(self).reliable() == old(self).reliable()
                },
                Err(e) => {
                    &&& fails(
                        e,
                        old(self)@.leader_append(
                            match command {
                                Some(c) => Some(c@),
                                None => None,
                            },
                        ) is None,
                        old(self).reliable(),
                    )
                    &&& final(self).wf()
                    &&& final(self).reliable() == old(self).reliable()
                },
            },
    {
        let ghost command_view: Option<Seq<u8>> = match &command {
            Some(c) => Some(c@),
            None => None,
        };
        let entry = self.log.append(self.term, command)?;
        let ghost start = self@;
        let ghost peers = self@.peers;
        proof {
            self.log.lemma_valid();
            assert(peers.take(0) =~= Seq::empty());
        }
        let n: usize = self.peers.len();
        let mut i: usize = 0;
        while i < n
            invariant
                0 <= i <= n,
                n == peers.len(),
                self.wf(),
                self@.peers == peers,
                start.peers == peers,
                Some(self@) == start.replicate_all(peers.take(i as int)),
                self@.log == start.log,
                self.reliable() == old(self).reliable(),
                start == (NodeView {
                    log: old(self)@.log.append(old(self)@.term, command_view),
                    ..old(self)@
                }),
                old(self)@.log.entries.len() < u64::MAX,
                old(self)@.peers == peers,
                command_view == match command {
                    Some(c) => Some(c@),
                    None => None,
                },
            decreases n - i,
        {
            let peer = self.peers[i].clone();
            let ghost before = self@;
            proof {
                assert(peers.take(i + 1).drop_last() =~= peers.take(i as int));
                assert(peers.take(i + 1).last() == peer@);
                assert(start.replicate_all(peers.take(i + 1)) == before.leader_replicate(peer@));
            }
            match self.replicate(&peer) {
                Ok(()) => {},
                Err(e) => {
                    proof {
                        if start.replicate_all(peers.take(i + 1)) is None {
                            start.lemma_replicate_all_fails(peers, i + 1);
                        }
                    }
                    return Err(e);
                },
            }
            i += 1;
        }
        proof {
            assert(peers.take(i as int) =~= peers);
            start.lemma_replicate_all_frame(peers);
        }
        Ok(entry.index)
    }

    /// Commits any pending log entries, and returns the commit index.
    pub(crate) fn commit(&mut self) -> (r: Result<u64, Error>)
        requires
            old(self).wf(),
        ensures
            match r {
                Ok(index) => {
                    &&& final(self).wf()
                    &&& final(self)@ == old(self)@.leader_commit()
                    &&& index == final(self)@.log.commit_index
                    &&& final(self).reliable() == old(self).reliable()
                },
                Err(e) => fails(e, false, old(self).reliable()),
            },
    {
        let mut last_indexes: Vec<u64> = Vec::new();
        last_indexes.push(self.log.last_index());
        let mut others = self.role.peer_last_index.values();
        last_indexes.append(&mut others);
        assert(last_indexes@ =~= self@.last_indexes());
        let quorum_index = quorum_index(&last_indexes, self.quorum());
        if quorum_index > self.log.commit_index() && self.log.has(quorum_index, self.term)? {
            self.commit_to(quorum_index)?;
        }
        Ok(self.log.commit_index())
    }

    /// The status that the leader reports.
    pub(crate) fn status(&self) -> (r: Status)
        requires
            self.wf(),
        ensures
            r@ == self@.status(),
    {
        let mut node_last_index = self.role.peer_last_index.copy();
        proof {
            lemma_put(self.role.peer_last_index.pairs(), self.id@, self@.log.last_index());
        }
        node_last_index.insert(self.id.clone(), self.log.last_index());
        Status {
            server: self.id.clone(),
            leader: self.id.clone(),
            term: self.term,
            node_last_index,
            commit_index: self.log.commit_index(),
            apply_index: 0,
            storage: self.log.store_name(),
            storage_size: self.log.store_size(),
        }
    }

    /// Takes a client's request from `from`.
    pub(crate) fn request(&mut self, from: Address, id: Vec<u8>, request: Request) -> (r: Result<
        (),
        Error,
    >)
        requires
            old(self).wf(),
        ensures
            match r {
                Ok(()) => {
                    &&& final(self).wf()
                    &&& Some(final(self)@) == old(self)@.leader_request(
                        from@,
                        EventView::ClientRequest { id: id@, request: request@ },
                    )
                    &&& final(self).reliable() == old(self).reliable()
                },
                Err(e) => fails(
                    e,
                    old(self)@.leader_request(
                        from@,
                        EventView::ClientRequest { id: id@, request: request@ },
                    ) is None,
                    old(self).reliable(),
                ),
            },
    {
        match request {
            Request::Query(command) => {
                let quorum = self.quorum();
                let index = self.log.commit_index();
                instruct(
                    &mut self.state_tx,
                    Instruction::Query {
                        id,
                        address: from,
                        command,
                        term: self.term,
                        index,
                        quorum,
                    },
                );
                instruct(
                    &mut self.state_tx,
                    Instruction::Vote { term: self.term, index, address: Address::Local },
                );
                if self.peers.len() > 0 {
                    emit(
                        &mut self.node_tx,
                        self.term,
                        Address::Peers,
                        Event::Heartbeat {
                            commit_index: index,
                            commit_term: self.log.commit_term(),
                        },
                    );
                }
                assert(Some(self@) == old(self)@.leader_request(
                    from@,
                    EventView::ClientRequest { id: id@, request: request@ },
                ));
            },
            Request::Mutate(command) => {
                let index = self.append(Some(command))?;
                instruct(&mut self.state_tx, Instruction::Notify { id, address: from, index });
                if self.peers.len() == 0 {
                    self.commit()?;
                }
            },
            Request::Status => {
                let status = Box::new(self.status());
                instruct(&mut self.state_tx, Instruction::Status { id, address: from, status });
                assert(Some(self@) == old(self)@.leader_request(
                    from@,
                    EventView::ClientRequest { id: id@, request: request@ },
                ));
            },
        }
        Ok(())
    }

    /// Takes the news that the peer `from` has taken entries up to
    /// `last_index`.
    pub(crate) fn accept(&mut self, from: Address, last_index: u64) -> (r: Result<(), Error>)
        requires
            old(self).wf(),
        ensures
            match r {
                Ok(()) => {
                    &&& final(self).wf()
                    &&& final(self)@ == old(self)@.leader_accept(from@, last_index)
                    &&& final(self).reliable() == old(self).reliable()
                },
                Err(e) => fails(e, false, old(self).reliable()),
            },
    {
        if let Address::Peer(peer) = from {
            if last_index < u64::MAX {
                self.role.peer_last_index.insert(peer.clone(), last_index);
                self.role.peer_next_index.insert(peer, last_index + 1);
            }
        }
        self.commit()?;
        Ok(())
    }

    /// Takes the news that the peer `from` has refused entries.
    pub(crate) fn reject(&mut self, from: String) -> (r: Result<(), Error>)
        requires
            old(self).wf(),
        ensures
            match r {
                Ok(()) => {
                    &&& final(self).wf()
                    &&& Some(final(self)@) == old(self)@.leader_reject(from@)
                    &&& final(self).reliable() == old(self).reliable()
                },
                Err(e) => fails(e, old(self)@.leader_reject(from@) is None, old(self).reliable()),
            },
    {
        let next: Option<u64> = match self.role.peer_next_index.get(&from) {
            Some(next) => Some(*next),
            None => None,
        };
        match next {
            Some(next) => {
                if next > 1 {
                    self.role.peer_next_index.insert(from.clone(), next - 1);
                }
            },
            None => {},
        }
        self.replicate(&from)
    }

    /// Processes a message.
    pub fn step(self, msg: Message) -> (r: Result<Node<S>, Error>)
        requires
            self.wf(),
        ensures
            match r {
                Ok(node) => {
                    &&& node.wf()
                    &&& Some(node@) == self@.leader_step(msg@)
                    &&& node.reliable() == self.reliable()
                },
                Err(e) => fails(e, self@.leader_step(msg@) is None, self.reliable()),
            },
    {
        if !self.validate(&msg) {
            return Ok(Node::Leader(self));
        }
        if msg.term > self.term {
            let sender: Option<String> = match &msg.from {
                Address::Peer(from) => Some(from.clone()),
                _ => None,
            };
            match sender {
                Some(from) => {
                    let node = self.become_follower(msg.term, &from, None)?;
                    let node = node.handle(msg)?;
                    return Ok(Node::Follower(node));
                },
                None => {},
            }
        }
        let mut node = self;
        let Message { from, to, term, event } = msg;
        match event {
            Event::ConfirmLeader { commit_index, has_committed } => {
                if let Address::Peer(peer) = from {
                    instruct(
                        &mut node.state_tx,
                        Instruction::Vote {
                            term,
                            index: commit_index,
                            address: Address::Peer(peer.clone()),
                        },
                    );
                    if !has_committed {
                        node.replicate(&peer)?;
                    }
                }
            },
            Event::AcceptEntries { last_index } => {
                node.accept(from, last_index)?;
            },
            Event::RejectEntries => {
                if let Address::Peer(peer) = from {
                    node.reject(peer)?;
                }
            },
            Event::ClientRequest { id, request } => {
                node.request(from, id, request)?;
            },
            Event::ClientResponse { id, response } => {
                let response = match response {
                    Ok(Response::Status(status)) => {
                        let mut status = status;
                        status.server = node.id.clone();
                        Ok(Response::Status(status))
                    },
                    other => other,
                };
                emit(
                    &mut node.node_tx,
                    node.term,
                    Address::Client,
                    Event::ClientResponse { id, response },
                );
            },
            _ => {},
        }
        Ok(Node::Leader(node))
    }

    /// Processes a logical clock tick.
    pub fn tick(self) -> (r: Result<Node<S>, Error>)
        requires
            self.wf(),
        ensures
            match r {
                Ok(node) => {
                    &&& node.wf()
                    &&& node@ == self@.leader_tick()
                    &&& node.reliable() == self.reliable()
                },
                Err(e) => false,
            },
    {
        let mut node = self;
        if node.peers.len() > 0 {
            node.role.heartbeat_ticks = node.role.heartbeat_ticks + 1;
            if node.role.heartbeat_ticks >= HEARTBEAT_INTERVAL {
                node.role.heartbeat_ticks = 0;
                emit(
                    &mut node.node_tx,
                    node.term,
                    Address::Peers,
                    Event::Heartbeat {
                        commit_index: node.log.commit_index(),
                        commit_term: node.log.commit_term(),
                    },
                );
            }
        }
        Ok(Node::Leader(node))
    }
}

impl NodeView {
    /// Replicating changes only the outbox.
    pub proof fn lemma_replicate_all_frame(self, peers: Seq<Seq<char>>)
        ensures
            match self.replicate_all(peers) {
                Some(n) => n == (NodeView { outbox: n.outbox, ..self }),
                None => true,
            },
        decreases peers.len(),
    {
        if peers.len() > 0 {
            self.lemma_replicate_all_frame(peers.drop_last());
        }
    }

    /// Where replicating to the first `k` of `peers` fails, replicating to
    /// all of them fails.
    pub proof fn lemma_replicate_all_fails(self, peers: Seq<Seq<char>>, k: int)
        requires
            0 <= k <= peers.len(),
            self.replicate_all(peers.take(k)) is None,
        ensures
            self.replicate_all(peers) is None,
        decreases peers.len() - k,
    {
        if k < peers.len() {
            assert(peers.take(k + 1).drop_last() =~= peers.take(k));
            self.lemma_replicate_all_fails(peers, k + 1);
        } else {
            assert(peers.take(k) =~= peers);
        }
    }
}

} // verus!
