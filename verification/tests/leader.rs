use raft_core::assoc::AssocList;
use raft_core::raft::codec::Entry;
use raft_core::raft::log::Log;
use raft_core::raft::message::{
    Address, Event, Instruction, Message, Request, Status,
};
use raft_core::raft::node::leader::Leader;
use raft_core::raft::node::{Node, RoleNode, HEARTBEAT_INTERVAL};
use raft_core::storage::log::memory::Memory;
use raft_core::storage::log::{Bound, Range};

fn peers() -> Vec<String> {
    vec!["b".into(), "c".into(), "d".into(), "e".into()]
}

fn setup() -> RoleNode<Leader, Memory> {
    let mut log = Log::new(Memory::new()).unwrap();
    log.append(1, Some(vec![0x01])).unwrap();
    log.append(1, Some(vec![0x02])).unwrap();
    log.append(2, Some(vec![0x03])).unwrap();
    log.append(3, Some(vec![0x04])).unwrap();
    log.append(3, Some(vec![0x05])).unwrap();
    log.commit(2).unwrap();
    log.save_term(3, None).unwrap();
    let role = Leader::new(peers(), log.last_index());
    RoleNode::assemble("a", peers(), log, role, 1).unwrap()
}

fn assert_messages(node: &mut Node<Memory>, expect: Vec<Message>) {
    assert_eq!(node.take_messages(), expect);
}

fn assert_instructions(node: &mut Node<Memory>, expect: Vec<Instruction>) {
    assert_eq!(node.take_instructions(), expect);
}

fn assert_leader(node: &Node<Memory>, term: u64, committed: u64) {
    assert!(node.is_leader());
    assert_eq!(node.term(), term);
    assert_eq!(node.log().commit_index(), committed);
}

fn peer_message(from: &str, term: u64, event: Event) -> Message {
    Message { from: Address::Peer(from.into()), to: Address::Peer("a".into()), term, event }
}

fn apply(index: u64, term: u64, command: u8) -> Instruction {
    Instruction::Apply { entry: Entry { index, term, command: Some(vec![command]) } }
}

#[test]
// ConfirmLeader triggers vote
fn step_confirmleader_vote() {
    let mut node = Node::Leader(setup());

    node = node
        .step(peer_message("b", 3, Event::ConfirmLeader { commit_index: 2, has_committed: true }))
        .unwrap();
    assert_leader(&node, 3, 2);
    assert_messages(&mut node, vec![]);
    assert_instructions(
        &mut node,
        vec![Instruction::Vote { term: 3, index: 2, address: Address::Peer("b".into()) }],
    );
}

#[test]
// ConfirmLeader without has_committed triggers replication
fn step_confirmleader_replicate() {
    let mut node = Node::Leader(setup());

    node = node
        .step(peer_message("b", 3, Event::ConfirmLeader { commit_index: 2, has_committed: false }))
        .unwrap();
    assert_leader(&node, 3, 2);
    assert_messages(
        &mut node,
        vec![Message {
            from: Address::Local,
            to: Address::Peer("b".into()),
            term: 3,
            event: Event::ReplicateEntries { base_index: 5, base_term: 3, entries: vec![] },
        }],
    );
    assert_instructions(
        &mut node,
        vec![Instruction::Vote { term: 3, index: 2, address: Address::Peer("b".into()) }],
    );
}

#[test]
// Heartbeats from other leaders in current term are ignored.
fn step_heartbeat_current_term() {
    let mut node = Node::Leader(setup());

    node = node
        .step(peer_message("b", 3, Event::Heartbeat { commit_index: 5, commit_term: 3 }))
        .unwrap();
    assert_leader(&node, 3, 2);
    assert_messages(&mut node, vec![]);
    assert_instructions(&mut node, vec![]);
}

#[test]
// Heartbeats from other leaders in future term converts to follower and steps.
fn step_heartbeat_future_term() {
    let mut node = Node::Leader(setup());

    node = node
        .step(peer_message("b", 4, Event::Heartbeat { commit_index: 7, commit_term: 4 }))
        .unwrap();
    assert!(node.is_follower());
    assert_eq!(node.term(), 4);
    assert_eq!(node.leader(), Some("b".to_string()));
    assert_eq!(node.log().commit_index(), 2);
    // The follower confirms with the leader's commit index, but never with
    // more than its own log holds.
    assert_messages(
        &mut node,
        vec![Message {
            from: Address::Local,
            to: Address::Peer("b".into()),
            term: 4,
            event: Event::ConfirmLeader { commit_index: 5, has_committed: false },
        }],
    );
    assert_instructions(&mut node, vec![Instruction::Abort]);
}

#[test]
// Heartbeats from other leaders in past terms are ignored.
fn step_heartbeat_past_term() {
    let mut node = Node::Leader(setup());

    node = node
        .step(peer_message("b", 2, Event::Heartbeat { commit_index: 3, commit_term: 2 }))
        .unwrap();
    assert_leader(&node, 3, 2);
    assert_messages(&mut node, vec![]);
    assert_instructions(&mut node, vec![]);
}

#[test]
fn step_acceptentries() {
    let mut node = Node::Leader(setup());

    node = node.step(peer_message("b", 3, Event::AcceptEntries { last_index: 4 })).unwrap();
    assert_eq!(node.log().commit_index(), 2);
    assert_messages(&mut node, vec![]);
    assert_instructions(&mut node, vec![]);

    node = node.step(peer_message("c", 3, Event::AcceptEntries { last_index: 5 })).unwrap();
    assert_eq!(node.log().commit_index(), 4);
    assert_messages(&mut node, vec![]);
    assert_instructions(&mut node, vec![apply(3, 2, 0x03), apply(4, 3, 0x04)]);

    node = node.step(peer_message("d", 3, Event::AcceptEntries { last_index: 5 })).unwrap();
    assert_eq!(node.log().commit_index(), 5);
    assert_messages(&mut node, vec![]);
    assert_instructions(&mut node, vec![apply(5, 3, 0x05)]);

    assert!(node.is_leader());
    assert_eq!(node.term(), 3);
}

#[test]
// Duplicate AcceptEntries from single node should not trigger commit.
fn step_acceptentries_duplicate() {
    let mut node = Node::Leader(setup());

    for _ in 0..5 {
        node = node.step(peer_message("b", 3, Event::AcceptEntries { last_index: 5 })).unwrap();
        assert_leader(&node, 3, 2);
        assert_messages(&mut node, vec![]);
        assert_instructions(&mut node, vec![]);
    }
}

#[test]
// AcceptEntries quorum for entry in past term should not trigger commit
fn step_acceptentries_past_term() {
    let mut node = Node::Leader(setup());

    for peer in peers().into_iter() {
        node = node.step(peer_message(&peer, 3, Event::AcceptEntries { last_index: 3 })).unwrap();
        assert_leader(&node, 3, 2);
        assert_messages(&mut node, vec![]);
        assert_instructions(&mut node, vec![]);
    }
}

#[test]
// AcceptEntries quorum for missing future entry
fn step_acceptentries_future_index() {
    let mut node = Node::Leader(setup());

    for (i, peer) in peers().into_iter().enumerate() {
        node = node.step(peer_message(&peer, 3, Event::AcceptEntries { last_index: 7 })).unwrap();
        // The local leader will cast a vote to commit 5, thus when we have votes 2x7, 1x5, 2x0
        // we will commit index 5. However, we will correctly ignore the following votes for 7.
        let c = if i == 0 { 2 } else { 5 };
        assert_leader(&node, 3, c);
        assert_eq!(node.log().last_index(), 5);
        assert_messages(&mut node, vec![]);
        if i == 1 {
            assert_instructions(
                &mut node,
                vec![apply(3, 2, 0x03), apply(4, 3, 0x04), apply(5, 3, 0x05)],
            );
        } else {
            assert_instructions(&mut node, vec![]);
        }
    }
}

#[test]
fn step_rejectentries() {
    let leader = setup();
    let entries = leader.log().scan(Range::new(Bound::Included(0), Bound::Unbounded)).unwrap();
    let mut node = Node::Leader(leader);

    for i in 0..(entries.len() + 3) {
        node = node.step(peer_message("b", 3, Event::RejectEntries)).unwrap();
        assert_leader(&node, 3, 2);
        let index = if i >= entries.len() { 0 } else { entries.len() - i - 1 };
        let replicate = entries.get(index..).unwrap().to_vec();
        assert_messages(
            &mut node,
            vec![Message {
                from: Address::Local,
                to: Address::Peer("b".into()),
                term: 3,
                event: Event::ReplicateEntries {
                    base_index: index as u64,
                    base_term: if index > 0 {
                        entries.get(index - 1).map(|e| e.term).unwrap()
                    } else {
                        0
                    },
                    entries: replicate,
                },
            }],
        );
        assert_instructions(&mut node, vec![]);
    }
}

#[test]
// Sending a client query request will pass it to the state machine and trigger heartbeats.
fn step_clientrequest_query() {
    let leader = setup();
    let quorum = leader.quorum();
    let mut node = Node::Leader(leader);
    node = node
        .step(Message {
            from: Address::Client,
            to: Address::Local,
            term: 0,
            event: Event::ClientRequest { id: vec![0x01], request: Request::Query(vec![0xaf]) },
        })
        .unwrap();
    assert_leader(&node, 3, 2);
    assert_eq!(node.log().last_index(), 5);
    assert_messages(
        &mut node,
        vec![Message {
            from: Address::Local,
            to: Address::Peers,
            term: 3,
            event: Event::Heartbeat { commit_index: 2, commit_term: 1 },
        }],
    );
    assert_instructions(
        &mut node,
        vec![
            Instruction::Query {
                id: vec![0x01],
                address: Address::Client,
                command: vec![0xaf],
                term: 3,
                index: 2,
                quorum,
            },
            Instruction::Vote { term: 3, index: 2, address: Address::Local },
        ],
    );
}

#[test]
// Sending a mutate request should append it to log, replicate it to peers, and register notification.
fn step_clientrequest_mutate() {
    let mut node = Node::Leader(setup());

    node = node
        .step(Message {
            from: Address::Client,
            to: Address::Local,
            term: 0,
            event: Event::ClientRequest { id: vec![0x01], request: Request::Mutate(vec![0xaf]) },
        })
        .unwrap();
    assert_leader(&node, 3, 2);
    assert_eq!(node.log().last_index(), 6);
    assert_eq!(
        node.log().get(6).unwrap(),
        Some(Entry { index: 6, term: 3, command: Some(vec![0xaf]) })
    );

    let sent = node.take_messages();
    let mut sent = sent.into_iter();
    for peer in peers().iter().cloned() {
        assert_eq!(
            sent.next(),
            Some(Message {
                from: Address::Local,
                to: Address::Peer(peer),
                term: 3,
                event: Event::ReplicateEntries {
                    base_index: 5,
                    base_term: 3,
                    entries: vec![Entry { index: 6, term: 3, command: Some(vec![0xaf]) },]
                },
            })
        )
    }
    assert_eq!(sent.next(), None);
    assert_instructions(
        &mut node,
        vec![Instruction::Notify { id: vec![0x01], address: Address::Client, index: 6 }],
    );
}

#[test]
// Sending a status request should pass it on to state machine, to add status.
fn step_clientrequest_status() {
    let mut node = Node::Leader(setup());

    node = node
        .step(Message {
            from: Address::Client,
            to: Address::Local,
            term: 0,
            event: Event::ClientRequest { id: vec![0x01], request: Request::Status },
        })
        .unwrap();
    assert_leader(&node, 3, 2);
    assert_eq!(node.log().last_index(), 5);
    assert_messages(&mut node, vec![]);

    let mut node_last_index: AssocList<String, u64> = AssocList::new();
    node_last_index.insert("b".into(), 0);
    node_last_index.insert("c".into(), 0);
    node_last_index.insert("d".into(), 0);
    node_last_index.insert("e".into(), 0);
    node_last_index.insert("a".into(), 5);
    assert_instructions(
        &mut node,
        vec![Instruction::Status {
            id: vec![0x01],
            address: Address::Client,
            status: Box::new(Status {
                server: "a".into(),
                leader: "a".into(),
                term: 3,
                node_last_index,
                commit_index: 2,
                apply_index: 0,
                storage: "memory".into(),
                storage_size: 130,
            }),
        }],
    );
}

#[test]
fn tick() {
    let mut node = Node::Leader(setup());
    for _ in 0..5 {
        for _ in 0..HEARTBEAT_INTERVAL {
            assert_messages(&mut node, vec![]);
            assert_instructions(&mut node, vec![]);
            node = node.tick().unwrap();
            assert_leader(&node, 3, 2);
        }

        assert_eq!(
            node.take_messages(),
            vec![Message {
                from: Address::Local,
                to: Address::Peers,
                term: 3,
                event: Event::Heartbeat { commit_index: 2, commit_term: 1 },
            }]
        );
    }
}
