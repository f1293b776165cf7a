use raft_core::error::Error;
use raft_core::raft::codec::Entry;
use raft_core::raft::log::Log;
use raft_core::raft::message::{Address, Event, Instruction, Message, Request, Response};
use raft_core::raft::node::follower::Follower;
use raft_core::raft::node::{election_timeout, Node, RoleNode};
use raft_core::storage::log::memory::Memory;

fn peers() -> Vec<String> {
    vec!["a".into(), "c".into(), "d".into(), "e".into()]
}

fn log() -> Log<Memory> {
    let mut log = Log::new(Memory::new()).unwrap();
    log.append(1, Some(vec![0x01])).unwrap();
    log.append(1, Some(vec![0x02])).unwrap();
    log.append(2, Some(vec![0x03])).unwrap();
    log.commit(2).unwrap();
    log.save_term(3, None).unwrap();
    log
}

// A follower "b" of the leader "a" at term 3, with three entries of which
// two are committed.
fn setup() -> Node<Memory> {
    let role = Follower::new(Some("a"), None, 10);
    Node::Follower(RoleNode::assemble("b", peers(), log(), role, 1).unwrap())
}

fn from(peer: &str, term: u64, event: Event) -> Message {
    Message { from: Address::Peer(peer.into()), to: Address::Peer("b".into()), term, event }
}

fn to(peer: &str, term: u64, event: Event) -> Message {
    Message { from: Address::Local, to: Address::Peer(peer.into()), term, event }
}

fn entry(index: u64, term: u64, command: u8) -> Entry {
    Entry { index, term, command: Some(vec![command]) }
}

fn request(id: u8) -> Event {
    Event::ClientRequest { id: vec![id], request: Request::Mutate(vec![0xaf]) }
}

#[test]
fn boots_as_follower_without_leader() {
    let mut node = Node::new("b", peers(), log(), 0).unwrap();
    assert!(node.is_follower());
    assert_eq!(node.term(), 3);
    assert_eq!(node.leader(), None);
    assert_eq!(node.id(), "b");
    assert_eq!(node.take_messages(), vec![]);
    assert_eq!(node.take_instructions(), vec![]);
}

#[test]
fn boots_as_leader_without_peers() {
    let node = Node::new("b", vec![], log(), 0).unwrap();
    assert!(node.is_leader());
    assert_eq!(node.term(), 3);
}

#[test]
fn rejects_a_bad_cluster() {
    assert!(matches!(
        Node::new("b", vec!["a".into(), "a".into()], log(), 0),
        Err(Error::Config(_))
    ));
    assert!(matches!(
        Node::new("b", vec!["a".into(), "b".into()], log(), 0),
        Err(Error::Config(_))
    ));
}

#[test]
fn rejects_a_role_that_does_not_go_with_the_log() {
    // The log has saved no vote, but the follower says it voted.
    let role = Follower::new(Some("a"), Some("c"), 10);
    assert!(matches!(RoleNode::assemble("b", peers(), log(), role, 1), Err(Error::Config(_))));
}

#[test]
fn drops_messages_for_others() {
    let mut node = setup();
    node = node
        .step(Message {
            from: Address::Peer("a".into()),
            to: Address::Peer("c".into()),
            term: 3,
            event: Event::Heartbeat { commit_index: 3, commit_term: 2 },
        })
        .unwrap();
    assert_eq!(node.take_messages(), vec![]);
    node = node
        .step(Message {
            from: Address::Peer("a".into()),
            to: Address::Peers,
            term: 3,
            event: Event::Heartbeat { commit_index: 3, commit_term: 2 },
        })
        .unwrap();
    assert_eq!(node.take_messages(), vec![]);
    assert_eq!(node.log().commit_index(), 2);
}

#[test]
fn drops_messages_of_past_terms() {
    let mut node = setup();
    node = node.step(from("a", 2, Event::Heartbeat { commit_index: 3, commit_term: 2 })).unwrap();
    assert_eq!(node.take_messages(), vec![]);
    assert_eq!(node.log().commit_index(), 2);
    assert_eq!(node.term(), 3);
}

#[test]
fn heartbeat_commits_and_confirms() {
    let mut node = setup();
    node = node.step(from("a", 3, Event::Heartbeat { commit_index: 3, commit_term: 2 })).unwrap();
    assert!(node.is_follower());
    assert_eq!(node.log().commit_index(), 3);
    assert_eq!(
        node.take_messages(),
        vec![to("a", 3, Event::ConfirmLeader { commit_index: 3, has_committed: true })]
    );
    assert_eq!(node.take_instructions(), vec![Instruction::Apply { entry: entry(3, 2, 0x03) }]);
}

#[test]
fn heartbeat_with_another_term_at_the_index_does_not_commit() {
    let mut node = setup();
    node = node.step(from("a", 3, Event::Heartbeat { commit_index: 3, commit_term: 3 })).unwrap();
    assert_eq!(node.log().commit_index(), 2);
    assert_eq!(
        node.take_messages(),
        vec![to("a", 3, Event::ConfirmLeader { commit_index: 3, has_committed: false })]
    );
    assert_eq!(node.take_instructions(), vec![]);
}

#[test]
fn heartbeat_of_another_than_the_leader_is_ignored() {
    let mut node = setup();
    node = node.step(from("c", 3, Event::Heartbeat { commit_index: 3, commit_term: 2 })).unwrap();
    assert_eq!(node.leader(), Some("a".to_string()));
    assert_eq!(node.log().commit_index(), 2);
    assert_eq!(node.take_messages(), vec![]);
}

#[test]
fn heartbeat_makes_a_leader_known() {
    let mut node = Node::new("b", peers(), log(), 0).unwrap();
    node = node
        .step(Message {
            from: Address::Client,
            to: Address::Local,
            term: 0,
            event: request(0x01),
        })
        .unwrap();
    // Without a leader the request waits.
    assert_eq!(node.take_messages(), vec![]);

    node = node.step(from("c", 3, Event::Heartbeat { commit_index: 2, commit_term: 1 })).unwrap();
    assert_eq!(node.leader(), Some("c".to_string()));
    assert_eq!(
        node.take_messages(),
        vec![
            to("c", 3, request(0x01)),
            to("c", 3, Event::ConfirmLeader { commit_index: 2, has_committed: true }),
        ]
    );
    assert_eq!(node.take_instructions(), vec![Instruction::Abort]);

    // The answer goes back to the client, once.
    let answer = || Event::ClientResponse { id: vec![0x01], response: Ok(Response::State(vec![7])) };
    node = node.step(from("c", 3, answer())).unwrap();
    assert_eq!(
        node.take_messages(),
        vec![Message { from: Address::Local, to: Address::Client, term: 3, event: answer() }]
    );
    node = node.step(from("c", 3, answer())).unwrap();
    assert_eq!(node.take_messages(), vec![]);
}

#[test]
fn client_request_goes_to_the_leader() {
    let mut node = setup();
    node = node
        .step(Message {
            from: Address::Client,
            to: Address::Local,
            term: 0,
            event: request(0x05),
        })
        .unwrap();
    assert_eq!(node.take_messages(), vec![to("a", 3, request(0x05))]);
}

#[test]
fn higher_term_aborts_what_was_handed_on() {
    let mut node = setup();
    node = node
        .step(Message {
            from: Address::Client,
            to: Address::Local,
            term: 0,
            event: request(0x05),
        })
        .unwrap();
    node.take_messages();
    node = node.step(from("c", 5, Event::Heartbeat { commit_index: 0, commit_term: 0 })).unwrap();
    assert!(node.is_follower());
    assert_eq!(node.term(), 5);
    assert_eq!(node.leader(), Some("c".to_string()));
    assert_eq!(node.log().load_term().unwrap(), (5, None));
    assert_eq!(
        node.take_messages(),
        vec![
            Message {
                from: Address::Local,
                to: Address::Client,
                term: 5,
                event: Event::ClientResponse { id: vec![0x05], response: Err(Error::Abort) },
            },
            to("c", 5, Event::ConfirmLeader { commit_index: 0, has_committed: true }),
        ]
    );
    // A follower that changes its leader was no leader: nothing to abort
    // at the driver.
    assert_eq!(node.take_instructions(), vec![]);
}

#[test]
fn replicate_accepts_on_matching_base() {
    let mut node = setup();
    node = node
        .step(from(
            "a",
            3,
            Event::ReplicateEntries {
                base_index: 3,
                base_term: 2,
                entries: vec![entry(4, 3, 0x04), entry(5, 3, 0x05)],
            },
        ))
        .unwrap();
    assert_eq!(node.log().last_index(), 5);
    assert_eq!(node.log().get(5).unwrap(), Some(entry(5, 3, 0x05)));
    assert_eq!(node.take_messages(), vec![to("a", 3, Event::AcceptEntries { last_index: 5 })]);
}

#[test]
fn replicate_from_the_start_needs_no_base() {
    let mut node = setup();
    node = node
        .step(from(
            "a",
            3,
            Event::ReplicateEntries {
                base_index: 0,
                base_term: 0,
                entries: vec![entry(1, 1, 0x01), entry(2, 1, 0x02), entry(3, 3, 0x33)],
            },
        ))
        .unwrap();
    assert_eq!(node.log().get(3).unwrap(), Some(entry(3, 3, 0x33)));
    assert_eq!(node.take_messages(), vec![to("a", 3, Event::AcceptEntries { last_index: 3 })]);
}

#[test]
fn replicate_rejects_on_missing_base() {
    let mut node = setup();
    node = node
        .step(from(
            "a",
            3,
            Event::ReplicateEntries {
                base_index: 5,
                base_term: 3,
                entries: vec![entry(6, 3, 0x06)],
            },
        ))
        .unwrap();
    assert_eq!(node.log().last_index(), 3);
    assert_eq!(node.take_messages(), vec![to("a", 3, Event::RejectEntries)]);

    node = node
        .step(from(
            "a",
            3,
            Event::ReplicateEntries {
                base_index: 3,
                base_term: 3,
                entries: vec![entry(4, 3, 0x04)],
            },
        ))
        .unwrap();
    assert_eq!(node.log().last_index(), 3);
    assert_eq!(node.take_messages(), vec![to("a", 3, Event::RejectEntries)]);
}

#[test]
fn replicate_that_would_cut_committed_entries_fails() {
    let node = setup();
    let r = node.step(from(
        "a",
        3,
        Event::ReplicateEntries {
            base_index: 1,
            base_term: 1,
            entries: vec![entry(2, 3, 0x22)],
        },
    ));
    assert!(matches!(r, Err(Error::Internal(_))));
}

#[test]
fn grants_one_vote_per_term() {
    let mut node = setup();
    node = node.step(from("c", 4, Event::SolicitVote { last_index: 3, last_term: 2 })).unwrap();
    assert_eq!(node.term(), 4);
    assert_eq!(node.take_messages(), vec![to("c", 4, Event::GrantVote)]);
    assert_eq!(node.log().load_term().unwrap(), (4, Some("c".to_string())));

    // Another candidate of the same term gets nothing.
    node = node.step(from("d", 4, Event::SolicitVote { last_index: 9, last_term: 4 })).unwrap();
    assert_eq!(node.take_messages(), vec![]);
    assert_eq!(node.log().load_term().unwrap(), (4, Some("c".to_string())));

    // The same candidate gets its vote again.
    node = node.step(from("c", 4, Event::SolicitVote { last_index: 3, last_term: 2 })).unwrap();
    assert_eq!(node.take_messages(), vec![to("c", 4, Event::GrantVote)]);
}

#[test]
fn grants_no_vote_to_a_log_that_is_behind() {
    let mut node = setup();
    node = node.step(from("c", 4, Event::SolicitVote { last_index: 2, last_term: 2 })).unwrap();
    assert_eq!(node.take_messages(), vec![]);
    node = node.step(from("c", 4, Event::SolicitVote { last_index: 9, last_term: 1 })).unwrap();
    assert_eq!(node.take_messages(), vec![]);
    assert_eq!(node.log().load_term().unwrap(), (4, None));
    // A higher last term wins over a longer log.
    node = node.step(from("c", 4, Event::SolicitVote { last_index: 1, last_term: 3 })).unwrap();
    assert_eq!(node.take_messages(), vec![to("c", 4, Event::GrantVote)]);
}

#[test]
fn stands_for_election_after_its_timeout() {
    let mut node = setup();
    // The follower waits 10 ticks; the 11th is one too many.
    for _ in 0..10 {
        node = node.tick().unwrap();
        assert!(node.is_follower());
        assert_eq!(node.take_messages(), vec![]);
    }
    node = node.tick().unwrap();
    assert!(node.is_candidate());
    assert_eq!(node.term(), 4);
    assert_eq!(node.log().load_term().unwrap(), (4, Some("b".to_string())));
    assert_eq!(
        node.take_messages(),
        vec![Message {
            from: Address::Local,
            to: Address::Peers,
            term: 4,
            event: Event::SolicitVote { last_index: 3, last_term: 2 },
        }]
    );
}

#[test]
fn hearing_from_the_leader_restarts_the_wait() {
    let mut node = setup();
    for _ in 0..3 {
        for _ in 0..10 {
            node = node.tick().unwrap();
        }
        node =
            node.step(from("a", 3, Event::Heartbeat { commit_index: 2, commit_term: 1 })).unwrap();
        assert!(node.is_follower());
    }
    assert_eq!(node.term(), 3);
}

#[test]
fn election_timeouts_lie_in_their_range() {
    for seed in 0..1000u64 {
        let t = election_timeout(seed);
        assert!((8..=15).contains(&t));
        assert_eq!(t, 8 + seed % 8);
    }
}
