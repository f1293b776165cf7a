use raft_core::error::Error;
use raft_core::raft::log::Log;
use raft_core::raft::message::{Address, Event, Instruction, Message, Request};
use raft_core::raft::node::candidate::Candidate;
use raft_core::raft::node::{Node, RoleNode};
use raft_core::storage::log::memory::Memory;

fn peers() -> Vec<String> {
    vec!["a".into(), "c".into(), "d".into(), "e".into()]
}

fn log() -> Log<Memory> {
    let mut log = Log::new(Memory::new()).unwrap();
    log.append(1, Some(vec![0x01])).unwrap();
    log.append(1, Some(vec![0x02])).unwrap();
    log.append(2, Some(vec![0x03])).unwrap();
    log.commit(2).unwrap();
    log.save_term(3, Some("b")).unwrap();
    log
}

// A candidate "b" at term 3 that has its own vote.
fn setup() -> Node<Memory> {
    let role = Candidate::new(&"b".to_string(), 9);
    Node::Candidate(RoleNode::assemble("b", peers(), log(), role, 1).unwrap())
}

fn from(peer: &str, term: u64, event: Event) -> Message {
    Message { from: Address::Peer(peer.into()), to: Address::Peer("b".into()), term, event }
}

fn to(peer: &str, term: u64, event: Event) -> Message {
    Message { from: Address::Local, to: Address::Peer(peer.into()), term, event }
}

#[test]
fn candidate_must_have_voted_for_itself() {
    let mut log = log();
    log.save_term(3, Some("c")).unwrap();
    let role = Candidate::new(&"b".to_string(), 9);
    assert!(matches!(RoleNode::assemble("b", peers(), log, role, 1), Err(Error::Config(_))));
}

#[test]
fn leads_with_a_quorum_of_votes() {
    let mut node = setup();
    node = node.step(from("c", 3, Event::GrantVote)).unwrap();
    assert!(node.is_candidate());
    // The same vote again does not count twice.
    node = node.step(from("c", 3, Event::GrantVote)).unwrap();
    assert!(node.is_candidate());
    assert_eq!(node.take_messages(), vec![]);

    node = node.step(from("e", 3, Event::GrantVote)).unwrap();
    assert!(node.is_leader());
    assert_eq!(node.term(), 3);
    assert_eq!(
        node.take_messages(),
        vec![Message {
            from: Address::Local,
            to: Address::Peers,
            term: 3,
            event: Event::Heartbeat { commit_index: 2, commit_term: 1 },
        }]
    );
    assert_eq!(node.take_instructions(), vec![]);

    // Votes that come late change nothing.
    node = node.step(from("d", 3, Event::GrantVote)).unwrap();
    assert!(node.is_leader());
    assert_eq!(node.take_messages(), vec![]);
}

#[test]
fn new_leader_serves_what_waited() {
    let mut node = setup();
    node = node
        .step(Message {
            from: Address::Client,
            to: Address::Local,
            term: 0,
            event: Event::ClientRequest { id: vec![0x01], request: Request::Query(vec![0xaf]) },
        })
        .unwrap();
    assert!(node.is_candidate());
    assert_eq!(node.take_messages(), vec![]);
    assert_eq!(node.take_instructions(), vec![]);

    node = node.step(from("c", 3, Event::GrantVote)).unwrap();
    node = node.step(from("d", 3, Event::GrantVote)).unwrap();
    assert!(node.is_leader());
    let heartbeat = || Message {
        from: Address::Local,
        to: Address::Peers,
        term: 3,
        event: Event::Heartbeat { commit_index: 2, commit_term: 1 },
    };
    assert_eq!(node.take_messages(), vec![heartbeat(), heartbeat()]);
    assert_eq!(
        node.take_instructions(),
        vec![
            Instruction::Query {
                id: vec![0x01],
                address: Address::Client,
                command: vec![0xaf],
                term: 3,
                index: 2,
                quorum: 3,
            },
            Instruction::Vote { term: 3, index: 2, address: Address::Local },
        ]
    );
}

#[test]
fn follows_a_leader_of_its_term() {
    let mut node = setup();
    node = node.step(from("c", 3, Event::Heartbeat { commit_index: 3, commit_term: 2 })).unwrap();
    assert!(node.is_follower());
    assert_eq!(node.term(), 3);
    assert_eq!(node.leader(), Some("c".to_string()));
    assert_eq!(node.log().commit_index(), 3);
    // The node keeps the vote that it gave itself in this term.
    assert_eq!(node.log().load_term().unwrap(), (3, Some("b".to_string())));
    assert_eq!(
        node.take_messages(),
        vec![to("c", 3, Event::ConfirmLeader { commit_index: 3, has_committed: true })]
    );

    node = node.step(from("d", 3, Event::SolicitVote { last_index: 9, last_term: 9 })).unwrap();
    assert_eq!(node.take_messages(), vec![]);
}

#[test]
fn follows_a_higher_term() {
    let mut node = setup();
    node = node.step(from("c", 5, Event::SolicitVote { last_index: 3, last_term: 2 })).unwrap();
    assert!(node.is_follower());
    assert_eq!(node.term(), 5);
    assert_eq!(node.take_messages(), vec![to("c", 5, Event::GrantVote)]);
    assert_eq!(node.log().load_term().unwrap(), (5, Some("c".to_string())));
}

#[test]
fn ignores_other_candidates_of_its_term() {
    let mut node = setup();
    node = node.step(from("c", 3, Event::SolicitVote { last_index: 9, last_term: 9 })).unwrap();
    assert!(node.is_candidate());
    assert_eq!(node.take_messages(), vec![]);
}

#[test]
fn begins_a_new_election_after_its_timeout() {
    let mut node = setup();
    for _ in 0..8 {
        node = node.tick().unwrap();
        assert!(node.is_candidate());
        assert_eq!(node.term(), 3);
        assert_eq!(node.take_messages(), vec![]);
    }
    node = node.tick().unwrap();
    assert!(node.is_candidate());
    assert_eq!(node.term(), 4);
    assert_eq!(node.log().load_term().unwrap(), (4, Some("b".to_string())));
    assert_eq!(
        node.take_messages(),
        vec![Message {
            from: Address::Local,
            to: Address::Peers,
            term: 4,
            event: Event::SolicitVote { last_index: 3, last_term: 2 },
        }]
    );
    // The votes of the old election do not count in the new one.
    node = node.step(from("c", 3, Event::GrantVote)).unwrap();
    node = node.step(from("d", 3, Event::GrantVote)).unwrap();
    assert!(node.is_candidate());
}

#[test]
fn term_cannot_rise_beyond_the_last() {
    let mut log = log();
    log.save_term(u64::MAX, Some("b")).unwrap();
    let role = Candidate::new(&"b".to_string(), 8);
    let mut node = Node::Candidate(RoleNode::assemble("b", peers(), log, role, 1).unwrap());
    for _ in 0..7 {
        node = node.tick().unwrap();
    }
    assert!(matches!(node.tick(), Err(Error::Internal(_))));
}
