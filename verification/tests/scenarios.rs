use raft_core::error::Error;
use raft_core::raft::codec::Entry;
use raft_core::raft::log::Log;
use raft_core::raft::message::{Address, Event, Instruction, Message, Request, Response, Status};
use raft_core::raft::node::leader::{count_at_least, quorum_index, Leader};
use raft_core::raft::node::{advance_seed, Node, RoleNode};
use raft_core::assoc::AssocList;
use raft_core::storage::log::memory::Memory;

fn names(all: &[&str], but: &str) -> Vec<String> {
    all.iter().filter(|n| **n != but).map(|n| n.to_string()).collect()
}

const CLUSTER: [&str; 5] = ["a", "b", "c", "d", "e"];

fn log_of(terms: &[u64], commit: u64, term: u64) -> Log<Memory> {
    let mut log = Log::new(Memory::new()).unwrap();
    for (i, t) in terms.iter().enumerate() {
        log.append(*t, Some(vec![i as u8 + 1])).unwrap();
    }
    log.commit(commit).unwrap();
    log.save_term(term, None).unwrap();
    log
}

fn leader(terms: &[u64], commit: u64, term: u64) -> Node<Memory> {
    let log = log_of(terms, commit, term);
    let role = Leader::new(names(&CLUSTER, "a"), log.last_index());
    Node::Leader(RoleNode::assemble("a", names(&CLUSTER, "a"), log, role, 7).unwrap())
}

fn message(from: &str, to: &str, term: u64, event: Event) -> Message {
    Message { from: Address::Peer(from.into()), to: Address::Peer(to.into()), term, event }
}

fn entry(index: u64, term: u64) -> Entry {
    Entry { index, term, command: Some(vec![index as u8]) }
}

// What the transport does with a message from a node: it puts the node's
// name in place of `Local`, and addresses a broadcast to one peer.
fn deliver(m: Message, from: &str, to: &str) -> Message {
    Message { from: Address::Peer(from.into()), to: Address::Peer(to.into()), ..m }
}

#[test]
fn heartbeat_ack_with_lagging_follower() {
    let mut a = leader(&[1, 1, 2, 3, 3], 2, 3);
    let mut b = Node::new("b", names(&CLUSTER, "b"), log_of(&[1, 1], 0, 3), 0).unwrap();

    b = b
        .step(message("a", "b", 3, Event::Heartbeat { commit_index: 5, commit_term: 3 }))
        .unwrap();
    let sent = b.take_messages();
    assert_eq!(
        sent,
        vec![Message {
            from: Address::Local,
            to: Address::Peer("a".into()),
            term: 3,
            event: Event::ConfirmLeader { commit_index: 2, has_committed: false },
        }]
    );
    assert_eq!(b.log().commit_index(), 0);

    for m in sent {
        a = a.step(deliver(m, "b", "a")).unwrap();
    }
    assert_eq!(
        a.take_messages(),
        vec![Message {
            from: Address::Local,
            to: Address::Peer("b".into()),
            term: 3,
            event: Event::ReplicateEntries { base_index: 5, base_term: 3, entries: vec![] },
        }]
    );
    assert_eq!(
        a.take_instructions(),
        vec![Instruction::Vote { term: 3, index: 2, address: Address::Peer("b".into()) }]
    );
}

#[test]
fn lagging_follower_catches_up() {
    let mut a = leader(&[1, 1, 2, 3, 3], 2, 3);
    let mut b = Node::new("b", names(&CLUSTER, "b"), log_of(&[1, 1], 0, 3), 0).unwrap();
    b = b
        .step(message("a", "b", 3, Event::Heartbeat { commit_index: 2, commit_term: 1 }))
        .unwrap();
    assert_eq!(b.log().commit_index(), 2);
    b.take_messages();

    // The leader goes back until the follower accepts.
    let mut to_b = vec![message(
        "a",
        "b",
        3,
        Event::ReplicateEntries { base_index: 5, base_term: 3, entries: vec![] },
    )];
    let mut rounds = 0;
    while b.log().last_index() < 5 {
        rounds += 1;
        assert!(rounds < 10);
        let mut to_a = vec![];
        for m in to_b.drain(..) {
            b = b.step(m).unwrap();
            to_a.extend(b.take_messages());
        }
        for m in to_a {
            a = a.step(deliver(m, "b", "a")).unwrap();
            to_b.extend(a.take_messages().into_iter().map(|m| deliver(m, "a", "b")));
        }
    }
    assert_eq!(rounds, 4);
    for i in 1..=5 {
        assert_eq!(b.log().get(i).unwrap(), a.log().get(i).unwrap());
    }
    assert_eq!(a.log().commit_index(), 2);
}

#[test]
fn quorum_driven_commit() {
    let mut a = leader(&[1, 1, 2, 3, 3], 2, 3);
    a = a.step(message("b", "a", 3, Event::AcceptEntries { last_index: 4 })).unwrap();
    assert_eq!(a.log().commit_index(), 2);
    a = a.step(message("c", "a", 3, Event::AcceptEntries { last_index: 5 })).unwrap();
    assert_eq!(a.log().commit_index(), 4);
    assert_eq!(a.log().commit_term(), 3);
    assert_eq!(
        a.take_instructions(),
        vec![
            Instruction::Apply { entry: entry(3, 2) },
            Instruction::Apply { entry: entry(4, 3) },
        ]
    );
    a = a.step(message("d", "a", 3, Event::AcceptEntries { last_index: 5 })).unwrap();
    assert_eq!(a.log().commit_index(), 5);
    assert_eq!(a.take_instructions(), vec![Instruction::Apply { entry: entry(5, 3) }]);
    assert_eq!(a.take_messages(), vec![]);
}

#[test]
fn figure_8_block() {
    let mut a = leader(&[1, 1, 2, 2, 2], 2, 3);
    for peer in ["b", "c", "d", "e"] {
        a = a.step(message(peer, "a", 3, Event::AcceptEntries { last_index: 5 })).unwrap();
        assert!(a.is_leader());
        assert_eq!(a.log().commit_index(), 2);
        assert_eq!(a.take_instructions(), vec![]);
    }

    // An entry of the leader's own term carries the older ones with it.
    a = a
        .step(Message {
            from: Address::Client,
            to: Address::Local,
            term: 0,
            event: Event::ClientRequest { id: vec![1], request: Request::Mutate(vec![6]) },
        })
        .unwrap();
    a.take_instructions();
    a = a.step(message("b", "a", 3, Event::AcceptEntries { last_index: 6 })).unwrap();
    assert_eq!(a.log().commit_index(), 2);
    a = a.step(message("c", "a", 3, Event::AcceptEntries { last_index: 6 })).unwrap();
    assert_eq!(a.log().commit_index(), 6);
    assert_eq!(
        a.take_instructions(),
        vec![
            Instruction::Apply { entry: entry(3, 2) },
            Instruction::Apply { entry: entry(4, 2) },
            Instruction::Apply { entry: entry(5, 2) },
            Instruction::Apply { entry: Entry { index: 6, term: 3, command: Some(vec![6]) } },
        ]
    );
}

#[test]
fn reject_driven_backoff() {
    let mut a = leader(&[1, 1, 2, 3, 3], 2, 3);
    let mut bases = vec![];
    for _ in 0..8 {
        a = a.step(message("b", "a", 3, Event::RejectEntries)).unwrap();
        let sent = a.take_messages();
        assert_eq!(sent.len(), 1);
        match &sent[0].event {
            Event::ReplicateEntries { base_index, base_term, entries } => {
                assert_eq!(sent[0].to, Address::Peer("b".into()));
                assert_eq!(entries.len() as u64, 5 - base_index);
                assert_eq!(*base_term, [0, 1, 1, 2, 3, 3][*base_index as usize]);
                bases.push(*base_index);
            }
            other => panic!("unexpected {:?}", other),
        }
    }
    // The next index goes from 6 down to 1, one per rejection, and stays.
    assert_eq!(bases, vec![4, 3, 2, 1, 0, 0, 0, 0]);
}

#[test]
fn rejection_of_an_unknown_peer_fails() {
    let a = leader(&[1, 1, 2, 3, 3], 2, 3);
    assert!(matches!(
        a.step(message("z", "a", 3, Event::RejectEntries)),
        Err(Error::Internal(_))
    ));
}

#[test]
fn backoff_past_a_missing_base_fails() {
    let mut a = leader(&[1, 1, 2, 3, 3], 2, 3);
    a = a.step(message("b", "a", 3, Event::AcceptEntries { last_index: 9 })).unwrap();
    assert!(matches!(
        a.step(message("b", "a", 3, Event::RejectEntries)),
        Err(Error::Internal(_))
    ));
}

#[test]
fn split_vote_and_retry() {
    // "a" and "b" stand for election at the same time, and each gets the
    // vote of one other node: no quorum of 3.
    let mut a = Node::new("a", names(&CLUSTER, "a"), log_of(&[1], 0, 1), 0).unwrap();
    let mut b = Node::new("b", names(&CLUSTER, "b"), log_of(&[1], 0, 1), 0).unwrap();
    let mut c = Node::new("c", names(&CLUSTER, "c"), log_of(&[1], 0, 1), 5).unwrap();
    for _ in 0..9 {
        a = a.tick().unwrap();
        b = b.tick().unwrap();
    }
    assert!(a.is_candidate() && b.is_candidate());
    assert_eq!((a.term(), b.term()), (2, 2));
    let solicit_a = a.take_messages().pop().unwrap();
    let solicit_b = b.take_messages().pop().unwrap();

    c = c.step(deliver(solicit_a, "a", "c")).unwrap();
    assert_eq!(c.take_messages().len(), 1);
    c = c.step(deliver(solicit_b, "b", "c")).unwrap();
    assert_eq!(c.take_messages().len(), 0);
    a = a.step(message("c", "a", 2, Event::GrantVote)).unwrap();
    b = b.step(message("d", "b", 2, Event::GrantVote)).unwrap();
    assert!(a.is_candidate() && b.is_candidate());

    // Both time out and go on to the next term, "a" before "b": their
    // timeouts differ now.
    let mut ticks_a = 0;
    while a.term() == 2 {
        a = a.tick().unwrap();
        ticks_a += 1;
    }
    let mut ticks_b = 0;
    while b.term() == 2 {
        b = b.tick().unwrap();
        ticks_b += 1;
    }
    assert_eq!((a.term(), b.term()), (3, 3));
    assert!(a.is_candidate() && b.is_candidate());
    assert!((8..=15).contains(&ticks_a) && (8..=15).contains(&ticks_b));

    // With seeds that differ the nodes wait for different times, so that
    // one of them asks first and wins.
    let mut x = Node::new("a", names(&CLUSTER, "a"), log_of(&[1], 0, 1), 0).unwrap();
    let mut y = Node::new("b", names(&CLUSTER, "b"), log_of(&[1], 0, 1), 3).unwrap();
    let mut z = Node::new("c", names(&CLUSTER, "c"), log_of(&[1], 0, 1), 6).unwrap();
    let mut w = Node::new("d", names(&CLUSTER, "d"), log_of(&[1], 0, 1), 7).unwrap();
    let mut ticks = 0;
    while x.is_follower() {
        x = x.tick().unwrap();
        y = y.tick().unwrap();
        z = z.tick().unwrap();
        w = w.tick().unwrap();
        ticks += 1;
    }
    assert_eq!(ticks, 9);
    assert!(y.is_follower() && z.is_follower() && w.is_follower());
    let solicit = x.take_messages().pop().unwrap();
    let mut votes = vec![];
    for (node, name) in [(y, "b"), (z, "c"), (w, "d")] {
        let mut node = node.step(deliver(
            Message { event: Event::SolicitVote { last_index: 1, last_term: 1 }, ..message("a", name, 2, Event::GrantVote) },
            "a",
            name,
        )).unwrap();
        for m in node.take_messages() {
            votes.push(deliver(m, name, "a"));
        }
    }
    assert_eq!(solicit.event, Event::SolicitVote { last_index: 1, last_term: 1 });
    assert_eq!(votes.len(), 3);
    let mut leaders = 0;
    for v in votes {
        x = x.step(v).unwrap();
        if x.is_leader() {
            leaders += 1;
        }
    }
    assert!(x.is_leader());
    assert_eq!(leaders, 2);
    assert_eq!(x.term(), 2);
}

#[test]
fn heartbeat_from_higher_term_demotes_leader() {
    let mut a = leader(&[1, 1, 2, 3, 3], 2, 3);
    a = a
        .step(message("b", "a", 4, Event::Heartbeat { commit_index: 2, commit_term: 1 }))
        .unwrap();
    assert!(a.is_follower());
    assert_eq!(a.term(), 4);
    assert_eq!(a.leader(), Some("b".to_string()));
    assert_eq!(a.log().load_term().unwrap(), (4, None));
    assert_eq!(a.take_instructions(), vec![Instruction::Abort]);
    assert_eq!(
        a.take_messages(),
        vec![Message {
            from: Address::Local,
            to: Address::Peer("b".into()),
            term: 4,
            event: Event::ConfirmLeader { commit_index: 2, has_committed: true },
        }]
    );
}

#[test]
fn alone_a_leader_commits_at_once() {
    let mut a = Node::new("a", vec![], log_of(&[1, 1], 1, 2), 0).unwrap();
    assert!(a.is_leader());
    a = a
        .step(Message {
            from: Address::Client,
            to: Address::Local,
            term: 0,
            event: Event::ClientRequest { id: vec![9], request: Request::Mutate(vec![0xaf]) },
        })
        .unwrap();
    assert_eq!(a.log().commit_index(), 3);
    assert_eq!(a.take_messages(), vec![]);
    // The client is noted before its command is applied.
    assert_eq!(
        a.take_instructions(),
        vec![
            Instruction::Notify { id: vec![9], address: Address::Client, index: 3 },
            Instruction::Apply { entry: entry(2, 1) },
            Instruction::Apply { entry: Entry { index: 3, term: 2, command: Some(vec![0xaf]) } },
        ]
    );
    for _ in 0..10 {
        a = a.tick().unwrap();
    }
    assert_eq!(a.take_messages(), vec![]);
}

#[test]
fn leader_hands_answers_to_the_client() {
    let mut a = leader(&[1], 0, 1);
    let status = || Status {
        server: "x".into(),
        leader: "a".into(),
        term: 1,
        node_last_index: AssocList::new(),
        commit_index: 0,
        apply_index: 0,
        storage: "memory".into(),
        storage_size: 26,
    };
    a = a
        .step(Message {
            from: Address::Local,
            to: Address::Local,
            term: 1,
            event: Event::ClientResponse { id: vec![1], response: Ok(Response::Status(status())) },
        })
        .unwrap();
    a = a
        .step(Message {
            from: Address::Local,
            to: Address::Local,
            term: 1,
            event: Event::ClientResponse { id: vec![2], response: Ok(Response::State(vec![5])) },
        })
        .unwrap();
    assert_eq!(
        a.take_messages(),
        vec![
            Message {
                from: Address::Local,
                to: Address::Client,
                term: 1,
                event: Event::ClientResponse {
                    id: vec![1],
                    response: Ok(Response::Status(Status { server: "a".into(), ..status() })),
                },
            },
            Message {
                from: Address::Local,
                to: Address::Client,
                term: 1,
                event: Event::ClientResponse { id: vec![2], response: Ok(Response::State(vec![5])) },
            },
        ]
    );
}

#[test]
fn quorum_is_a_majority() {
    for (peers, quorum) in [(0usize, 1u64), (1, 2), (2, 2), (3, 3), (4, 3), (5, 4), (6, 4)] {
        let all: Vec<String> = (0..peers).map(|i| format!("p{}", i)).collect();
        let log = log_of(&[1], 0, 1);
        let role = Leader::new(all.clone(), log.last_index());
        let node = RoleNode::assemble("a", all, log, role, 0).unwrap();
        assert_eq!(node.quorum(), quorum);
    }
}

#[test]
fn quorum_index_is_the_highest_that_a_quorum_holds() {
    assert_eq!(quorum_index(&vec![5, 4, 5, 0, 0], 3), 4);
    assert_eq!(quorum_index(&vec![5, 4, 5, 5, 0], 3), 5);
    assert_eq!(quorum_index(&vec![5, 7, 7, 0, 0], 3), 5);
    assert_eq!(quorum_index(&vec![5, 7, 7, 7, 0], 3), 7);
    assert_eq!(quorum_index(&vec![5, 0, 0, 0, 0], 3), 0);
    assert_eq!(quorum_index(&vec![3], 1), 3);
    assert_eq!(quorum_index(&vec![3], 2), 0);
    assert_eq!(quorum_index(&vec![], 1), 0);
    assert_eq!(count_at_least(&vec![5, 4, 5, 0, 0], 4), 3);
    assert_eq!(count_at_least(&vec![5, 4, 5, 0, 0], 0), 5);
}

#[test]
fn seeds_follow_each_other() {
    assert_eq!(advance_seed(0), 12345);
    assert_eq!(advance_seed(1), 60616);
    assert_eq!(advance_seed(2147483647), 12345);
    assert_eq!(advance_seed(12345), (12345u64 * 48271 + 12345) % 2147483647);
}

#[test]
fn term_never_falls_and_commit_never_regresses() {
    let mut a = leader(&[1, 1, 2, 3, 3], 2, 3);
    let inputs = vec![
        message("b", "a", 3, Event::AcceptEntries { last_index: 5 }),
        message("c", "a", 2, Event::AcceptEntries { last_index: 5 }),
        message("c", "a", 3, Event::AcceptEntries { last_index: 5 }),
        message("d", "a", 3, Event::AcceptEntries { last_index: 1 }),
        message("b", "a", 3, Event::AcceptEntries { last_index: 0 }),
        message("c", "a", 3, Event::AcceptEntries { last_index: 0 }),
        message("b", "a", 6, Event::SolicitVote { last_index: 0, last_term: 0 }),
        message("c", "a", 6, Event::Heartbeat { commit_index: 1, commit_term: 1 }),
        message("c", "a", 4, Event::Heartbeat { commit_index: 5, commit_term: 3 }),
        message("b", "a", 6, Event::ReplicateEntries { base_index: 5, base_term: 3, entries: vec![entry(6, 6)] }),
    ];
    let mut term = a.term();
    let mut commit = a.log().commit_index();
    let mut applied = vec![];
    for m in inputs {
        a = a.step(m).unwrap();
        a = a.tick().unwrap();
        assert!(a.term() >= term);
        assert!(a.log().commit_index() >= commit);
        term = a.term();
        commit = a.log().commit_index();
        for i in a.take_instructions() {
            if let Instruction::Apply { entry } = i {
                applied.push(entry.index);
            }
        }
    }
    assert_eq!(term, 6);
    assert_eq!(commit, 5);
    assert_eq!(applied, vec![3, 4, 5]);
}
