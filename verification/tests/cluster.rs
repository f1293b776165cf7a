use raft_core::raft::codec::Entry;
use raft_core::raft::log::Log;
use raft_core::raft::message::{Address, Event, Instruction, Message, Request};
use raft_core::raft::node::follower::Follower;
use raft_core::raft::node::{Node, RoleNode};
use raft_core::storage::log::memory::Memory;
use raft_core::storage::log::Range;
use std::collections::{BTreeMap, BTreeSet, VecDeque};

// A cluster of nodes with a network between them that delivers each
// message in the order in which it was sent, unless the recipient is cut
// off.
struct Cluster {
    nodes: BTreeMap<String, Option<Node<Memory>>>,
    wire: VecDeque<Message>,
    cut: BTreeSet<String>,
    applied: BTreeMap<String, Vec<Entry>>,
    // The names of the nodes that have led in each term.
    led: BTreeMap<u64, BTreeSet<String>>,
}

impl Cluster {
    fn new(names: &[&str], seeds: &[u64]) -> Cluster {
        let mut nodes = BTreeMap::new();
        for (name, seed) in names.iter().zip(seeds) {
            let peers = names.iter().filter(|n| *n != name).map(|n| n.to_string()).collect();
            let node = Node::new(name, peers, Log::new(Memory::new()).unwrap(), *seed).unwrap();
            nodes.insert(name.to_string(), Some(node));
        }
        Cluster {
            nodes,
            wire: VecDeque::new(),
            cut: BTreeSet::new(),
            applied: BTreeMap::new(),
            led: BTreeMap::new(),
        }
    }

    fn node(&self, name: &str) -> &Node<Memory> {
        self.nodes[name].as_ref().unwrap()
    }

    fn names(&self) -> Vec<String> {
        self.nodes.keys().cloned().collect()
    }

    fn leaders(&self) -> Vec<String> {
        self.names().into_iter().filter(|n| self.node(n).is_leader()).collect()
    }

    fn entries(&self, name: &str) -> Vec<Entry> {
        self.node(name).log().scan(Range::all()).unwrap()
    }

    // Takes what the node has to send and to apply, and puts the messages
    // on the wire as the transport would.
    fn drain(&mut self, name: &str) {
        let node = self.nodes.get_mut(name).unwrap().as_mut().unwrap();
        if node.is_leader() {
            self.led.entry(node.term()).or_default().insert(name.to_string());
        }
        for i in node.take_instructions() {
            if let Instruction::Apply { entry } = i {
                self.applied.entry(name.to_string()).or_default().push(entry);
            }
        }
        let peers: Vec<String> = self.nodes.keys().filter(|n| *n != name).cloned().collect();
        let sent = self.nodes.get_mut(name).unwrap().as_mut().unwrap().take_messages();
        for m in sent {
            let Message { to, term, event, .. } = m;
            match to {
                Address::Peers => {
                    for peer in &peers {
                        self.wire.push_back(Message {
                            from: Address::Peer(name.to_string()),
                            to: Address::Peer(peer.clone()),
                            term,
                            event: copy(&event),
                        });
                    }
                }
                Address::Peer(peer) => self.wire.push_back(Message {
                    from: Address::Peer(name.to_string()),
                    to: Address::Peer(peer),
                    term,
                    event,
                }),
                _ => {}
            }
        }
    }

    fn step(&mut self, name: &str, message: Message) {
        let node = self.nodes.get_mut(name).unwrap().take().unwrap();
        let term = node.term();
        let commit = node.log().commit_index();
        let node = node.step(message).unwrap();
        assert!(node.term() >= term);
        assert!(node.log().commit_index() >= commit);
        *self.nodes.get_mut(name).unwrap() = Some(node);
        self.drain(name);
    }

    fn tick(&mut self, name: &str) {
        let node = self.nodes.get_mut(name).unwrap().take().unwrap();
        let node = node.tick().unwrap();
        *self.nodes.get_mut(name).unwrap() = Some(node);
        self.drain(name);
    }

    // Delivers what is on the wire until nothing is left. Messages from
    // and to nodes that are cut off are lost.
    fn settle(&mut self) {
        let mut rounds = 0;
        while let Some(m) = self.wire.pop_front() {
            rounds += 1;
            assert!(rounds < 10_000);
            let (from, to) = match (&m.from, &m.to) {
                (Address::Peer(from), Address::Peer(to)) => (from.clone(), to.clone()),
                _ => continue,
            };
            if self.cut.contains(&from) || self.cut.contains(&to) {
                continue;
            }
            self.step(&to, m);
        }
    }

    fn tick_all(&mut self) {
        for name in self.names() {
            if !self.cut.contains(&name) {
                self.tick(&name);
            }
        }
        self.settle();
    }

    // Ticks until one of the nodes that are not cut off leads, and the
    // others follow it.
    fn elect(&mut self) -> String {
        for _ in 0..400 {
            self.tick_all();
            let up: Vec<String> =
                self.names().into_iter().filter(|n| !self.cut.contains(n)).collect();
            let leaders: Vec<&String> = up.iter().filter(|n| self.node(n).is_leader()).collect();
            if leaders.len() == 1
                && up.iter().all(|n| {
                    *n == *leaders[0] || self.node(n).leader().as_ref() == Some(leaders[0])
                })
            {
                return leaders[0].clone();
            }
        }
        panic!("no leader");
    }

    fn mutate(&mut self, leader: &str, id: u8, command: u8) {
        self.step(
            leader,
            Message {
                from: Address::Client,
                to: Address::Local,
                term: 0,
                event: Event::ClientRequest { id: vec![id], request: Request::Mutate(vec![command]) },
            },
        );
        self.settle();
    }

    // What holds of every cluster at every time.
    fn check(&self) {
        for (term, leaders) in &self.led {
            assert!(leaders.len() <= 1, "two leaders in term {}", term);
        }
        let names = self.names();
        for a in &names {
            let la = self.entries(a);
            for (i, e) in la.iter().enumerate() {
                assert_eq!(e.index, i as u64 + 1);
                assert!(e.term <= self.node(a).term());
            }
            for b in &names {
                let lb = self.entries(b);
                for i in 0..la.len().min(lb.len()) {
                    if la[i].term == lb[i].term {
                        assert_eq!(la[..=i], lb[..=i], "logs of {} and {} differ", a, b);
                    }
                }
            }
            // What was applied is the beginning of the log, in order.
            if let Some(applied) = self.applied.get(a) {
                assert_eq!(applied[..], la[..applied.len()]);
                assert_eq!(applied.len() as u64, self.node(a).log().commit_index());
            }
        }
    }
}

fn copy(event: &Event) -> Event {
    match event {
        Event::Heartbeat { commit_index, commit_term } => {
            Event::Heartbeat { commit_index: *commit_index, commit_term: *commit_term }
        }
        Event::SolicitVote { last_index, last_term } => {
            Event::SolicitVote { last_index: *last_index, last_term: *last_term }
        }
        other => panic!("not a broadcast: {:?}", other),
    }
}

#[test]
fn cluster_elects_one_leader_and_replicates() {
    let mut c = Cluster::new(&["a", "b", "c"], &[0, 3, 6]);
    let leader = c.elect();
    assert_eq!(leader, "a");
    assert_eq!(c.leaders(), vec!["a".to_string()]);
    assert_eq!(c.node("a").term(), 1);
    c.check();

    c.mutate("a", 1, 0x11);
    c.mutate("a", 2, 0x22);
    c.check();
    let want = vec![
        Entry { index: 1, term: 1, command: Some(vec![0x11]) },
        Entry { index: 2, term: 1, command: Some(vec![0x22]) },
    ];
    for name in ["a", "b", "c"] {
        assert_eq!(c.entries(name), want);
    }
    assert_eq!(c.node("a").log().commit_index(), 2);
    assert_eq!(c.applied["a"], want);

    // The followers commit and apply with the next heartbeats.
    for _ in 0..3 {
        c.tick_all();
    }
    c.check();
    for name in ["b", "c"] {
        assert!(c.node(name).is_follower());
        assert_eq!(c.node(name).leader(), Some("a".to_string()));
        assert_eq!(c.node(name).log().commit_index(), 2);
        assert_eq!(c.applied[name], want);
    }
}

#[test]
fn committed_entries_outlive_their_leader() {
    let mut c = Cluster::new(&["a", "b", "c"], &[0, 3, 6]);
    assert_eq!(c.elect(), "a");
    c.mutate("a", 1, 0x11);
    c.mutate("a", 2, 0x22);
    assert_eq!(c.node("a").log().commit_index(), 2);
    let committed = c.entries("a");

    // The leader is cut off, and takes one more request that it cannot
    // replicate.
    c.cut.insert("a".to_string());
    c.mutate("a", 3, 0x33);
    assert_eq!(c.node("a").log().last_index(), 3);
    assert_eq!(c.node("a").log().commit_index(), 2);

    // The others elect a leader of a later term, which holds what was
    // committed.
    let next = c.elect();
    assert_ne!(next, "a");
    assert!(c.node(&next).term() > 1);
    assert_eq!(c.entries(&next)[..2], committed[..]);
    c.check();
    c.mutate(&next, 4, 0x44);
    assert_eq!(c.node(&next).log().commit_index(), 3);
    c.check();

    // The old leader comes back, follows, and gives up what it had not
    // committed.
    c.cut.clear();
    for _ in 0..6 {
        c.tick_all();
    }
    c.check();
    assert!(c.node("a").is_follower());
    assert_eq!(c.node("a").term(), c.node(&next).term());
    assert_eq!(c.entries("a"), c.entries(&next));
    assert_eq!(c.entries("a")[2].command, Some(vec![0x44]));
    assert_eq!(c.node("a").log().commit_index(), 3);
    for name in ["a", "b", "c"] {
        assert_eq!(c.applied[name], c.entries(&next));
    }
}

#[test]
fn five_nodes_survive_changes_of_leader() {
    let mut c = Cluster::new(&["a", "b", "c", "d", "e"], &[4, 1, 7, 2, 5]);
    let mut command = 0u8;
    for round in 0..4 {
        let leader = c.elect();
        for _ in 0..3 {
            command += 1;
            c.mutate(&leader, command, command);
            c.check();
        }
        assert_eq!(c.node(&leader).log().commit_index(), 3 * (round + 1));
        // The leader drops out; the others go on.
        c.cut.clear();
        c.cut.insert(leader);
    }
    c.cut.clear();
    let leader = c.elect();
    for _ in 0..20 {
        c.tick_all();
    }
    c.check();
    let log = c.entries(&leader);
    assert_eq!(log.len(), 12);
    for name in c.names() {
        assert_eq!(c.entries(&name), log);
        assert_eq!(c.applied[&name], log);
    }
    assert!(c.led.len() >= 4);
}

#[test]
fn follower_acknowledges_the_end_of_its_own_log() {
    // A follower whose log goes on behind the entries that its leader
    // sends, with entries that agree, keeps them, and names the end of its
    // log in its answer.
    let mut log = Log::new(Memory::new()).unwrap();
    log.append(1, Some(vec![1])).unwrap();
    log.append(1, Some(vec![2])).unwrap();
    log.append(1, Some(vec![3])).unwrap();
    log.save_term(2, None).unwrap();
    let role = Follower::new(Some("a"), None, 10);
    let node = RoleNode::assemble("b", vec!["a".into(), "c".into()], log, role, 0).unwrap();
    let mut node = Node::Follower(node)
        .step(Message {
            from: Address::Peer("a".into()),
            to: Address::Peer("b".into()),
            term: 2,
            event: Event::ReplicateEntries {
                base_index: 1,
                base_term: 1,
                entries: vec![Entry { index: 2, term: 1, command: Some(vec![2]) }],
            },
        })
        .unwrap();
    assert_eq!(node.log().last_index(), 3);
    assert_eq!(
        node.take_messages(),
        vec![Message {
            from: Address::Local,
            to: Address::Peer("a".into()),
            term: 2,
            event: Event::AcceptEntries { last_index: 3 },
        }]
    );
}
