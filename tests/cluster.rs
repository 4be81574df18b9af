// An in-memory cluster driven by the library's role step functions: each
// server runs an acceptor, a leader with its scout and commanders, and a
// replica over the chat log. Messages travel through a time-ordered queue;
// crashes and partitions drop them.

use std::collections::{BTreeMap, BinaryHeap, HashMap};
use std::cmp::Reverse;

use paxos::acceptor::{self, Acceptor, AcceptorRecord};
use paxos::chatroom::{Mode, Response, State};
use paxos::commander::{self, Commander};
use paxos::leader::{self, Leader, LeaderRecord};
use paxos::message::{Ballot, Command, CommanderID, Proposal};
use paxos::peer::In;
use paxos::replica::{self, Replica, ReplicaRecord};
use paxos::scout::{self, Scout};
use paxos::shared::{broadcast, narrowcast, send, Destination, Route};

const RETRY_MS: u64 = 50;

fn put(client: u64, local: u64, text: &str) -> Command {
    let mut payload = vec![1u8];
    payload.extend_from_slice(text.as_bytes());
    Command::new(client, local, payload)
}

fn get(client: u64, local: u64) -> Command {
    Command::new(client, local, vec![0u8])
}

fn decode(payload: &[u8]) -> Mode {
    if payload.first() == Some(&1) {
        Mode::Put(String::from_utf8(payload[1..].to_vec()).unwrap())
    } else {
        Mode::Get
    }
}

enum Event {
    Deliver(u64, In),
    Local(u64, Destination),
    ScoutStart(u64, Ballot, Option<u64>),
    Request(u64, Command),
    Retry(u64),
}

struct Stable {
    acceptor: AcceptorRecord,
    leader: LeaderRecord,
    replica: ReplicaRecord,
}

struct Server {
    up: bool,
    acceptor: Acceptor,
    leader: Leader,
    replica: Replica,
    scout: Option<Scout>,
    commanders: HashMap<CommanderID, Commander>,
    state: State,
    /// Slots and commands executed, in order.
    executed: Vec<(u64, u64, u64)>,
    stable: Option<Stable>,
    draws: u64,
}

struct Cluster {
    n: u64,
    now: u64,
    seq: u64,
    queue: BinaryHeap<Reverse<(u64, u64)>>,
    events: HashMap<u64, Event>,
    servers: Vec<Server>,
    cut: Vec<(u64, u64)>,
    responses: Vec<(u64, Vec<String>)>,
    /// Every decision any commander reached: slot to command ids.
    decided: BTreeMap<u64, Vec<(u64, u64)>>,
}

impl Cluster {
    fn new(n: u64) -> Cluster {
        let mut c = Cluster {
            n,
            now: 0,
            seq: 0,
            queue: BinaryHeap::new(),
            events: HashMap::new(),
            servers: Vec::new(),
            cut: Vec::new(),
            responses: Vec::new(),
            decided: BTreeMap::new(),
        };
        for id in 0..n {
            let (leader, start) = Leader::with_draw(id, n, None, 1000 * (1 + 30 * id));
            c.servers.push(Server {
                up: true,
                acceptor: Acceptor::new(id),
                leader,
                replica: Replica::new(),
                scout: None,
                commanders: HashMap::new(),
                state: State::new(),
                executed: Vec::new(),
                stable: None,
                draws: id,
            });
            c.leader_actions(id, vec![start]);
            c.persist(id);
        }
        for id in 0..n {
            c.at(RETRY_MS, Event::Retry(id));
        }
        c
    }

    fn at(&mut self, delay: u64, e: Event) {
        self.seq += 1;
        self.queue.push(Reverse((self.now + delay, self.seq)));
        self.events.insert(self.seq, e);
    }

    fn linked(&self, a: u64, b: u64) -> bool {
        a == b || !self.cut.iter().any(|&(x, y)| (x == a && y == b) || (x == b && y == a))
    }

    fn route(&mut self, from: u64, r: Route) {
        match r {
            Route::Local(d) => self.at(0, Event::Local(from, d)),
            Route::Remote(to, m) => {
                if self.linked(from, to) {
                    self.at(1, Event::Deliver(to, m));
                }
            }
        }
    }

    fn persist(&mut self, id: u64) {
        let s = &mut self.servers[id as usize];
        s.stable = Some(Stable {
            acceptor: s.acceptor.record(),
            leader: s.leader.record(),
            replica: s.replica.record(),
        });
    }

    fn leader_actions(&mut self, id: u64, acts: Vec<leader::Action>) {
        for a in acts {
            match a {
                leader::Action::StartScout { ballot, decided, delay_ms } => {
                    self.at(delay_ms, Event::ScoutStart(id, ballot, decided));
                }
                leader::Action::StartCommander(p) => {
                    let c = Commander::new(p, self.n);
                    let (cid, pv) = c.p2a();
                    let targets = c.pending();
                    self.servers[id as usize].commanders.insert(cid, c);
                    for r in narrowcast(id, &targets, &In::P2A(cid, pv)) {
                        self.route(id, r);
                    }
                }
            }
        }
    }

    fn replica_actions(&mut self, id: u64, acts: Vec<replica::Action>) {
        for a in acts {
            match a {
                replica::Action::Propose(p) => {
                    let acts = self.servers[id as usize].leader.respond_propose(p);
                    self.leader_actions(id, acts);
                }
                replica::Action::Execute(slot, c) => {
                    let s = &mut self.servers[id as usize];
                    s.executed.push((slot, c.id.client_id, c.id.local_id));
                    if let Some(Response::Messages(m)) = s.state.execute(slot, decode(&c.payload)) {
                        self.responses.push((c.id.client_id, m));
                    }
                }
            }
        }
    }

    fn preempted(&mut self, id: u64, b: Ballot) {
        let s = &mut self.servers[id as usize];
        s.draws += 7;
        let draw = s.draws * 97;
        let acts = s.leader.preempt_with(b, draw);
        self.leader_actions(id, acts);
    }

    fn dispatch(&mut self, id: u64, d: Destination) {
        match d {
            Destination::Acceptor(acceptor::In::P1A(m)) => {
                let reply = self.servers[id as usize].acceptor.send_p1a(m);
                self.persist(id);
                let r = send(id, m.ballot.leader, In::P1B(reply));
                self.route(id, r);
            }
            Destination::Acceptor(acceptor::In::P2A(cid, p)) => {
                let reply = self.servers[id as usize].acceptor.send_p2a(p);
                self.persist(id);
                let r = send(id, cid.ballot.leader, In::P2B(cid, reply));
                self.route(id, r);
            }
            Destination::Scout(m) => {
                let outcome = match self.servers[id as usize].scout.as_mut() {
                    Some(s) => s.respond_p1b(m),
                    None => return,
                };
                match outcome {
                    scout::Outcome::Pending => {}
                    scout::Outcome::Adopted(ps) => {
                        self.servers[id as usize].scout = None;
                        let acts = self.servers[id as usize].leader.respond_adopt(ps);
                        self.persist(id);
                        self.leader_actions(id, acts);
                    }
                    scout::Outcome::Preempted(b) => {
                        self.servers[id as usize].scout = None;
                        self.preempted(id, b);
                    }
                }
            }
            Destination::Commander(cid, m) => {
                let outcome = match self.servers[id as usize].commanders.get_mut(&cid) {
                    Some(c) => c.respond_p2b(m),
                    None => return,
                };
                match outcome {
                    commander::Outcome::Pending => {}
                    commander::Outcome::Decided(p) => {
                        self.servers[id as usize].commanders.remove(&cid);
                        let ids = self.decided.entry(p.slot).or_default();
                        let key = (p.command.id.client_id, p.command.id.local_id);
                        if !ids.contains(&key) {
                            ids.push(key);
                        }
                        let peers: Vec<u64> = (0..self.n).filter(|&x| x != id).collect();
                        for r in broadcast(id, &peers, &In::Decision(p)) {
                            self.route(id, r);
                        }
                    }
                    commander::Outcome::Preempted(b) => {
                        self.servers[id as usize].commanders.remove(&cid);
                        self.preempted(id, b);
                    }
                }
            }
            Destination::Replica(replica::In::Decision(p)) => {
                let acts = self.servers[id as usize].replica.respond_decision(p);
                self.persist(id);
                self.replica_actions(id, acts);
            }
            Destination::Replica(replica::In::Request(c)) => {
                let acts = self.servers[id as usize].replica.respond_request(c);
                self.persist(id);
                self.replica_actions(id, acts);
            }
            Destination::Dropped => {}
        }
    }

    fn step(&mut self) -> bool {
        let Reverse((t, k)) = match self.queue.pop() {
            Some(x) => x,
            None => return false,
        };
        self.now = t;
        let e = self.events.remove(&k).unwrap();
        match e {
            Event::Deliver(to, m) => {
                if self.servers[to as usize].up {
                    let d = paxos::shared::forward(m);
                    self.dispatch(to, d);
                }
            }
            Event::Local(id, d) => {
                if self.servers[id as usize].up {
                    self.dispatch(id, d);
                }
            }
            Event::ScoutStart(id, ballot, decided) => {
                let s = &mut self.servers[id as usize];
                if s.up && s.leader.ballot == ballot && !s.leader.active {
                    let scout = Scout::new(ballot, self.n, decided);
                    let targets = scout.pending();
                    let m = In::P1A(scout.p1a());
                    s.scout = Some(scout);
                    for r in narrowcast(id, &targets, &m) {
                        self.route(id, r);
                    }
                }
            }
            Event::Request(id, c) => {
                if self.servers[id as usize].up {
                    self.dispatch(id, Destination::Replica(replica::In::Request(c)));
                }
            }
            Event::Retry(id) => {
                if self.servers[id as usize].up {
                    let mut sends = Vec::new();
                    if let Some(s) = &self.servers[id as usize].scout {
                        sends.extend(narrowcast(id, &s.pending(), &In::P1A(s.p1a())));
                    }
                    for c in self.servers[id as usize].commanders.values() {
                        let (cid, pv) = c.p2a();
                        sends.extend(narrowcast(id, &c.pending(), &In::P2A(cid, pv)));
                    }
                    for r in sends {
                        self.route(id, r);
                    }
                }
                self.at(RETRY_MS, Event::Retry(id));
            }
        }
        true
    }

    fn run_for(&mut self, ms: u64) {
        let end = self.now + ms;
        while let Some(Reverse((t, _))) = self.queue.peek() {
            if *t > end {
                break;
            }
            self.step();
        }
        self.now = end;
    }

    fn request(&mut self, server: u64, c: Command) {
        self.at(0, Event::Request(server, c));
    }

    fn crash(&mut self, id: u64) {
        let s = &mut self.servers[id as usize];
        s.up = false;
        s.scout = None;
        s.commanders.clear();
    }

    fn restart(&mut self, id: u64) {
        let stable = self.servers[id as usize].stable.take().unwrap();
        let acceptor = Acceptor::restore(id, stable.acceptor);
        let (leader, start) = Leader::with_draw(id, self.n, Some(stable.leader), 5000);
        let (replica, replay) = Replica::restore(&stable.replica);
        let s = &mut self.servers[id as usize];
        s.acceptor = acceptor;
        s.leader = leader;
        s.replica = replica;
        s.state = State::new();
        s.executed.clear();
        s.up = true;
        self.replica_actions(id, replay);
        self.leader_actions(id, vec![start]);
        self.persist(id);
    }

    fn log(&self, id: u64) -> Vec<String> {
        self.servers[id as usize].state.messages.clone()
    }

    fn agreement_holds(&self) -> bool {
        self.decided.values().all(|ids| ids.len() == 1)
    }

    fn leaders_active(&self) -> usize {
        self.servers.iter().filter(|s| s.up && s.leader.active).count()
    }
}

fn is_prefix(a: &[(u64, u64, u64)], b: &[(u64, u64, u64)]) -> bool {
    let n = a.len().min(b.len());
    a[..n] == b[..n]
}

#[test]
fn two_puts_then_get_reads_both() {
    let mut c = Cluster::new(3);
    c.run_for(500);
    c.request(0, put(1, 1, "x"));
    c.run_for(500);
    c.request(0, put(1, 2, "y"));
    c.run_for(500);
    c.request(1, get(2, 1));
    c.run_for(1000);
    let answer: Vec<&Vec<String>> = c.responses.iter().filter(|(cl, _)| *cl == 2).map(|(_, m)| m).collect();
    assert!(!answer.is_empty());
    assert_eq!(*answer[0], vec!["x".to_string(), "y".to_string()]);
    for id in 0..3 {
        assert_eq!(c.log(id), vec!["x".to_string(), "y".to_string()]);
    }
    assert!(c.agreement_holds());
}

#[test]
fn put_survives_crash_of_the_leader() {
    let mut c = Cluster::new(3);
    c.run_for(500);
    assert!(c.leaders_active() >= 1);
    c.request(0, put(1, 1, "a"));
    c.run_for(5);
    c.crash(1);
    c.run_for(3000);
    c.request(2, get(2, 1));
    c.run_for(3000);
    let answer = c.responses.iter().find(|(cl, _)| *cl == 2).map(|(_, m)| m.clone());
    assert!(answer.unwrap().contains(&"a".to_string()));
    assert!(c.agreement_holds());
}

#[test]
fn minority_side_of_partition_catches_up_after_heal() {
    let mut c = Cluster::new(5);
    c.run_for(500);
    c.request(0, put(1, 1, "before"));
    c.run_for(500);
    // Server 0 and one other on one side, three servers on the other.
    for a in [0u64, 1] {
        for b in [2u64, 3, 4] {
            c.cut.push((a, b));
        }
    }
    c.request(3, put(2, 1, "during"));
    c.request(0, put(3, 1, "lost?"));
    c.run_for(5000);
    assert!(c.log(3).contains(&"during".to_string()));
    assert!(!c.log(0).contains(&"during".to_string()));
    c.cut.clear();
    c.run_for(5000);
    let majority = c.servers[3].executed.clone();
    let minority = c.servers[0].executed.clone();
    assert!(minority.iter().any(|e| e.1 == 2));
    assert!(is_prefix(&minority, &majority));
    assert!(c.agreement_holds());
}

#[test]
fn resubmitted_put_is_appended_once() {
    let mut c = Cluster::new(3);
    c.run_for(500);
    c.request(0, put(7, 42, "once"));
    c.request(0, put(7, 42, "once"));
    c.run_for(1000);
    c.request(0, get(8, 1));
    c.run_for(1000);
    let answer = c.responses.iter().find(|(cl, _)| *cl == 8).map(|(_, m)| m.clone()).unwrap();
    assert_eq!(answer, vec!["once".to_string()]);
    assert!(c.agreement_holds());
}

#[test]
fn restarted_server_replays_the_same_log() {
    let mut c = Cluster::new(3);
    c.run_for(500);
    for i in 0..10u64 {
        c.request(i % 3, put(1, i, &format!("m{}", i)));
        c.run_for(200);
    }
    c.run_for(1000);
    let before = c.servers[1].executed.clone();
    assert_eq!(before.len(), 10);
    c.crash(1);
    c.run_for(100);
    c.restart(1);
    assert_eq!(c.servers[1].executed, before);
    c.run_for(2000);
    for id in [0u64, 2] {
        assert!(is_prefix(&c.servers[1].executed, &c.servers[id as usize].executed));
        assert!(is_prefix(&c.servers[id as usize].executed, &c.servers[1].executed));
    }
    assert_eq!(c.log(1), c.log(0));
    assert_eq!(c.log(1), c.log(2));
    assert!(c.agreement_holds());
}

#[test]
fn dueling_leaders_settle_and_requests_complete() {
    let mut c = Cluster::new(3);
    // Every leader's first scout starts at nearly the same time.
    for id in 0..3u64 {
        let b = c.servers[id as usize].leader.ballot;
        c.at(0, Event::ScoutStart(id, b, None));
    }
    c.run_for(3000);
    assert!(c.leaders_active() >= 1);
    for i in 0..3u64 {
        c.request(i, put(10 + i, 1, &format!("d{}", i)));
    }
    c.run_for(5000);
    for id in 0..3u64 {
        assert_eq!(c.log(id).len(), 3);
    }
    assert!(c.agreement_holds());
}

#[test]
fn single_server_cluster_decides_alone() {
    let mut c = Cluster::new(1);
    c.run_for(500);
    c.request(0, put(1, 1, "solo"));
    c.run_for(500);
    assert_eq!(c.log(0), vec!["solo".to_string()]);
}
