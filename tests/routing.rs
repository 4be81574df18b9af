use paxos::acceptor;
use paxos::message::{Ballot, Command, CommanderID, P1A, P1B, P2B, PValue, Proposal};
use paxos::peer::In;
use paxos::replica;
use paxos::shared::{broadcast, forward, narrowcast, send, Destination, Route};

fn ballot() -> Ballot {
    Ballot { seq: 1, leader: 0 }
}

#[test]
fn forward_follows_the_dispatch_table() {
    let p1a = P1A { ballot: ballot(), decided: None };
    assert!(matches!(forward(In::P1A(p1a)), Destination::Acceptor(acceptor::In::P1A(x)) if x == p1a));
    let p1b = P1B { acceptor: 1, ballot: ballot(), pvalues: Vec::new() };
    assert!(matches!(forward(In::P1B(p1b)), Destination::Scout(x) if x.acceptor == 1));
    let cid = CommanderID { ballot: ballot(), slot: 3 };
    let pv = PValue { slot: 3, ballot: ballot(), command: Command::new(1, 1, vec![]) };
    assert!(matches!(forward(In::P2A(cid, pv)), Destination::Acceptor(acceptor::In::P2A(c, _)) if c == cid));
    let p2b = P2B { acceptor: 2, ballot: ballot() };
    assert!(matches!(forward(In::P2B(cid, p2b)), Destination::Commander(c, x) if c == cid && x == p2b));
    let d = Proposal { slot: 3, command: Command::new(1, 1, vec![]) };
    assert!(matches!(forward(In::Decision(d)), Destination::Replica(replica::In::Decision(p)) if p.slot == 3));
    assert!(matches!(forward(In::Ping(4)), Destination::Dropped));
}

#[test]
fn send_to_self_is_local() {
    let m = In::P2B(CommanderID { ballot: ballot(), slot: 0 }, P2B { acceptor: 0, ballot: ballot() });
    assert!(matches!(send(2, 2, m.clone()), Route::Local(Destination::Commander(_, _))));
    assert!(matches!(send(2, 1, m), Route::Remote(1, In::P2B(_, _))));
}

#[test]
fn narrowcast_reaches_each_listed_server() {
    let m = In::P1A(P1A { ballot: ballot(), decided: Some(2) });
    let routes = narrowcast(0, &vec![0, 1, 2], &m);
    assert_eq!(routes.len(), 3);
    assert!(matches!(routes[0], Route::Local(Destination::Acceptor(_))));
    assert!(matches!(routes[1], Route::Remote(1, _)));
    assert!(matches!(routes[2], Route::Remote(2, _)));
}

#[test]
fn broadcast_reaches_peers_and_self() {
    let m = In::Decision(Proposal { slot: 0, command: Command::new(1, 1, vec![1]) });
    let routes = broadcast(1, &vec![0, 2], &m);
    assert_eq!(routes.len(), 3);
    assert!(matches!(routes[0], Route::Remote(0, _)));
    assert!(matches!(routes[1], Route::Remote(2, _)));
    assert!(matches!(routes[2], Route::Local(Destination::Replica(_))));
}
