use paxos::chatroom::{Mode, Response, State};
use paxos::config::Config;
use paxos::message::{Command, Proposal};
use paxos::replica::{Action, Replica};

fn cmd(client: u64, local: u64, payload: &[u8]) -> Command {
    Command::new(client, local, payload.to_vec())
}

fn executed(acts: &[Action]) -> Vec<(u64, u64, u64)> {
    acts.iter()
        .filter_map(|a| match a {
            Action::Execute(s, c) => Some((*s, c.id.client_id, c.id.local_id)),
            _ => None,
        })
        .collect()
}

fn proposed(acts: &[Action]) -> Vec<(u64, u64, u64)> {
    acts.iter()
        .filter_map(|a| match a {
            Action::Propose(p) => Some((p.slot, p.command.id.client_id, p.command.id.local_id)),
            _ => None,
        })
        .collect()
}

#[test]
fn requests_take_consecutive_free_slots() {
    let mut r = Replica::new();
    assert_eq!(proposed(&r.respond_request(cmd(1, 1, b"a"))), vec![(0, 1, 1)]);
    assert_eq!(proposed(&r.respond_request(cmd(1, 2, b"b"))), vec![(1, 1, 2)]);
    // A decision for slot 2 from elsewhere makes the next request skip it.
    r.respond_decision(Proposal { slot: 2, command: cmd(9, 9, b"z") });
    assert_eq!(proposed(&r.respond_request(cmd(1, 3, b"c"))), vec![(3, 1, 3)]);
}

#[test]
fn decisions_execute_in_slot_order() {
    let mut r = Replica::new();
    assert!(executed(&r.respond_decision(Proposal { slot: 2, command: cmd(1, 3, b"") })).is_empty());
    assert!(executed(&r.respond_decision(Proposal { slot: 1, command: cmd(1, 2, b"") })).is_empty());
    let acts = r.respond_decision(Proposal { slot: 0, command: cmd(1, 1, b"") });
    assert_eq!(executed(&acts), vec![(0, 1, 1), (1, 1, 2), (2, 1, 3)]);
    assert_eq!(r.decision_slot, 3);
}

#[test]
fn duplicate_request_is_executed_once() {
    // Client 7 sends two puts carrying the same local id 42.
    let mut r = Replica::new();
    let first = r.respond_request(cmd(7, 42, b"x"));
    assert_eq!(proposed(&first), vec![(0, 7, 42)]);
    let second = r.respond_request(cmd(7, 42, b"x"));
    assert_eq!(proposed(&second), vec![(1, 7, 42)]);
    let a = r.respond_decision(Proposal { slot: 0, command: cmd(7, 42, b"x") });
    let b = r.respond_decision(Proposal { slot: 1, command: cmd(7, 42, b"x") });
    assert_eq!(executed(&a), vec![(0, 7, 42)]);
    assert!(executed(&b).is_empty());
    assert_eq!(r.decision_slot, 2);
    // Once decided, the same request is not even proposed again.
    assert!(r.respond_request(cmd(7, 42, b"x")).is_empty());
}

#[test]
fn displaced_proposal_is_proposed_again() {
    let mut r = Replica::new();
    r.respond_request(cmd(1, 1, b"mine"));
    let acts = r.respond_decision(Proposal { slot: 0, command: cmd(2, 1, b"theirs") });
    assert_eq!(executed(&acts), vec![(0, 2, 1)]);
    assert_eq!(proposed(&acts), vec![(1, 1, 1)]);
}

#[test]
fn repeated_decision_for_a_slot_keeps_the_first() {
    let mut r = Replica::new();
    r.respond_decision(Proposal { slot: 0, command: cmd(1, 1, b"") });
    let acts = r.respond_decision(Proposal { slot: 0, command: cmd(2, 2, b"") });
    assert!(acts.is_empty());
    assert_eq!(r.decisions.get(0).unwrap().id.client_id, 1);
}

#[test]
fn restore_replays_what_was_executed() {
    let mut r = Replica::new();
    let mut log = Vec::new();
    for (s, c, l) in [(0u64, 1u64, 1u64), (1, 2, 1), (2, 1, 1), (3, 3, 1)] {
        log.extend(executed(&r.respond_decision(Proposal { slot: s, command: cmd(c, l, b"") })));
    }
    r.respond_decision(Proposal { slot: 5, command: cmd(4, 4, b"") });
    let rec = r.record();
    let (back, replay) = Replica::restore(&rec);
    assert_eq!(executed(&replay), log);
    assert_eq!(log, vec![(0, 1, 1), (1, 2, 1), (3, 3, 1)]);
    assert_eq!(back.decision_slot, r.decision_slot);
    assert_eq!(back.proposal_slot, r.proposal_slot);
    assert!(back.decisions.contains(5));
}

#[test]
fn chat_log_appends_and_reads() {
    let mut s = State::new();
    assert!(s.execute(0, Mode::Put("x".to_string())).is_none());
    assert!(s.execute(1, Mode::Put("y".to_string())).is_none());
    match s.execute(2, Mode::Get) {
        Some(Response::Messages(m)) => assert_eq!(m, vec!["x".to_string(), "y".to_string()]),
        None => panic!("get answers"),
    }
    assert_eq!(s.messages.len(), 2);
}

#[test]
fn config_defaults_and_ports() {
    let c = Config::new(1, 8080, 3);
    assert_eq!(c.timeout_ms, 1000);
    assert_eq!(c.with_timeout(250).timeout_ms, 250);
    assert_eq!(c.with_timeout(250).id, 1);
    assert_eq!(Config::peer_port(0), Some(20000));
    assert_eq!(Config::peer_port(7), Some(20007));
    assert_eq!(Config::peer_port(45535), Some(65535));
    assert_eq!(Config::peer_port(45536), None);
    assert_eq!(c.others(), vec![0, 2]);
}
