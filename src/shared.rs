//! Routing of messages within a server and between servers.

use vstd::prelude::*;

use crate::acceptor;
use crate::message::{CommanderID, P1B, P2B};
use crate::peer::{In, InView};
use crate::replica;

verus! {

/// The role on this server that a message goes to.
#[derive(Debug)]
pub enum Destination {
    Acceptor(acceptor::In),
    Scout(P1B),
    Commander(CommanderID, P2B),
    Replica(replica::In),
    /// Pings are only for liveness and go nowhere.
    Dropped,
}

/// Where one send goes: to a role of this server, or to a remote server.
#[derive(Debug)]
pub enum Route {
    Local(Destination),
    Remote(u64, In),
}

/// Delivers a peer message within this server: prepares and accepts to the
/// acceptor, prepare responses to the scout, accept responses to the
/// commander they name, decisions to the replica; pings are dropped.
pub fn forward(m: In) -> (r: Destination)
    ensures
        match m {
            In::P1A(x) => r == Destination::Acceptor(acceptor::In::P1A(x)),
            In::P1B(x) => r == Destination::Scout(x),
            In::P2A(c, p) => r == Destination::Acceptor(acceptor::In::P2A(c, p)),
            In::P2B(c, x) => r == Destination::Commander(c, x),
            In::Decision(p) => r == Destination::Replica(replica::In::Decision(p)),
            In::Ping(_) => r == Destination::Dropped,
        },
{
    match m {
        In::P1A(x) => Destination::Acceptor(acceptor::In::P1A(x)),
        In::P1B(x) => Destination::Scout(x),
        In::P2A(c, p) => Destination::Acceptor(acceptor::In::P2A(c, p)),
        In::P2B(c, x) => Destination::Commander(c, x),
        In::Decision(p) => Destination::Replica(replica::In::Decision(p)),
        In::Ping(_) => Destination::Dropped,
    }
}

/// Whether `r` delivers `m` to server `to`, seen from server `self_id`:
/// locally, as `forward` does, when `to` is this server.
pub open spec fn routes(self_id: u64, to: u64, m: InView, r: Route) -> bool {
    if to == self_id {
        match r {
            Route::Local(d) => local_delivery(m, d),
            _ => false,
        }
    } else {
        match r {
            Route::Remote(id, x) => id == to && x@ == m,
            _ => false,
        }
    }
}

/// Whether `d` is where `forward` puts a message with value `m`.
pub open spec fn local_delivery(m: InView, d: Destination) -> bool {
    match (m, d) {
        (InView::P1A(x), Destination::Acceptor(acceptor::In::P1A(y))) => x == y,
        (InView::P1B(x), Destination::Scout(y)) => x.acceptor == y.acceptor && x.ballot
            == y.ballot && x.pvalues == crate::message::pvalues_view(y.pvalues@),
        (InView::P2A(c, p), Destination::Acceptor(acceptor::In::P2A(e, q))) => c == e && p == q@,
        (InView::P2B(c, x), Destination::Commander(e, y)) => c == e && x == y,
        (InView::Decision(p), Destination::Replica(replica::In::Decision(q))) => p == q@,
        (InView::Ping(_), Destination::Dropped) => true,
        _ => false,
    }
}

/// Whether `r` delivers `m` to one of the servers `peers` other than
/// `self_id`.
pub open spec fn reaches_peer(self_id: u64, peers: Seq<u64>, m: InView, r: Route) -> bool {
    exists|j: int| 0 <= j < peers.len() && peers[j] != self_id && routes(self_id, peers[j], m, r)
}

/// Sends `m` to server `to`. A send to this server itself is delivered
/// locally, which a single-server cluster and a leader's own acceptor
/// rely on.
pub fn send(self_id: u64, to: u64, m: In) -> (r: Route)
    ensures
        routes(self_id, to, m@, r),
{
    if to == self_id {
        Route::Local(forward(m))
    } else {
        Route::Remote(to, m)
    }
}

/// Sends a copy of `m` to each of the servers `ids`.
pub fn narrowcast(self_id: u64, ids: &Vec<u64>, m: &In) -> (r: Vec<Route>)
    ensures
        r@.len() == ids@.len(),
        forall|i: int| 0 <= i < ids@.len() ==> routes(self_id, ids@[i], m@, #[trigger] r@[i]),
{
    let mut r: Vec<Route> = Vec::new();
    let mut i: usize = 0;
    while i < ids.len()
        invariant
            i <= ids@.len(),
            r@.len() == i,
            forall|k: int| 0 <= k < i ==> routes(self_id, ids@[k], m@, #[trigger] r@[k]),
        decreases ids@.len() - i,
    {
        r.push(send(self_id, ids[i], m.clone()));
        i += 1;
    }
    r
}

/// Sends a copy of `m` to each connected peer `peers` other than this
/// server, and delivers `m` locally.
pub fn broadcast(self_id: u64, peers: &Vec<u64>, m: &In) -> (r: Vec<Route>)
    ensures
        r@.len() >= 1,
        routes(self_id, self_id, m@, r@.last()),
        forall|i: int| 0 <= i < r@.len() - 1 ==> reaches_peer(self_id, peers@, m@, #[trigger] r@[i]),
        forall|j: int|
            0 <= j < peers@.len() && peers@[j] != self_id ==> exists|i: int|
                0 <= i < r@.len() - 1 && routes(self_id, #[trigger] peers@[j], m@, r@[i]),
{
    let mut r: Vec<Route> = Vec::new();
    let ghost mut pos: Seq<int> = Seq::empty();
    let mut i: usize = 0;
    while i < peers.len()
        invariant
            i <= peers@.len(),
            pos.len() == r@.len(),
            forall|k: int|
                0 <= k < r@.len() ==> 0 <= #[trigger] pos[k] < peers@.len() && peers@[pos[k]]
                    != self_id && routes(
                    self_id,
                    peers@[pos[k]],
                    m@,
                    r@[k],
                ),
            forall|j: int|
                0 <= j < i && peers@[j] != self_id ==> exists|k: int|
                    0 <= k < r@.len() && routes(self_id, #[trigger] peers@[j], m@, r@[k]),
        decreases peers@.len() - i,
    {
        let id = peers[i];
        if id != self_id {
            let ghost before = r@;
            r.push(Route::Remote(id, m.clone()));
            proof {
                pos = pos.push(i as int);
                assert forall|k: int| 0 <= k < before.len() implies r@[k] == before[k] by {}
                assert(routes(self_id, peers@[i as int], m@, r@[before.len() as int]));
                assert forall|j: int|
                    0 <= j < i + 1 && peers@[j] != self_id implies exists|k: int|
                        0 <= k < r@.len() && routes(self_id, #[trigger] peers@[j], m@, r@[k]) by {
                    if j < i {
                        let k = choose|k: int|
                            0 <= k < before.len() && routes(self_id, peers@[j], m@, before[k]);
                        assert(r@[k] == before[k]);
                    } else {
                        assert(routes(self_id, peers@[j], m@, r@[before.len() as int]));
                    }
                }
            }
        }
        i += 1;
    }
    let ghost remote = r@;
    r.push(send(self_id, self_id, m.clone()));
    proof {
        assert forall|k: int| 0 <= k < r@.len() - 1 implies r@[k] == remote[k] by {}
        assert forall|k: int| 0 <= k < r@.len() - 1 implies reaches_peer(
            self_id,
            peers@,
            m@,
            #[trigger] r@[k],
        ) by {
            assert(r@[k] == remote[k]);
            assert(0 <= pos[k] < peers@.len() && peers@[pos[k]] != self_id);
            assert(routes(self_id, peers@[pos[k]], m@, r@[k]));
        }
        assert forall|j: int|
            0 <= j < peers@.len() && peers@[j] != self_id implies exists|k: int|
                0 <= k < r@.len() - 1 && routes(self_id, #[trigger] peers@[j], m@, r@[k]) by {
            let k = choose|k: int| 0 <= k < remote.len() && routes(self_id, peers@[j], m@, remote[k]);
            assert(r@[k] == remote[k]);
        }
    }
    r
}

} // verus!
