//! Launch parameters of one server.

use vstd::prelude::*;

verus! {

/// Peer port of server 0; server `id` listens for peers on `PEER_PORT_BASE + id`.
pub const PEER_PORT_BASE: u64 = 20000;

/// Default retransmission and ping period, in milliseconds.
pub const DEFAULT_TIMEOUT_MS: u64 = 1000;

/// Defines a single server of a cluster.
#[derive(Clone, Copy, Debug)]
pub struct Config {
    /// Server id, in `0..count`.
    pub id: u64,
    /// Port for client connections.
    pub port: u16,
    /// Number of servers in the cluster.
    pub count: u64,
    /// Retransmission and ping period, in milliseconds.
    pub timeout_ms: u64,
}

impl Config {
    /// Server `id` of a cluster of `count`, taking clients on `port`, with
    /// the default period.
    pub fn new(id: u64, port: u16, count: u64) -> (r: Config)
        ensures
            r == (Config { id, port, count, timeout_ms: DEFAULT_TIMEOUT_MS }),
    {
        Config { id, port, count, timeout_ms: DEFAULT_TIMEOUT_MS }
    }

    /// The same server with another period.
    pub fn with_timeout(self, timeout_ms: u64) -> (r: Config)
        ensures
            r == (Config { timeout_ms, ..self }),
    {
        Config { timeout_ms, ..self }
    }

    /// The peer port of server `id`, if it is a valid port number.
    pub fn peer_port(id: u64) -> (r: Option<u16>)
        ensures
            id + PEER_PORT_BASE <= u16::MAX ==> r == Some((id + PEER_PORT_BASE) as u16),
            id + PEER_PORT_BASE > u16::MAX ==> r is None,
    {
        if id <= u16::MAX as u64 - PEER_PORT_BASE {
            Some((id + PEER_PORT_BASE) as u16)
        } else {
            None
        }
    }

    /// The other servers of the cluster, in increasing order: those this
    /// server dials at startup.
    pub fn others(&self) -> (r: Vec<u64>)
        ensures
            forall|a: u64| r@.contains(a) <==> a < self.count && a != self.id,
            forall|i: int, j: int| 0 <= i < j < r@.len() ==> #[trigger] r@[i] < #[trigger] r@[j],
    {
        let mut r: Vec<u64> = Vec::new();
        let mut i: u64 = 0;
        while i < self.count
            invariant
                i <= self.count,
                forall|a: u64| r@.contains(a) <==> a < i && a != self.id,
                forall|k: int| 0 <= k < r@.len() ==> #[trigger] r@[k] < i,
                forall|k: int, j: int| 0 <= k < j < r@.len() ==> #[trigger] r@[k] < #[trigger] r@[j],
            decreases self.count - i,
        {
            if i != self.id {
                let ghost before = r@;
                r.push(i);
                proof {
                    assert(r@ == before.push(i));
                    assert forall|a: u64| r@.contains(a) <==> a < i + 1 && a != self.id by {
                        if r@.contains(a) && a != i {
                            let k = choose|k: int| 0 <= k < r@.len() && r@[k] == a;
                            assert(before[k] == a);
                            assert(before.contains(a));
                        }
                        if a < i && a != self.id {
                            assert(before.contains(a));
                            let k = choose|k: int| 0 <= k < before.len() && before[k] == a;
                            assert(r@[k] == a);
                        }
                        if a == i {
                            assert(r@[before.len() as int] == a);
                        }
                    }
                }
            }
            i += 1;
        }
        r
    }
}

} // verus!
