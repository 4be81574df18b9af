//! A replicated state machine built on Multi-Paxos.
//!
//! Each protocol role is a verified state machine: a step consumes one input
//! and returns the messages and work that the hosting runtime must carry
//! out. The runtime owns sockets, channels, timers and stable storage; the
//! library owns every protocol decision.
//!
//! - `message`: identifiers, ballots, pvalues and protocol messages.
//! - `table`: maps keyed by slot.
//! - `acceptor`: answers prepares and accepts; never lowers its ballot.
//! - `leader`: chooses ballots, runs pmax on adoption, starts commanders.
//! - `quorum`, `scout`, `commander`: majorities for one ballot or pvalue.
//! - `replica`: orders decisions and executes each command at most once.
//! - `peer`, `shared`: the wire message and where each message is delivered.
//! - `safety`: the quorum argument that keeps chosen commands.
//! - `config`: launch parameters; `chatroom`: a sample state machine.

pub mod message;
pub mod table;
pub mod acceptor;
mod random;
pub mod leader;
pub mod quorum;
pub mod scout;
pub mod commander;
pub mod replica;
pub mod peer;
pub mod shared;
pub mod config;
pub mod chatroom;
pub mod safety;
