//! Identifiers and messages exchanged between the protocol roles.

use vstd::prelude::*;

verus! {

/// Identifies a command by the client that issued it and the client-local
/// sequence number. Two commands with the same identifier are the same
/// request, whatever their payloads.
#[derive(Clone, Copy, Debug, PartialEq, Eq, Structural, Hash)]
pub struct CommandID {
    pub client_id: u64,
    pub local_id: u64,
}

/// Operation to apply to the replicated state machine: an identifier and an
/// opaque payload that the user's state machine interprets.
#[derive(Debug)]
pub struct Command {
    pub id: CommandID,
    pub payload: Vec<u8>,
}

/// Mathematical value of a `Command`.
pub struct CommandView {
    pub id: CommandID,
    pub payload: Seq<u8>,
}

impl View for Command {
    type V = CommandView;

    open spec fn view(&self) -> CommandView {
        CommandView { id: self.id, payload: self.payload@ }
    }
}

impl Command {
    pub fn new(client_id: u64, local_id: u64, payload: Vec<u8>) -> (r: Command)
        ensures
            r@ == (CommandView { id: CommandID { client_id, local_id }, payload: payload@ }),
    {
        Command { id: CommandID { client_id, local_id }, payload }
    }

    /// Whether two commands carry the same identifier.
    pub fn same_id(&self, other: &Command) -> (r: bool)
        ensures
            r == (self.id == other.id),
    {
        self.id == other.id
    }
}

impl Clone for Command {
    fn clone(&self) -> (r: Command)
        ensures
            r@ == self@,
    {
        Command { id: self.id, payload: self.payload.clone() }
    }
}

/// A ballot: a leader-local sequence number and the leader's server id.
/// Ballots are ordered lexicographically, the sequence number first.
#[derive(Clone, Copy, Debug, PartialEq, Eq, Structural, Hash, Default)]
pub struct Ballot {
    pub seq: u64,
    pub leader: u64,
}

impl Ballot {
    /// Strict lexicographic order on ballots.
    pub open spec fn spec_lt(self, other: Ballot) -> bool {
        self.seq < other.seq || (self.seq == other.seq && self.leader < other.leader)
    }

    pub open spec fn spec_le(self, other: Ballot) -> bool {
        self.spec_lt(other) || self == other
    }

    #[verifier::when_used_as_spec(spec_lt)]
    pub fn lt(self, other: Ballot) -> (r: bool)
        ensures
            r == self.spec_lt(other),
    {
        self.seq < other.seq || (self.seq == other.seq && self.leader < other.leader)
    }

    #[verifier::when_used_as_spec(spec_le)]
    pub fn le(self, other: Ballot) -> (r: bool)
        ensures
            r == self.spec_le(other),
    {
        self.lt(other) || self == other
    }

    /// The larger of two ballots.
    pub fn max(self, other: Ballot) -> (r: Ballot)
        ensures
            r == (if self.spec_lt(other) { other } else { self }),
    {
        if self.lt(other) {
            other
        } else {
            self
        }
    }
}

/// Identifies a commander by the ballot it proposes under and its slot.
#[derive(Clone, Copy, Debug, PartialEq, Eq, Structural, Hash, Default)]
pub struct CommanderID {
    pub ballot: Ballot,
    pub slot: u64,
}

/// A proposed binding of a command to a slot under a ballot.
#[derive(Debug)]
pub struct PValue {
    pub slot: u64,
    pub ballot: Ballot,
    pub command: Command,
}

pub struct PValueView {
    pub slot: u64,
    pub ballot: Ballot,
    pub command: CommandView,
}

impl View for PValue {
    type V = PValueView;

    open spec fn view(&self) -> PValueView {
        PValueView { slot: self.slot, ballot: self.ballot, command: self.command@ }
    }
}

impl Clone for PValue {
    fn clone(&self) -> (r: PValue)
        ensures
            r@ == self@,
    {
        PValue { slot: self.slot, ballot: self.ballot, command: self.command.clone() }
    }
}

/// A decided (or requested) binding of a command to a slot.
#[derive(Debug)]
pub struct Proposal {
    pub slot: u64,
    pub command: Command,
}

pub struct ProposalView {
    pub slot: u64,
    pub command: CommandView,
}

impl View for Proposal {
    type V = ProposalView;

    open spec fn view(&self) -> ProposalView {
        ProposalView { slot: self.slot, command: self.command@ }
    }
}

impl Clone for Proposal {
    fn clone(&self) -> (r: Proposal)
        ensures
            r@ == self@,
    {
        Proposal { slot: self.slot, command: self.command.clone() }
    }
}

/// Prepare request from a scout: its ballot, and the highest slot that its
/// leader knows to be decided, if any.
#[derive(Clone, Copy, Debug, PartialEq, Eq, Structural)]
pub struct P1A {
    pub ballot: Ballot,
    pub decided: Option<u64>,
}

/// Prepare response from an acceptor: its id, its highest ballot, and the
/// pvalues it has accepted.
#[derive(Debug)]
pub struct P1B {
    pub acceptor: u64,
    pub ballot: Ballot,
    pub pvalues: Vec<PValue>,
}

impl Clone for P1B {
    fn clone(&self) -> (r: P1B)
        ensures
            r.acceptor == self.acceptor,
            r.ballot == self.ballot,
            pvalues_view(r.pvalues@) == pvalues_view(self.pvalues@),
    {
        P1B { acceptor: self.acceptor, ballot: self.ballot, pvalues: clone_pvalues(&self.pvalues) }
    }
}

/// Accept response from an acceptor: its id and its highest ballot.
#[derive(Clone, Copy, Debug, PartialEq, Eq, Structural)]
pub struct P2B {
    pub acceptor: u64,
    pub ballot: Ballot,
}

/// The values of a sequence of proposals.
pub open spec fn proposals_view(s: Seq<Proposal>) -> Seq<ProposalView> {
    s.map_values(|p: Proposal| p@)
}

/// The values of a sequence of pvalues.
pub open spec fn pvalues_view(s: Seq<PValue>) -> Seq<PValueView> {
    s.map_values(|p: PValue| p@)
}

/// Copies a vector of pvalues element by element.
pub fn clone_pvalues(v: &Vec<PValue>) -> (r: Vec<PValue>)
    ensures
        pvalues_view(r@) == pvalues_view(v@),
{
    let mut r: Vec<PValue> = Vec::new();
    let mut i: usize = 0;
    while i < v.len()
        invariant
            i <= v.len(),
            pvalues_view(r@) == pvalues_view(v@.take(i as int)),
        decreases v.len() - i,
    {
        let ghost before = r@;
        r.push(v[i].clone());
        proof {
            assert(v@.take(i as int + 1) == v@.take(i as int).push(v@[i as int]));
            assert(pvalues_view(r@) =~= pvalues_view(before).push(v@[i as int]@));
            assert(pvalues_view(v@.take(i as int + 1)) =~= pvalues_view(v@.take(i as int)).push(
                v@[i as int]@,
            ));
        }
        i += 1;
    }
    proof {
        assert(v@.take(v.len() as int) == v@);
    }
    r
}

} // verus!
