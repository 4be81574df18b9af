//! The commander: drives one pvalue to acceptance by a majority of
//! acceptors.

use vstd::prelude::*;

use crate::message::{Ballot, CommanderID, P2B, PValue, Proposal, ProposalView};
use crate::quorum::Quorum;

verus! {

/// What a commander reports once it stops.
#[derive(Debug)]
pub enum Outcome {
    /// Still proposing.
    Pending,
    /// A majority accepted: this decision goes to every replica.
    Decided(Proposal),
    /// An acceptor holds the greater ballot given.
    Preempted(Ballot),
}

/// Functions as command proposer.
pub struct Commander {
    pub id: CommanderID,
    pub pvalue: PValue,
    pub quorum: Quorum,
}

impl Commander {
    pub open spec fn wf(&self) -> bool {
        &&& self.quorum.wf()
        &&& self.quorum.count > 0
        &&& self.id == (CommanderID { ballot: self.pvalue.ballot, slot: self.pvalue.slot })
    }

    /// A commander for `pvalue` among `count` acceptors, none of which has
    /// answered. Its id is the pvalue's ballot and slot.
    pub fn new(pvalue: PValue, count: u64) -> (r: Commander)
        requires
            0 < count <= usize::MAX,
        ensures
            r.wf(),
            r.pvalue@ == pvalue@,
            r.quorum.count == count,
            r.quorum.answered() == 0,
            r.quorum.replied() == Set::<u64>::empty(),
    {
        let id = CommanderID { ballot: pvalue.ballot, slot: pvalue.slot };
        Commander { id, pvalue, quorum: Quorum::new(count) }
    }

    /// The accept request this commander sends.
    pub fn p2a(&self) -> (r: (CommanderID, PValue))
        ensures
            r.0 == self.id,
            r.1@ == self.pvalue@,
    {
        (self.id, self.pvalue.clone())
    }

    /// Acceptors that have not answered: the targets of a retransmission.
    pub fn pending(&self) -> (r: Vec<u64>)
        requires
            self.wf(),
        ensures
            forall|a: u64|
                r@.contains(a) <==> a < self.quorum.count && !self.quorum.replied().contains(a),
    {
        self.quorum.pending()
    }

    /// Handles an accept response. One for this ballot marks the acceptor
    /// answered; once a majority has answered the pvalue's slot and command
    /// are decided. One for a greater ballot preempts the commander. One for
    /// a lower ballot is ignored.
    pub fn respond_p2b(&mut self, m: P2B) -> (r: Outcome)
        requires
            old(self).wf(),
        ensures
            final(self).wf(),
            final(self).id == old(self).id,
            final(self).pvalue@ == old(self).pvalue@,
            final(self).quorum.count == old(self).quorum.count,
            m.ballot == old(self).pvalue.ballot ==> {
                &&& final(self).quorum.replied() == if m.acceptor < old(self).quorum.count {
                    old(self).quorum.replied().insert(m.acceptor)
                } else {
                    old(self).quorum.replied()
                }
                &&& 2 * final(self).quorum.answered() > final(self).quorum.count ==> (
                r matches Outcome::Decided(p) && p@ == (ProposalView {
                    slot: old(self).pvalue.slot,
                    command: old(self).pvalue.command@,
                }))
                &&& !(2 * final(self).quorum.answered() > final(self).quorum.count) ==> r
                    is Pending
            },
            m.ballot != old(self).pvalue.ballot ==> final(self).quorum.replied()
                == old(self).quorum.replied(),
            old(self).pvalue.ballot.spec_lt(m.ballot) ==> r == Outcome::Preempted(m.ballot),
            m.ballot.spec_lt(old(self).pvalue.ballot) ==> r is Pending,
    {
        if m.ballot == self.pvalue.ballot {
            self.quorum.mark(m.acceptor);
            if self.quorum.reached() {
                Outcome::Decided(
                    Proposal { slot: self.pvalue.slot, command: self.pvalue.command.clone() },
                )
            } else {
                Outcome::Pending
            }
        } else if self.pvalue.ballot.lt(m.ballot) {
            Outcome::Preempted(m.ballot)
        } else {
            Outcome::Pending
        }
    }
}

} // verus!
