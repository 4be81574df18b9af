//! The scout: drives one ballot to adoption by a majority of acceptors,
//! collecting the pvalues they have accepted.

use vstd::prelude::*;

use crate::message::{Ballot, P1A, P1B, PValue, PValueView, pvalues_view};
use crate::quorum::Quorum;

verus! {

/// What a scout reports once it stops.
#[derive(Debug)]
pub enum Outcome {
    /// Still soliciting.
    Pending,
    /// A majority adopted the ballot; these are the pvalues collected.
    Adopted(Vec<PValue>),
    /// An acceptor holds the greater ballot given.
    Preempted(Ballot),
}

/// Competes for adoption of its ballot by a majority of acceptors.
pub struct Scout {
    pub ballot: Ballot,
    /// Highest slot the leader knows to be decided.
    pub decided: Option<u64>,
    pub quorum: Quorum,
    /// Pvalues collected from the acceptors that adopted the ballot.
    pub pvalues: Vec<PValue>,
}

impl Scout {
    pub open spec fn wf(&self) -> bool {
        &&& self.quorum.wf()
        &&& self.quorum.count > 0
    }

    /// The pvalues collected so far.
    pub open spec fn collected(&self) -> Seq<PValueView> {
        pvalues_view(self.pvalues@)
    }

    /// A scout for `ballot` among `count` acceptors, none of which has
    /// answered.
    pub fn new(ballot: Ballot, count: u64, decided: Option<u64>) -> (r: Scout)
        requires
            0 < count <= usize::MAX,
        ensures
            r.wf(),
            r.ballot == ballot,
            r.decided == decided,
            r.quorum.count == count,
            r.quorum.answered() == 0,
            r.quorum.replied() == Set::<u64>::empty(),
            r.collected() == Seq::<PValueView>::empty(),
    {
        let r = Scout { ballot, decided, quorum: Quorum::new(count), pvalues: Vec::new() };
        assert(r.collected() =~= Seq::<PValueView>::empty());
        r
    }

    /// The prepare request this scout sends.
    pub fn p1a(&self) -> (r: P1A)
        ensures
            r == (P1A { ballot: self.ballot, decided: self.decided }),
    {
        P1A { ballot: self.ballot, decided: self.decided }
    }

    /// Acceptors that have not answered: the targets of a retransmission.
    pub fn pending(&self) -> (r: Vec<u64>)
        requires
            self.wf(),
        ensures
            forall|a: u64|
                r@.contains(a) <==> a < self.quorum.count && !self.quorum.replied().contains(a),
    {
        self.quorum.pending()
    }

    /// Handles a prepare response. One for this ballot adds the acceptor's
    /// pvalues and marks it answered; once a majority has answered the
    /// ballot is adopted. One for a greater ballot preempts the scout. One
    /// for a lower ballot is ignored.
    pub fn respond_p1b(&mut self, m: P1B) -> (r: Outcome)
        requires
            old(self).wf(),
        ensures
            final(self).wf(),
            final(self).ballot == old(self).ballot,
            final(self).decided == old(self).decided,
            final(self).quorum.count == old(self).quorum.count,
            m.ballot == old(self).ballot ==> {
                &&& final(self).quorum.replied() == if m.acceptor < old(self).quorum.count {
                    old(self).quorum.replied().insert(m.acceptor)
                } else {
                    old(self).quorum.replied()
                }
                &&& final(self).collected() == old(self).collected() + pvalues_view(m.pvalues@)
                &&& 2 * final(self).quorum.answered() > final(self).quorum.count ==> (
                r matches Outcome::Adopted(ps) && pvalues_view(ps@) == final(self).collected())
                &&& !(2 * final(self).quorum.answered() > final(self).quorum.count) ==> r
                    is Pending
            },
            m.ballot != old(self).ballot ==> final(self).quorum.replied()
                == old(self).quorum.replied() && final(self).collected()
                == old(self).collected(),
            old(self).ballot.spec_lt(m.ballot) ==> r == Outcome::Preempted(m.ballot),
            m.ballot.spec_lt(old(self).ballot) ==> r is Pending,
    {
        if m.ballot == self.ballot {
            let mut incoming = m.pvalues;
            let ghost before = self.pvalues@;
            let ghost added = incoming@;
            self.pvalues.append(&mut incoming);
            proof {
                assert(self.pvalues@ == before + added);
                assert(pvalues_view(self.pvalues@) =~= pvalues_view(before) + pvalues_view(added));
            }
            self.quorum.mark(m.acceptor);
            if self.quorum.reached() {
                let ps = crate::message::clone_pvalues(&self.pvalues);
                Outcome::Adopted(ps)
            } else {
                Outcome::Pending
            }
        } else if self.ballot.lt(m.ballot) {
            Outcome::Preempted(m.ballot)
        } else {
            Outcome::Pending
        }
    }
}

} // verus!
