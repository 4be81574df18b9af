//! Messages exchanged between servers.

use vstd::prelude::*;

use crate::message::{
    CommanderID, P1A, P1B, P2B, PValue, PValueView, Proposal, ProposalView, pvalues_view,
};

verus! {

/// Messages between scouts, commanders and acceptors, decisions from
/// commanders, and pings that carry the sender's server id.
#[derive(Debug)]
pub enum In {
    P1A(P1A),
    P1B(P1B),
    P2A(CommanderID, PValue),
    P2B(CommanderID, P2B),
    Decision(Proposal),
    Ping(u64),
}

/// Mathematical value of a P1B.
pub struct P1BView {
    pub acceptor: u64,
    pub ballot: crate::message::Ballot,
    pub pvalues: Seq<PValueView>,
}

/// Mathematical value of a peer message.
pub enum InView {
    P1A(P1A),
    P1B(P1BView),
    P2A(CommanderID, PValueView),
    P2B(CommanderID, P2B),
    Decision(ProposalView),
    Ping(u64),
}

impl View for In {
    type V = InView;

    open spec fn view(&self) -> InView {
        match self {
            In::P1A(m) => InView::P1A(*m),
            In::P1B(m) => InView::P1B(
                P1BView { acceptor: m.acceptor, ballot: m.ballot, pvalues: pvalues_view(m.pvalues@) },
            ),
            In::P2A(c, p) => InView::P2A(*c, p@),
            In::P2B(c, m) => InView::P2B(*c, *m),
            In::Decision(p) => InView::Decision(p@),
            In::Ping(id) => InView::Ping(*id),
        }
    }
}

impl Clone for In {
    fn clone(&self) -> (r: In)
        ensures
            r@ == self@,
    {
        match self {
            In::P1A(m) => In::P1A(*m),
            In::P1B(m) => In::P1B(m.clone()),
            In::P2A(c, p) => In::P2A(*c, p.clone()),
            In::P2B(c, m) => In::P2B(*c, *m),
            In::Decision(p) => In::Decision(p.clone()),
            In::Ping(id) => In::Ping(*id),
        }
    }
}

} // verus!
