//! The quorum argument at the heart of Paxos safety: a command accepted by a
//! majority under some ballot is what any later adoption proposes for that
//! slot.

use vstd::prelude::*;
use vstd::set_lib::*;

use crate::leader::{is_pmax, merged};
use crate::message::{Ballot, CommandView, PValueView};

verus! {

/// The acceptors `0..n`.
pub open spec fn acceptors(n: u64) -> Set<u64> {
    Set::new(|a: u64| a < n)
}

/// Whether `q` holds more than half of the acceptors `0..n`.
pub open spec fn is_majority(q: Set<u64>, n: u64) -> bool {
    q.subset_of(acceptors(n)) && 2 * q.len() > n
}

proof fn lemma_acceptors(n: u64)
    ensures
        acceptors(n).finite(),
        acceptors(n).len() == n,
    decreases n,
{
    if n == 0 {
        assert(acceptors(0) =~= Set::<u64>::empty());
    } else {
        let m = (n - 1) as u64;
        lemma_acceptors(m);
        assert(acceptors(n) =~= acceptors(m).insert(m));
    }
}

/// Any two majorities of the same acceptors share an acceptor.
pub proof fn lemma_majorities_intersect(q1: Set<u64>, q2: Set<u64>, n: u64)
    requires
        is_majority(q1, n),
        is_majority(q2, n),
    ensures
        exists|a: u64| q1.contains(a) && q2.contains(a),
{
    lemma_acceptors(n);
    lemma_len_subset(q1, acceptors(n));
    lemma_len_subset(q2, acceptors(n));
    if forall|a: u64| !(q1.contains(a) && q2.contains(a)) {
        assert(q1.disjoint(q2));
        lemma_set_disjoint_lens(q1, q2);
        assert((q1 + q2).subset_of(acceptors(n)));
        lemma_len_subset(q1 + q2, acceptors(n));
        assert(false);
    }
}

/// Adoption keeps a chosen command. Suppose a majority `accepted` of the
/// acceptors `0..n` accepted command `c` for slot `s` under ballot `b`, and
/// a scout collected `collected` from the reports of a majority `answered`.
/// If every acceptor of both majorities reported a pvalue for `s` with a
/// ballot at least `b`, and no collected pvalue for `s` at or above `b`
/// carries another command, then pmax binds `s` to `c`, and so do the
/// leader's proposals after the adoption, whatever they held before.
pub proof fn lemma_adoption_keeps_chosen(
    n: u64,
    s: u64,
    b: Ballot,
    c: CommandView,
    accepted: Set<u64>,
    answered: Set<u64>,
    reports: Map<u64, Set<PValueView>>,
    collected: Set<PValueView>,
    best: Map<u64, PValueView>,
    own: Map<u64, CommandView>,
)
    requires
        is_majority(accepted, n),
        is_majority(answered, n),
        forall|a: u64| #[trigger]
            answered.contains(a) ==> reports.contains_key(a) && reports[a].subset_of(collected),
        forall|a: u64| #[trigger]
            accepted.contains(a) && answered.contains(a) ==> exists|p: PValueView|
                reports[a].contains(p) && p.slot == s && b.spec_le(p.ballot),
        forall|p: PValueView| #[trigger]
            collected.contains(p) && p.slot == s && b.spec_le(p.ballot) ==> p.command == c,
        is_pmax(collected, best),
    ensures
        best.contains_key(s),
        best[s].command == c,
        merged(own, best).contains_key(s),
        merged(own, best)[s] == c,
{
    lemma_majorities_intersect(accepted, answered, n);
    let a = choose|a: u64| accepted.contains(a) && answered.contains(a);
    let p = choose|p: PValueView| reports[a].contains(p) && p.slot == s && b.spec_le(p.ballot);
    assert(collected.contains(p));
    assert(best.contains_key(s));
    let q = best[s];
    assert(p.ballot.spec_le(q.ballot));
    assert(collected.contains(q) && q.slot == s);
    assert(b.spec_le(q.ballot));
    assert(best.map_values(|v: PValueView| v.command).contains_key(s));
}

} // verus!
