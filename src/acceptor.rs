//! The acceptor: Paxos's distributed memory. It answers prepare requests
//! (P1A) and accept requests (P2A) and never lowers its highest ballot.

use vstd::prelude::*;

use crate::message::{Ballot, CommanderID, P1A, P1B, P2B, PValue, PValueView, pvalues_view};
use crate::table::SlotTable;

verus! {

/// Requests an acceptor handles: prepares from scouts and accepts from
/// commanders.
#[derive(Debug)]
pub enum In {
    P1A(P1A),
    P2A(CommanderID, PValue),
}

/// Mathematical state of an acceptor: its highest ballot and the pvalue it
/// accepted last for each slot.
pub struct AcceptorView {
    pub ballot: Ballot,
    pub accepted: Map<u64, PValueView>,
}

/// The acceptor's state after a prepare request.
pub open spec fn after_p1a(a: AcceptorView, m: P1A) -> AcceptorView {
    AcceptorView {
        ballot: if a.ballot.spec_lt(m.ballot) { m.ballot } else { a.ballot },
        accepted: a.accepted,
    }
}

/// Whether an accept request for `p` is taken.
pub open spec fn takes(a: AcceptorView, p: PValueView) -> bool {
    a.ballot.spec_le(p.ballot)
}

/// The acceptor's state after an accept request.
pub open spec fn after_p2a(a: AcceptorView, p: PValueView) -> AcceptorView {
    if takes(a, p) {
        AcceptorView { ballot: p.ballot, accepted: a.accepted.insert(p.slot, p) }
    } else {
        a
    }
}

/// Whether a pvalue for `slot` is reported to a scout whose leader knows
/// the decisions up to `decided`.
pub open spec fn reported(slot: u64, decided: Option<u64>) -> bool {
    match decided {
        Some(d) => slot > d,
        None => true,
    }
}

/// The pvalues a prepare response carries.
pub open spec fn report(accepted: Map<u64, PValueView>, decided: Option<u64>) -> Set<PValueView> {
    Set::new(
        |p: PValueView|
            accepted.contains_key(p.slot) && accepted[p.slot] == p && reported(p.slot, decided),
    )
}

/// Abstract input of an acceptor.
pub enum Request {
    Prepare(P1A),
    Accept(PValueView),
}

pub open spec fn step(a: AcceptorView, r: Request) -> AcceptorView {
    match r {
        Request::Prepare(m) => after_p1a(a, m),
        Request::Accept(p) => after_p2a(a, p),
    }
}

/// The state reached from `a` after the given inputs.
pub open spec fn run(a: AcceptorView, rs: Seq<Request>) -> AcceptorView
    decreases rs.len(),
{
    if rs.len() == 0 {
        a
    } else {
        step(run(a, rs.drop_last()), rs.last())
    }
}

/// Across any sequence of prepare and accept requests, the acceptor's
/// highest ballot never decreases: the state after a prefix of the inputs
/// has a ballot no greater than the state after any longer prefix.
pub proof fn lemma_ballot_never_decreases(a: AcceptorView, rs: Seq<Request>, i: int, j: int)
    requires
        0 <= i <= j <= rs.len(),
    ensures
        run(a, rs.take(i)).ballot.spec_le(run(a, rs.take(j)).ballot),
    decreases j - i,
{
    if i < j {
        lemma_ballot_never_decreases(a, rs, i, j - 1);
        assert(rs.take(j).drop_last() == rs.take(j - 1));
    }
}

/// Every stored pvalue sits under its slot with a ballot no greater than
/// the acceptor's highest ballot.
pub open spec fn consistent_state(a: AcceptorView) -> bool {
    forall|s: u64| #[trigger]
        a.accepted.contains_key(s) ==> a.accepted[s].slot == s && a.accepted[s].ballot.spec_le(
            a.ballot,
        )
}

proof fn lemma_step_keeps(a: AcceptorView, r: Request, s: u64, b: Ballot)
    requires
        consistent_state(a),
    ensures
        consistent_state(step(a, r)),
        a.accepted.contains_key(s) && b.spec_le(a.accepted[s].ballot) ==> step(
            a,
            r,
        ).accepted.contains_key(s) && b.spec_le(step(a, r).accepted[s].ballot),
{
}

/// Once an acceptor stores a pvalue for slot `s` with a ballot at least
/// `b`, it stores one forever after, whatever requests follow; so every
/// later prepare response that covers `s` reports one.
pub proof fn lemma_accepted_ballot_kept(
    a: AcceptorView,
    rs: Seq<Request>,
    i: int,
    j: int,
    s: u64,
    b: Ballot,
)
    requires
        consistent_state(a),
        0 <= i <= j <= rs.len(),
        run(a, rs.take(i)).accepted.contains_key(s),
        b.spec_le(run(a, rs.take(i)).accepted[s].ballot),
    ensures
        run(a, rs.take(j)).accepted.contains_key(s),
        b.spec_le(run(a, rs.take(j)).accepted[s].ballot),
        consistent_state(run(a, rs.take(j))),
        forall|d: Option<u64>|
            reported(s, d) ==> #[trigger] report(run(a, rs.take(j)).accepted, d).contains(
                run(a, rs.take(j)).accepted[s],
            ),
    decreases j,
{
    if j > i {
        lemma_accepted_ballot_kept(a, rs, i, j - 1, s, b);
        assert(rs.take(j).drop_last() == rs.take(j - 1));
        lemma_step_keeps(run(a, rs.take(j - 1)), rs[j - 1], s, b);
    } else {
        lemma_consistent_run(a, rs.take(i));
    }
}

proof fn lemma_consistent_run(a: AcceptorView, rs: Seq<Request>)
    requires
        consistent_state(a),
    ensures
        consistent_state(run(a, rs)),
    decreases rs.len(),
{
    if rs.len() > 0 {
        lemma_consistent_run(a, rs.drop_last());
        lemma_step_keeps(run(a, rs.drop_last()), rs.last(), 0, Ballot { seq: 0, leader: 0 });
    }
}

/// The map that loading the given pvalues in order builds: each pvalue
/// under its slot, a later one replacing an earlier one.
pub open spec fn load_map(ps: Seq<PValueView>) -> Map<u64, PValueView>
    decreases ps.len(),
{
    if ps.len() == 0 {
        Map::empty()
    } else {
        load_map(ps.drop_last()).insert(ps.last().slot, ps.last())
    }
}

/// The values of a table's entries, in entry order.
pub open spec fn entry_values(t: SlotTable<PValue>) -> Seq<PValueView> {
    t.entries@.map_values(|e: (u64, PValue)| e.1@)
}

proof fn lemma_load_prefix(a: Acceptor, n: int)
    requires
        a.wf(),
        0 <= n <= a.accepted.entries@.len(),
    ensures
        forall|k: u64| #[trigger]
            load_map(entry_values(a.accepted).take(n)).contains_key(k) <==> exists|j: int|
                0 <= j < n && a.accepted.entries@[j].0 == k,
        forall|j: int|
            0 <= j < n ==> load_map(entry_values(a.accepted).take(n))[#[trigger] a.accepted.entries@[j].0]
                == a.accepted.entries@[j].1@,
    decreases n,
{
    let es = a.accepted.entries@;
    let vs = entry_values(a.accepted);
    if n > 0 {
        lemma_load_prefix(a, n - 1);
        assert(vs.take(n).drop_last() == vs.take(n - 1));
        a.accepted.lemma_entry(n - 1);
        assert(vs.take(n).last() == es[n - 1].1@);
        assert(es[n - 1].1@.slot == es[n - 1].0);
        assert forall|k: u64| #[trigger]
            load_map(vs.take(n)).contains_key(k) <==> exists|j: int| 0 <= j < n && es[j].0 == k by {
            if load_map(vs.take(n)).contains_key(k) && k != es[n - 1].0 {
                assert(load_map(vs.take(n - 1)).contains_key(k));
            }
            if exists|j: int| 0 <= j < n && es[j].0 == k {
                let j = choose|j: int| 0 <= j < n && es[j].0 == k;
                if j < n - 1 {
                    assert(load_map(vs.take(n - 1)).contains_key(k));
                }
            }
        }
    }
}

/// Restoring an acceptor from the record it exports gives back the same
/// highest ballot and the same accepted pvalues: what is saved is what is
/// loaded.
pub proof fn lemma_record_round_trip(a: Acceptor, rec: AcceptorRecord)
    requires
        a.wf(),
        rec.ballot == a.ballot,
        pvalues_view(rec.accepted@) == entry_values(a.accepted),
    ensures
        load_map(pvalues_view(rec.accepted@)) == a.accepted@,
        rec.ballot == a@.ballot,
{
    let n = a.accepted.entries@.len() as int;
    lemma_load_prefix(a, n);
    let vs = entry_values(a.accepted);
    assert(vs.take(n) == vs);
    let m = load_map(vs);
    assert forall|k: u64| m.contains_key(k) <==> a.accepted@.contains_key(k) by {
        if a.accepted@.contains_key(k) {
            a.accepted.lemma_lookup(k);
            assert(m.contains_key(a.accepted.entries@[a.accepted.index_of(k)].0));
        }
        if m.contains_key(k) {
            let j = choose|j: int| 0 <= j < n && a.accepted.entries@[j].0 == k;
            a.accepted.lemma_entry(j);
        }
    }
    assert forall|k: u64| #[trigger] m.contains_key(k) implies m[k] == a.accepted@[k] by {
        a.accepted.lemma_lookup(k);
        let j = a.accepted.index_of(k);
        assert(m[a.accepted.entries@[j].0] == a.accepted.entries@[j].1@);
    }
    assert(m =~= a.accepted@);
}

/// Persistent record of an acceptor.
#[derive(Debug)]
pub struct AcceptorRecord {
    pub ballot: Ballot,
    pub accepted: Vec<PValue>,
}

/// Functions as distributed memory.
#[derive(Debug)]
pub struct Acceptor {
    pub id: u64,
    pub ballot: Ballot,
    pub accepted: SlotTable<PValue>,
}

impl View for Acceptor {
    type V = AcceptorView;

    open spec fn view(&self) -> AcceptorView {
        AcceptorView { ballot: self.ballot, accepted: self.accepted@ }
    }
}

impl Acceptor {
    /// Each stored pvalue sits under its own slot.
    pub open spec fn wf(&self) -> bool {
        &&& self.accepted.wf()
        &&& forall|s: u64| #[trigger]
            self.accepted@.contains_key(s) ==> self.accepted@[s].slot == s
    }

    /// A fresh acceptor: ballot ⟨0, id⟩ and nothing accepted.
    pub fn new(id: u64) -> (r: Acceptor)
        ensures
            r.wf(),
            r.id == id,
            r@.ballot == (Ballot { seq: 0, leader: id }),
            r@.accepted == Map::<u64, PValueView>::empty(),
    {
        Acceptor { id, ballot: Ballot { seq: 0, leader: id }, accepted: SlotTable::new() }
    }

    /// Handles a prepare request: raises the highest ballot to the request's
    /// if it is greater, and answers with the accepted pvalues for the slots
    /// above the request's decided slot.
    pub fn send_p1a(&mut self, m: P1A) -> (r: P1B)
        requires
            old(self).wf(),
        ensures
            final(self).wf(),
            final(self).id == old(self).id,
            final(self)@ == after_p1a(old(self)@, m),
            r.acceptor == old(self).id,
            r.ballot == final(self).ballot,
            pvalues_view(r.pvalues@).to_set() == report(final(self)@.accepted, m.decided),
            forall|i: int, j: int|
                0 <= i < j < r.pvalues@.len() ==> #[trigger] r.pvalues@[i].slot
                    != #[trigger] r.pvalues@[j].slot,
    {
        self.ballot = self.ballot.max(m.ballot);
        let mut pvalues: Vec<PValue> = Vec::new();
        let n = self.accepted.entries.len();
        let ghost mut idx: Seq<int> = Seq::empty();
        let mut i: usize = 0;
        while i < n
            invariant
                self.wf(),
                n == self.accepted.entries@.len(),
                i <= n,
                idx.len() == pvalues@.len(),
                forall|k: int| 0 <= k < idx.len() ==> 0 <= #[trigger] idx[k] < i,
                forall|k: int, l: int| 0 <= k < l < idx.len() ==> #[trigger] idx[k] < #[trigger] idx[l],
                forall|k: int| 0 <= k < idx.len() ==> #[trigger] pvalues@[k]@
                    == self.accepted.entries@[idx[k]].1@ && reported(
                    self.accepted.entries@[idx[k]].0,
                    m.decided,
                ),
                forall|j: int|
                    0 <= j < i && reported(#[trigger] self.accepted.entries@[j].0, m.decided)
                        ==> exists|k: int| 0 <= k < idx.len() && idx[k] == j,
            decreases n - i,
        {
            let slot = self.accepted.entries[i].0;
            let keep = match m.decided {
                Some(d) => slot > d,
                None => true,
            };
            let ghost before = pvalues@;
            let ghost old_idx = idx;
            if keep {
                pvalues.push(self.accepted.entries[i].1.clone());
                proof {
                    idx = idx.push(i as int);
                    assert(idx[idx.len() - 1] == i as int);
                    assert(reported(self.accepted.entries@[i as int].0, m.decided));
                    assert(pvalues@[idx.len() - 1]@ == self.accepted.entries@[i as int].1@);
                    assert forall|k: int| 0 <= k < idx.len() implies #[trigger] pvalues@[k]@
                        == self.accepted.entries@[idx[k]].1@ && reported(
                        self.accepted.entries@[idx[k]].0,
                        m.decided,
                    ) by {
                        if k < before.len() {
                            assert(pvalues@[k] == before[k]);
                            assert(idx[k] == old_idx[k]);
                            assert(before[k]@ == self.accepted.entries@[old_idx[k]].1@);
                        }
                    }
                    assert forall|k: int| 0 <= k < before.len() implies pvalues@[k] == before[k]
                        && idx[k] == old_idx[k] by {}
                }
            }
            proof {
                assert forall|j: int|
                    0 <= j < i + 1 && reported(
                        #[trigger] self.accepted.entries@[j].0,
                        m.decided,
                    ) implies exists|k: int| 0 <= k < idx.len() && idx[k] == j by {
                    if j < i {
                        let k = choose|k: int| 0 <= k < old_idx.len() && old_idx[k] == j;
                        assert(idx[k] == j);
                    } else {
                        assert(idx[idx.len() - 1] == j);
                    }
                }
            }
            i += 1;
        }
        proof {
            let acc = self.accepted;
            assert forall|k: int| 0 <= k < idx.len() implies #[trigger] pvalues@[k].slot
                == acc.entries@[idx[k]].0 by {
                acc.lemma_entry(idx[k]);
                assert(pvalues@[k]@ == acc.entries@[idx[k]].1@);
                assert(acc@.contains_key(acc.entries@[idx[k]].0));
            }
            let got = pvalues_view(pvalues@).to_set();
            let want = report(self@.accepted, m.decided);
            assert forall|p: PValueView| got.contains(p) <==> want.contains(p) by {
                if got.contains(p) {
                    let k = choose|k: int| 0 <= k < pvalues@.len() && pvalues_view(pvalues@)[k] == p;
                    acc.lemma_entry(idx[k]);
                }
                if want.contains(p) {
                    acc.lemma_lookup(p.slot);
                    let j = acc.index_of(p.slot);
                    let k = choose|k: int| 0 <= k < idx.len() && idx[k] == j;
                    assert(pvalues_view(pvalues@)[k] == p);
                }
            }
            assert(got =~= want);
            assert forall|a: int, b: int| 0 <= a < b < pvalues@.len() implies #[trigger] pvalues@[a].slot
                != #[trigger] pvalues@[b].slot by {
                assert(idx[a] < idx[b]);
            }
        }
        P1B { acceptor: self.id, ballot: self.ballot, pvalues }
    }

    /// Handles an accept request: takes the pvalue if its ballot is at least
    /// the highest ballot, and answers with the highest ballot.
    pub fn send_p2a(&mut self, p: PValue) -> (r: P2B)
        requires
            old(self).wf(),
        ensures
            final(self).wf(),
            final(self).id == old(self).id,
            final(self)@ == after_p2a(old(self)@, p@),
            r == (P2B { acceptor: old(self).id, ballot: final(self).ballot }),
    {
        if self.ballot.le(p.ballot) {
            self.ballot = p.ballot;
            let slot = p.slot;
            self.accepted.insert(slot, p);
        }
        P2B { acceptor: self.id, ballot: self.ballot }
    }

    /// The record to persist.
    pub fn record(&self) -> (r: AcceptorRecord)
        requires
            self.wf(),
        ensures
            r.ballot == self.ballot,
            pvalues_view(r.accepted@) == entry_values(self.accepted),
    {
        let mut v: Vec<PValue> = Vec::new();
        let mut i: usize = 0;
        while i < self.accepted.entries.len()
            invariant
                i <= self.accepted.entries@.len(),
                pvalues_view(v@) == self.accepted.entries@.take(i as int).map_values(
                    |e: (u64, PValue)| e.1@,
                ),
            decreases self.accepted.entries@.len() - i,
        {
            let ghost before = v@;
            v.push(self.accepted.entries[i].1.clone());
            proof {
                let es = self.accepted.entries@;
                assert(es.take(i as int + 1) == es.take(i as int).push(es[i as int]));
                assert(pvalues_view(v@) =~= pvalues_view(before).push(es[i as int].1@));
                assert(es.take(i as int + 1).map_values(|e: (u64, PValue)| e.1@) =~= es.take(
                    i as int,
                ).map_values(|e: (u64, PValue)| e.1@).push(es[i as int].1@));
            }
            i += 1;
        }
        proof {
            assert(self.accepted.entries@.take(self.accepted.entries@.len() as int)
                == self.accepted.entries@);
        }
        AcceptorRecord { ballot: self.ballot, accepted: v }
    }

    /// An acceptor restored from a persisted record.
    pub fn restore(id: u64, rec: AcceptorRecord) -> (r: Acceptor)
        ensures
            r.wf(),
            r.id == id,
            r@.ballot == rec.ballot,
            r@.accepted == load_map(pvalues_view(rec.accepted@)),
    {
        let mut table: SlotTable<PValue> = SlotTable::new();
        let ghost pv = pvalues_view(rec.accepted@);
        proof {
            assert(pv.take(0) =~= Seq::<PValueView>::empty());
            assert(table@ =~= load_map(pv.take(0)));
        }
        let mut i: usize = 0;
        while i < rec.accepted.len()
            invariant
                i <= rec.accepted@.len(),
                pv == pvalues_view(rec.accepted@),
                table.wf(),
                forall|s: u64| #[trigger] table@.contains_key(s) ==> table@[s].slot == s,
                table@ == load_map(pv.take(i as int)),
            decreases rec.accepted@.len() - i,
        {
            let p = rec.accepted[i].clone();
            proof {
                assert(pv.take(i + 1).drop_last() == pv.take(i as int));
                assert(pv.take(i + 1).last() == p@);
            }
            let slot = p.slot;
            table.insert(slot, p);
            i += 1;
        }
        proof {
            assert(pv.take(rec.accepted@.len() as int) == pv);
        }
        Acceptor { id, ballot: rec.ballot, accepted: table }
    }
}

} // verus!
