//! A finite map keyed by slot, kept as a vector of entries with distinct slots.

use vstd::prelude::*;

use crate::message::{Command, CommandView, Proposal, ProposalView, proposals_view};

verus! {

/// Map from slot to value. Entries keep the order in which their slots were
/// first inserted; no two entries share a slot.
#[derive(Debug)]
pub struct SlotTable<V> {
    pub entries: Vec<(u64, V)>,
}

impl<V: View> SlotTable<V> {
    /// Whether some entry holds slot `k`.
    pub open spec fn has(&self, k: u64) -> bool {
        exists|i: int| 0 <= i < self.entries@.len() && #[trigger] self.entries@[i].0 == k
    }

    /// The position of the entry holding slot `k`.
    pub open spec fn index_of(&self, k: u64) -> int {
        choose|i: int| 0 <= i < self.entries@.len() && #[trigger] self.entries@[i].0 == k
    }

    /// No two entries share a slot.
    pub open spec fn wf(&self) -> bool {
        forall|i: int, j: int|
            0 <= i < self.entries@.len() && 0 <= j < self.entries@.len() && i != j
                ==> #[trigger] self.entries@[i].0 != #[trigger] self.entries@[j].0
    }

    /// The slots, in entry order.
    pub open spec fn slots(&self) -> Seq<u64> {
        self.entries@.map_values(|e: (u64, V)| e.0)
    }

    pub proof fn lemma_entry(&self, i: int)
        requires
            self.wf(),
            0 <= i < self.entries@.len(),
        ensures
            self@.contains_key(self.entries@[i].0),
            self.index_of(self.entries@[i].0) == i,
            self@[self.entries@[i].0] == self.entries@[i].1@,
    {
        let k = self.entries@[i].0;
        assert(self.has(k));
    }

    pub proof fn lemma_lookup(&self, k: u64)
        requires
            self.wf(),
            self@.contains_key(k),
        ensures
            0 <= self.index_of(k) < self.entries@.len(),
            self.entries@[self.index_of(k)].0 == k,
            self@[k] == self.entries@[self.index_of(k)].1@,
    {
    }

    pub fn new() -> (r: Self)
        ensures
            r.wf(),
            r@ == Map::<u64, V::V>::empty(),
    {
        let r = SlotTable { entries: Vec::new() };
        assert(r@ =~= Map::<u64, V::V>::empty());
        r
    }

    pub fn len(&self) -> (r: usize)
        requires
            self.wf(),
        ensures
            r == self.entries@.len(),
            r == self@.len(),
    {
        proof {
            self.lemma_len();
        }
        self.entries.len()
    }

    pub proof fn lemma_len(&self)
        requires
            self.wf(),
        ensures
            self@.len() == self.entries@.len(),
            self@.dom() == self.slots().to_set(),
            self.slots().no_duplicates(),
    {
        assert forall|k: u64| self@.dom().contains(k) <==> self.slots().to_set().contains(k) by {
            if self@.dom().contains(k) {
                let i = self.index_of(k);
                assert(self.slots()[i] == k);
            }
            if self.slots().to_set().contains(k) {
                let i = choose|i: int| 0 <= i < self.slots().len() && self.slots()[i] == k;
                assert(self.entries@[i].0 == k);
            }
        }
        assert(self@.dom() =~= self.slots().to_set());
        assert forall|i: int, j: int|
            0 <= i < self.slots().len() && 0 <= j < self.slots().len() && i != j implies
            self.slots()[i] != self.slots()[j] by {
            assert(self.entries@[i].0 != self.entries@[j].0);
        }
        self.slots().unique_seq_to_set();
    }

    /// Position of the entry for `k`, if any.
    pub fn find(&self, k: u64) -> (r: Option<usize>)
        requires
            self.wf(),
        ensures
            r.is_none() == !self@.contains_key(k),
            r matches Some(i) ==> i < self.entries@.len() && self.entries@[i as int].0 == k
                && self.index_of(k) == i,
    {
        let mut i: usize = 0;
        while i < self.entries.len()
            invariant
                self.wf(),
                i <= self.entries@.len(),
                forall|j: int| 0 <= j < i ==> #[trigger] self.entries@[j].0 != k,
            decreases self.entries@.len() - i,
        {
            if self.entries[i].0 == k {
                proof {
                    self.lemma_entry(i as int);
                }
                return Some(i);
            }
            i += 1;
        }
        None
    }

    pub fn contains(&self, k: u64) -> (r: bool)
        requires
            self.wf(),
        ensures
            r == self@.contains_key(k),
    {
        self.find(k).is_some()
    }

    pub fn get(&self, k: u64) -> (r: Option<&V>)
        requires
            self.wf(),
        ensures
            r.is_none() == !self@.contains_key(k),
            r matches Some(v) ==> v@ == self@[k],
    {
        match self.find(k) {
            Some(i) => {
                proof {
                    self.lemma_entry(i as int);
                }
                Some(&self.entries[i].1)
            },
            None => None,
        }
    }

    /// Binds `k` to `v`, replacing any earlier binding.
    pub fn insert(&mut self, k: u64, v: V)
        requires
            old(self).wf(),
        ensures
            final(self).wf(),
            final(self)@ == old(self)@.insert(k, v@),
    {
        let ghost vv = v@;
        match self.find(k) {
            Some(i) => {
                self.entries.set(i, (k, v));
                proof {
                    let o = *old(self);
                    assert forall|j: int| 0 <= j < self.entries@.len() implies
                        #[trigger] self.entries@[j].0 == o.entries@[j].0 by {}
                    assert forall|m: u64| self.has(m) <==> o.has(m) || m == k by {
                        if o.has(m) {
                            let j = o.index_of(m);
                            assert(self.entries@[j].0 == m);
                        }
                        if self.has(m) {
                            let j = self.index_of(m);
                            assert(o.entries@[j].0 == m);
                        }
                    }
                    assert forall|m: u64| #[trigger] self@.contains_key(m) implies self@[m]
                        == o@.insert(k, vv)[m] by {
                        let j = self.index_of(m);
                        self.lemma_entry(j);
                        if m != k {
                            o.lemma_entry(j);
                        }
                    }
                    assert(self@ =~= o@.insert(k, vv));
                }
            },
            None => {
                self.entries.push((k, v));
                proof {
                    let o = *old(self);
                    let n = o.entries@.len() as int;
                    assert forall|j: int| 0 <= j < n implies #[trigger] self.entries@[j]
                        == o.entries@[j] by {}
                    assert forall|m: u64| self.has(m) <==> o.has(m) || m == k by {
                        if o.has(m) {
                            let j = o.index_of(m);
                            assert(self.entries@[j].0 == m);
                        }
                        if self.has(m) && m != k {
                            let j = self.index_of(m);
                            assert(o.entries@[j].0 == m);
                        }
                        if m == k {
                            assert(self.entries@[n].0 == m);
                        }
                    }
                    assert forall|m: u64| #[trigger] self@.contains_key(m) implies self@[m]
                        == o@.insert(k, vv)[m] by {
                        let j = self.index_of(m);
                        self.lemma_entry(j);
                        if m != k {
                            o.lemma_entry(j);
                        }
                    }
                    assert(self@ =~= o@.insert(k, vv));
                }
            },
        }
    }

    /// Removes the binding of `k`, if any.
    pub fn remove(&mut self, k: u64)
        requires
            old(self).wf(),
        ensures
            final(self).wf(),
            final(self)@ == old(self)@.remove(k),
    {
        match self.find(k) {
            Some(i) => {
                let _ = self.entries.remove(i);
                proof {
                    let o = *old(self);
                    let ii = i as int;
                    assert forall|j: int| 0 <= j < self.entries@.len() implies #[trigger] self.entries@[j]
                        == o.entries@[if j < ii { j } else { j + 1 }] by {}
                    assert forall|m: u64| self.has(m) <==> o.has(m) && m != k by {
                        if o.has(m) && m != k {
                            let j = o.index_of(m);
                            assert(j != ii);
                            let jj = if j < ii { j } else { j - 1 };
                            assert(self.entries@[jj].0 == m);
                        }
                        if self.has(m) {
                            let j = self.index_of(m);
                            let jj = if j < ii { j } else { j + 1 };
                            assert(o.entries@[jj].0 == m);
                        }
                    }
                    assert forall|m: u64| #[trigger] self@.contains_key(m) implies self@[m]
                        == o@.remove(k)[m] by {
                        let j = self.index_of(m);
                        self.lemma_entry(j);
                        let jj = if j < ii { j } else { j + 1 };
                        o.lemma_entry(jj);
                    }
                    assert(self@ =~= o@.remove(k));
                }
            },
            None => {
                assert(self@ =~= old(self)@.remove(k));
            },
        }
    }
}

/// The map that inserting the given proposals in order builds, a later
/// proposal for a slot replacing an earlier one.
pub open spec fn load_commands(ps: Seq<ProposalView>) -> Map<u64, CommandView>
    decreases ps.len(),
{
    if ps.len() == 0 {
        Map::empty()
    } else {
        load_commands(ps.drop_last()).insert(ps.last().slot, ps.last().command)
    }
}

proof fn lemma_load_commands_prefix(t: SlotTable<Command>, ps: Seq<ProposalView>, n: int)
    requires
        t.wf(),
        ps.len() == t.entries@.len(),
        forall|i: int|
            0 <= i < ps.len() ==> #[trigger] ps[i] == (ProposalView {
                slot: t.entries@[i].0,
                command: t.entries@[i].1@,
            }),
        0 <= n <= ps.len(),
    ensures
        forall|k: u64| #[trigger]
            load_commands(ps.take(n)).contains_key(k) <==> exists|j: int|
                0 <= j < n && t.entries@[j].0 == k,
        forall|j: int|
            0 <= j < n ==> load_commands(ps.take(n))[#[trigger] t.entries@[j].0] == t.entries@[j].1@,
    decreases n,
{
    let es = t.entries@;
    if n > 0 {
        lemma_load_commands_prefix(t, ps, n - 1);
        assert(ps.take(n).drop_last() == ps.take(n - 1));
        assert(ps.take(n).last() == ps[n - 1]);
        assert forall|k: u64| #[trigger]
            load_commands(ps.take(n)).contains_key(k) <==> exists|j: int| 0 <= j < n && es[j].0 == k by {
            if load_commands(ps.take(n)).contains_key(k) && k != es[n - 1].0 {
                assert(load_commands(ps.take(n - 1)).contains_key(k));
            }
            if exists|j: int| 0 <= j < n && es[j].0 == k {
                let j = choose|j: int| 0 <= j < n && es[j].0 == k;
                if j < n - 1 {
                    assert(load_commands(ps.take(n - 1)).contains_key(k));
                }
            }
        }
    }
}

/// Loading the proposals that a table exports, in order, rebuilds the
/// table's map: a record of proposals is saved and loaded without loss.
pub proof fn lemma_proposals_round_trip(t: SlotTable<Command>, ps: Seq<ProposalView>)
    requires
        t.wf(),
        ps.len() == t.entries@.len(),
        forall|i: int|
            0 <= i < ps.len() ==> #[trigger] ps[i] == (ProposalView {
                slot: t.entries@[i].0,
                command: t.entries@[i].1@,
            }),
    ensures
        load_commands(ps) == t@,
{
    let n = ps.len() as int;
    lemma_load_commands_prefix(t, ps, n);
    assert(ps.take(n) == ps);
    let m = load_commands(ps);
    assert forall|k: u64| m.contains_key(k) <==> t@.contains_key(k) by {
        if t@.contains_key(k) {
            t.lemma_lookup(k);
            assert(m.contains_key(t.entries@[t.index_of(k)].0));
        }
        if m.contains_key(k) {
            let j = choose|j: int| 0 <= j < n && t.entries@[j].0 == k;
            t.lemma_entry(j);
        }
    }
    assert forall|k: u64| #[trigger] m.contains_key(k) implies m[k] == t@[k] by {
        t.lemma_lookup(k);
        let j = t.index_of(k);
        assert(m[t.entries@[j].0] == t.entries@[j].1@);
    }
    assert(m =~= t@);
}

impl SlotTable<Command> {
    /// A table of the given proposals, inserted in order.
    pub fn from_proposals(ps: &Vec<Proposal>) -> (r: SlotTable<Command>)
        ensures
            r.wf(),
            r@ == load_commands(proposals_view(ps@)),
    {
        let mut table: SlotTable<Command> = SlotTable::new();
        let ghost pv = proposals_view(ps@);
        proof {
            assert(pv.take(0) =~= Seq::<ProposalView>::empty());
            assert(table@ =~= load_commands(pv.take(0)));
        }
        let mut i: usize = 0;
        while i < ps.len()
            invariant
                i <= ps@.len(),
                pv == proposals_view(ps@),
                table.wf(),
                table@ == load_commands(pv.take(i as int)),
            decreases ps@.len() - i,
        {
            let p = ps[i].clone();
            proof {
                assert(pv.take(i + 1).drop_last() == pv.take(i as int));
                assert(pv.take(i + 1).last() == p@);
            }
            table.insert(p.slot, p.command);
            i += 1;
        }
        proof {
            assert(pv.take(ps@.len() as int) == pv);
        }
        table
    }

    /// The entries as proposals, in entry order.
    pub fn to_proposals(&self) -> (r: Vec<Proposal>)
        requires
            self.wf(),
        ensures
            r@.len() == self.entries@.len(),
            forall|i: int|
                0 <= i < r@.len() ==> (#[trigger] r@[i])@ == (ProposalView {
                    slot: self.entries@[i].0,
                    command: self.entries@[i].1@,
                }),
    {
        let mut r: Vec<Proposal> = Vec::new();
        let mut i: usize = 0;
        while i < self.entries.len()
            invariant
                i <= self.entries@.len(),
                r@.len() == i,
                forall|k: int|
                    0 <= k < i ==> (#[trigger] r@[k])@ == (ProposalView {
                        slot: self.entries@[k].0,
                        command: self.entries@[k].1@,
                    }),
            decreases self.entries@.len() - i,
        {
            r.push(Proposal { slot: self.entries[i].0, command: self.entries[i].1.clone() });
            i += 1;
        }
        r
    }
}

impl<V: View> View for SlotTable<V> {
    type V = Map<u64, V::V>;

    open spec fn view(&self) -> Map<u64, V::V> {
        Map::new(|k: u64| self.has(k), |k: u64| self.entries@[self.index_of(k)].1@)
    }
}

} // verus!
