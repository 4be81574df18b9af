//! The replica: orders decisions into slots, proposes client commands, and
//! hands decided commands to the user's state machine in slot order, each
//! command identifier at most once.

use vstd::prelude::*;

use crate::message::{Command, CommandID, CommandView, Proposal, ProposalView, proposals_view};
use crate::table::{SlotTable, load_commands};

verus! {

/// Inputs of a replica: client requests and decisions.
#[derive(Debug)]
pub enum In {
    Request(Command),
    Decision(Proposal),
}

/// Work a replica hands to its runtime.
#[derive(Debug)]
pub enum Action {
    /// Send the proposal to the leader.
    Propose(Proposal),
    /// Apply the command, decided at the slot, to the state machine.
    Execute(u64, Command),
}

/// Whether some decided slot holds a command with identifier `id`.
pub open spec fn decided_id(d: Map<u64, CommandView>, id: CommandID) -> bool {
    exists|s: u64| #[trigger] d.contains_key(s) && d[s].id == id
}

/// Whether some slot below `slot` holds a command with identifier `id`.
pub open spec fn decided_before(d: Map<u64, CommandView>, id: CommandID, slot: u64) -> bool {
    exists|s: u64| s < slot && #[trigger] d.contains_key(s) && d[s].id == id
}

/// The commands a replica executes while its decision cursor moves over
/// the slots below `n`: each decided command whose identifier no lower slot
/// holds, with its slot, in slot order.
pub open spec fn performs(d: Map<u64, CommandView>, n: u64) -> Seq<(u64, CommandView)>
    decreases n,
{
    if n == 0 {
        Seq::empty()
    } else {
        let s = (n - 1) as u64;
        performs(d, s) + if d.contains_key(s) && !decided_before(d, d[s].id, s) {
            seq![(s, d[s])]
        } else {
            Seq::empty()
        }
    }
}

/// The executions among `acts`, in order.
pub open spec fn executions(acts: Seq<Action>) -> Seq<(u64, CommandView)>
    decreases acts.len(),
{
    if acts.len() == 0 {
        Seq::empty()
    } else {
        executions(acts.drop_last()) + match acts.last() {
            Action::Execute(s, c) => seq![(s, c@)],
            _ => Seq::empty(),
        }
    }
}

proof fn lemma_executions_push(acts: Seq<Action>, a: Action)
    ensures
        executions(acts.push(a)) == executions(acts) + executions(seq![a]),
        executions(seq![a]) == match a {
            Action::Execute(s, c) => seq![(s, c@)],
            _ => Seq::<(u64, CommandView)>::empty(),
        },
{
    assert(acts.push(a).drop_last() == acts);
    assert(seq![a].drop_last() =~= Seq::<Action>::empty());
    assert(executions(Seq::<Action>::empty()) == Seq::<(u64, CommandView)>::empty());
    assert(executions(seq![a]) =~= match a {
        Action::Execute(s, c) => seq![(s, c@)],
        _ => Seq::<(u64, CommandView)>::empty(),
    });
}

/// Two decision maps that agree on the slots below `n`.
pub open spec fn agree_below(d1: Map<u64, CommandView>, d2: Map<u64, CommandView>, n: u64) -> bool {
    forall|s: u64|
        s < n ==> (#[trigger] d1.contains_key(s) <==> d2.contains_key(s)) && (d1.contains_key(s)
            ==> d1[s] == d2[s])
}

/// What a replica executes up to a slot depends only on the decisions below
/// it.
pub proof fn lemma_performs_agree(d1: Map<u64, CommandView>, d2: Map<u64, CommandView>, n: u64)
    requires
        agree_below(d1, d2, n),
    ensures
        performs(d1, n) == performs(d2, n),
    decreases n,
{
    if n > 0 {
        let s = (n - 1) as u64;
        lemma_performs_agree(d1, d2, s);
        if d1.contains_key(s) {
            assert(decided_before(d1, d1[s].id, s) == decided_before(d2, d2[s].id, s)) by {
                if decided_before(d1, d1[s].id, s) {
                    let t = choose|t: u64| t < s && #[trigger] d1.contains_key(t) && d1[t].id == d1[s].id;
                    assert(d2.contains_key(t));
                }
                if decided_before(d2, d2[s].id, s) {
                    let t = choose|t: u64| t < s && #[trigger] d2.contains_key(t) && d2[t].id == d2[s].id;
                    assert(d1.contains_key(t));
                }
            }
        }
    }
}

/// Moving the cursor further only extends what is executed.
pub proof fn lemma_performs_prefix(d: Map<u64, CommandView>, m: u64, n: u64)
    requires
        m <= n,
    ensures
        performs(d, m).len() <= performs(d, n).len(),
        performs(d, n).take(performs(d, m).len() as int) == performs(d, m),
    decreases n - m,
{
    if m < n {
        lemma_performs_prefix(d, m, (n - 1) as u64);
        let a = performs(d, m);
        let b = performs(d, (n - 1) as u64);
        assert(performs(d, n).take(b.len() as int) == b);
        assert(performs(d, n).take(a.len() as int) == b.take(a.len() as int));
    }
}

/// Every execution up to `n` is the decided command of a slot below `n`.
pub proof fn lemma_performs_entries(d: Map<u64, CommandView>, n: u64)
    ensures
        forall|i: int|
            0 <= i < performs(d, n).len() ==> {
                let (s, c) = #[trigger] performs(d, n)[i];
                &&& s < n
                &&& d.contains_key(s)
                &&& d[s] == c
                &&& !decided_before(d, c.id, s)
            },
        forall|i: int, j: int|
            0 <= i < j < performs(d, n).len() ==> #[trigger] performs(d, n)[i].0
                < #[trigger] performs(d, n)[j].0,
    decreases n,
{
    if n > 0 {
        let s = (n - 1) as u64;
        lemma_performs_entries(d, s);
        let a = performs(d, s);
        let b = performs(d, n);
        assert forall|i: int| 0 <= i < a.len() implies #[trigger] b[i] == a[i] by {}
        if b.len() > a.len() {
            assert(b[a.len() as int] == (s, d[s]));
        }
        assert forall|i: int|
            0 <= i < b.len() implies {
                let (t, c) = #[trigger] b[i];
                &&& t < n
                &&& d.contains_key(t)
                &&& d[t] == c
                &&& !decided_before(d, c.id, t)
            } by {
            if i < a.len() {
                assert(b[i] == a[i]);
            }
        }
        assert forall|i: int, j: int| 0 <= i < j < b.len() implies #[trigger] b[i].0 < #[trigger] b[j].0 by {
            assert(b[i] == a[i]);
            if j < a.len() {
                assert(b[j] == a[j]);
            }
        }
    }
}

/// Total order: replicas whose decisions agree on every slot that both
/// have passed execute sequences of which one is a prefix of the other.
pub proof fn lemma_total_order(
    d1: Map<u64, CommandView>,
    n1: u64,
    d2: Map<u64, CommandView>,
    n2: u64,
)
    requires
        n1 <= n2,
        agree_below(d1, d2, n1),
    ensures
        performs(d2, n2).take(performs(d1, n1).len() as int) == performs(d1, n1),
        performs(d1, n1).len() <= performs(d2, n2).len(),
{
    lemma_performs_agree(d1, d2, n1);
    lemma_performs_prefix(d2, n1, n2);
}

/// At-most-once execution: no two commands a replica executes share an
/// identifier.
pub proof fn lemma_at_most_once(d: Map<u64, CommandView>, n: u64)
    ensures
        forall|i: int, j: int|
            0 <= i < j < performs(d, n).len() ==> #[trigger] performs(d, n)[i].1.id
                != #[trigger] performs(d, n)[j].1.id,
{
    lemma_performs_entries(d, n);
    assert forall|i: int, j: int|
        0 <= i < j < performs(d, n).len() implies #[trigger] performs(d, n)[i].1.id
        != #[trigger] performs(d, n)[j].1.id by {
        let (s, c) = performs(d, n)[i];
        let (t, e) = performs(d, n)[j];
        assert(s < t);
        if c.id == e.id {
            assert(d.contains_key(s) && d[s].id == e.id);
            assert(decided_before(d, e.id, t));
        }
    }
}

/// Whether `a`, if it is a proposal, re-proposes a command this replica had
/// proposed for a slot in `lo..hi` that was decided for another command.
pub open spec fn reproposes(
    proposals: Map<u64, CommandView>,
    decisions: Map<u64, CommandView>,
    lo: u64,
    hi: u64,
    a: Action,
) -> bool {
    match a {
        Action::Propose(p) => exists|s: u64|
            lo <= s < hi && #[trigger] proposals.contains_key(s) && proposals[s] == p.command@
                && decisions.contains_key(s) && decisions[s].id != p.command.id,
        Action::Execute(_, _) => true,
    }
}

/// Persistent record of a replica.
#[derive(Debug)]
pub struct ReplicaRecord {
    pub proposal_slot: u64,
    pub decision_slot: u64,
    pub proposals: Vec<Proposal>,
    pub decisions: Vec<Proposal>,
}

/// Maintains the order of commands and talks to clients.
#[derive(Debug)]
pub struct Replica {
    /// Lowest slot that may be free for the next proposal.
    pub proposal_slot: u64,
    /// Next slot to execute.
    pub decision_slot: u64,
    /// Latest proposal per slot.
    pub proposals: SlotTable<Command>,
    /// Decision per slot.
    pub decisions: SlotTable<Command>,
}

/// Whether `a` proposes the command `c` for the slot `s`.
pub open spec fn proposes(a: Action, s: u64, c: CommandView) -> bool {
    match a {
        Action::Propose(p) => p@ == (ProposalView { slot: s, command: c }),
        _ => false,
    }
}

/// What `Replica::restore` gives for a record: the record's maps and
/// proposal cursor, the decision cursor at the recorded one or at the first
/// undecided slot below it, and a replay of exactly what a replica with
/// those decisions executed.
pub open spec fn restores(rec: ReplicaRecord, back: Replica, replay: Seq<Action>) -> bool {
    &&& back.wf()
    &&& back.proposal_slot == rec.proposal_slot
    &&& back.proposals@ == load_commands(proposals_view(rec.proposals@))
    &&& back.decisions@ == load_commands(proposals_view(rec.decisions@))
    &&& back.decision_slot <= rec.decision_slot
    &&& back.decision_slot == rec.decision_slot || !back.decisions@.contains_key(back.decision_slot)
    &&& back.executed() == executions(replay)
    &&& forall|i: int| 0 <= i < replay.len() ==> #[trigger] replay[i] is Execute
}

/// A replica restarted from the record it saved has the same proposals,
/// decisions and cursors, and its replay executes exactly the commands it
/// had executed, in the same order.
pub proof fn lemma_restart_replays_executed(
    r: Replica,
    rec: ReplicaRecord,
    back: Replica,
    replay: Seq<Action>,
)
    requires
        r.wf(),
        r.records(rec),
        restores(rec, back, replay),
    ensures
        back.proposals@ == r.proposals@,
        back.decisions@ == r.decisions@,
        back.proposal_slot == r.proposal_slot,
        back.decision_slot == r.decision_slot,
        executions(replay) == r.executed(),
{
    crate::table::lemma_proposals_round_trip(r.proposals, proposals_view(rec.proposals@));
    crate::table::lemma_proposals_round_trip(r.decisions, proposals_view(rec.decisions@));
    if back.decision_slot < rec.decision_slot {
        assert(r.decisions@.contains_key(back.decision_slot));
    }
}

impl Replica {
    /// `rec` holds this replica's cursors and its entries in order.
    pub open spec fn records(&self, rec: ReplicaRecord) -> bool {
        &&& rec.proposal_slot == self.proposal_slot
        &&& rec.decision_slot == self.decision_slot
        &&& rec.proposals@.len() == self.proposals.entries@.len()
        &&& forall|i: int|
            0 <= i < rec.proposals@.len() ==> (#[trigger] rec.proposals@[i])@ == (ProposalView {
                slot: self.proposals.entries@[i].0,
                command: self.proposals.entries@[i].1@,
            })
        &&& rec.decisions@.len() == self.decisions.entries@.len()
        &&& forall|i: int|
            0 <= i < rec.decisions@.len() ==> (#[trigger] rec.decisions@[i])@ == (ProposalView {
                slot: self.decisions.entries@[i].0,
                command: self.decisions.entries@[i].1@,
            })
    }

    /// Every slot below the decision cursor is decided.
    pub open spec fn wf(&self) -> bool {
        &&& self.proposals.wf()
        &&& self.decisions.wf()
        &&& forall|s: u64| s < self.decision_slot ==> #[trigger] self.decisions@.contains_key(s)
    }

    /// Whether slot `s` holds a proposal or a decision.
    pub open spec fn occupied(&self, s: u64) -> bool {
        self.proposals@.contains_key(s) || self.decisions@.contains_key(s)
    }

    /// What this replica has executed so far.
    pub open spec fn executed(&self) -> Seq<(u64, CommandView)> {
        performs(self.decisions@, self.decision_slot)
    }

    /// A replica with nothing proposed or decided.
    pub fn new() -> (r: Replica)
        ensures
            r.wf(),
            r.proposal_slot == 0,
            r.decision_slot == 0,
            r.proposals@ == Map::<u64, CommandView>::empty(),
            r.decisions@ == Map::<u64, CommandView>::empty(),
            r.executed() == Seq::<(u64, CommandView)>::empty(),
    {
        Replica {
            proposal_slot: 0,
            decision_slot: 0,
            proposals: SlotTable::new(),
            decisions: SlotTable::new(),
        }
    }

    /// Whether a decided slot holds a command with identifier `id`.
    fn is_decided(&self, id: CommandID) -> (r: bool)
        requires
            self.wf(),
        ensures
            r == decided_id(self.decisions@, id),
    {
        let mut i: usize = 0;
        while i < self.decisions.entries.len()
            invariant
                self.decisions.wf(),
                i <= self.decisions.entries@.len(),
                forall|j: int| 0 <= j < i ==> (#[trigger] self.decisions.entries@[j]).1.id != id,
            decreases self.decisions.entries@.len() - i,
        {
            if self.decisions.entries[i].1.id == id {
                proof {
                    self.decisions.lemma_entry(i as int);
                    let w = self.decisions.entries@[i as int].0;
                    assert(self.decisions.entries@[i as int].1.id == id);
                    assert(self.decisions@[w] == self.decisions.entries@[i as int].1@);
                    assert(self.decisions@.contains_key(w) && self.decisions@[w].id == id);
                    assert(self.decisions@.contains_key(w) && self.decisions@[w].id == id);
                    assert(decided_id(self.decisions@, id));
                }
                return true;
            }
            i += 1;
        }
        proof {
            assert forall|s: u64| #[trigger] self.decisions@.contains_key(s) implies self.decisions@[s].id != id by {
                self.decisions.lemma_lookup(s);
                let j = self.decisions.index_of(s);
                assert(self.decisions.entries@[j].1.id != id);
            }
        }
        false
    }

    /// Whether a slot below `slot` holds a command with identifier `id`.
    fn is_decided_before(&self, id: CommandID, slot: u64) -> (r: bool)
        requires
            self.wf(),
        ensures
            r == decided_before(self.decisions@, id, slot),
    {
        let mut i: usize = 0;
        while i < self.decisions.entries.len()
            invariant
                self.decisions.wf(),
                i <= self.decisions.entries@.len(),
                forall|j: int|
                    0 <= j < i ==> !((#[trigger] self.decisions.entries@[j]).1.id == id && self.decisions.entries@[j].0 < slot),
            decreases self.decisions.entries@.len() - i,
        {
            if self.decisions.entries[i].1.id == id && self.decisions.entries[i].0 < slot {
                proof {
                    self.decisions.lemma_entry(i as int);
                    let w = self.decisions.entries@[i as int].0;
                    assert(self.decisions@.contains_key(w) && self.decisions@[w].id == id);
                    assert(decided_before(self.decisions@, id, slot));
                }
                return true;
            }
            i += 1;
        }
        proof {
            assert forall|s: u64| s < slot && #[trigger] self.decisions@.contains_key(s) implies self.decisions@[s].id != id by {
                self.decisions.lemma_lookup(s);
                let j = self.decisions.index_of(s);
                assert(!(self.decisions.entries@[j].1.id == id && self.decisions.entries@[j].0 < slot));
            }
        }
        false
    }

    /// Proposes `c` for the lowest free slot at or above the proposal
    /// cursor, unless a command with its identifier is already decided or
    /// no slot is free.
    pub fn propose(&mut self, c: Command) -> (r: Option<Proposal>)
        requires
            old(self).wf(),
        ensures
            final(self).wf(),
            final(self).decision_slot == old(self).decision_slot,
            final(self).decisions@ == old(self).decisions@,
            decided_id(old(self).decisions@, c.id) ==> r is None && *final(self) == *old(self),
            match r {
                Some(p) => {
                    &&& !decided_id(old(self).decisions@, c.id)
                    &&& p@ == (ProposalView { slot: final(self).proposal_slot, command: c@ })
                    &&& old(self).proposal_slot <= p.slot
                    &&& !old(self).occupied(p.slot)
                    &&& forall|s: u64|
                        old(self).proposal_slot <= s < p.slot ==> #[trigger] old(self).occupied(s)
                    &&& final(self).proposals@ == old(self).proposals@.insert(p.slot, c@)
                },
                None => {
                    &&& final(self).proposals@ == old(self).proposals@
                    &&& !decided_id(old(self).decisions@, c.id) ==> forall|s: u64|
                        old(self).proposal_slot <= s ==> #[trigger] old(self).occupied(s)
                },
            },
    {
        if self.is_decided(c.id) {
            return None;
        }
        let start = self.proposal_slot;
        let mut slot = self.proposal_slot;
        while self.proposals.contains(slot) || self.decisions.contains(slot)
            invariant
                self.wf(),
                *self == *old(self),
                start == old(self).proposal_slot,
                start <= slot,
                forall|s: u64| start <= s < slot ==> #[trigger] old(self).occupied(s),
            decreases u64::MAX - slot,
        {
            if slot == u64::MAX {
                return None;
            }
            slot = slot + 1;
        }
        self.proposal_slot = slot;
        let proposal = Proposal { slot, command: c.clone() };
        self.proposals.insert(slot, c);
        Some(proposal)
    }

    /// Performs the decision at the cursor: the command is executed unless a
    /// lower slot holds its identifier, and the cursor moves on.
    pub fn perform(&mut self, c: Command) -> (r: Option<Action>)
        requires
            old(self).wf(),
            old(self).decision_slot < u64::MAX,
            old(self).decisions@.contains_key(old(self).decision_slot),
            old(self).decisions@[old(self).decision_slot] == c@,
        ensures
            final(self).wf(),
            final(self).decision_slot == old(self).decision_slot + 1,
            final(self).proposal_slot == old(self).proposal_slot,
            final(self).proposals@ == old(self).proposals@,
            final(self).decisions@ == old(self).decisions@,
            !decided_before(old(self).decisions@, c.id, old(self).decision_slot) ==> r == Some(
                Action::Execute(old(self).decision_slot, c),
            ),
            decided_before(old(self).decisions@, c.id, old(self).decision_slot) ==> r is None,
            final(self).executed() == old(self).executed() + match r {
                Some(a) => executions(seq![a]),
                None => Seq::empty(),
            },
    {
        let slot = self.decision_slot;
        let ghost dm = self.decisions@;
        let ghost cv = c@;
        let fresh = !self.is_decided_before(c.id, slot);
        self.decision_slot = slot + 1;
        proof {
            let n = (slot + 1) as u64;
            assert(performs(dm, n) == performs(dm, slot) + if dm.contains_key(slot)
                && !decided_before(dm, dm[slot].id, slot) {
                seq![(slot, dm[slot])]
            } else {
                Seq::empty()
            });
        }
        if fresh {
            let a = Action::Execute(slot, c);
            proof {
                lemma_executions_push(Seq::empty(), a);
                assert(self.executed() =~= performs(dm, slot) + executions(seq![a]));
            }
            Some(a)
        } else {
            assert(self.executed() =~= performs(dm, slot));
            None
        }
    }

    /// Handles a decision. The slot's command is recorded unless the slot is
    /// already decided. Then, while the slot at the decision cursor is
    /// decided: a different command this replica proposed for that slot is
    /// proposed again, and the decided command is executed unless a lower
    /// slot holds its identifier; the cursor moves on.
    pub fn respond_decision(&mut self, d: Proposal) -> (r: Vec<Action>)
        requires
            old(self).wf(),
        ensures
            final(self).wf(),
            final(self).decisions@ == if old(self).decisions@.contains_key(d.slot) {
                old(self).decisions@
            } else {
                old(self).decisions@.insert(d.slot, d.command@)
            },
            old(self).decision_slot <= final(self).decision_slot,
            final(self).decision_slot == u64::MAX || !final(self).decisions@.contains_key(
                final(self).decision_slot,
            ),
            final(self).executed() == old(self).executed() + executions(r@),
            forall|s: u64| #[trigger]
                old(self).proposals@.contains_key(s) ==> final(self).proposals@.contains_key(s)
                    && final(self).proposals@[s] == old(self).proposals@[s],
            forall|i: int|
                0 <= i < r@.len() ==> reproposes(
                    old(self).proposals@,
                    final(self).decisions@,
                    old(self).decision_slot,
                    final(self).decision_slot,
                    #[trigger] r@[i],
                ),
    {
        if !self.decisions.contains(d.slot) {
            self.decisions.insert(d.slot, d.command);
        }
        let ghost dm = self.decisions@;
        let ghost c0 = self.decision_slot;
        proof {
            assert(agree_below(old(self).decisions@, dm, c0));
            lemma_performs_agree(old(self).decisions@, dm, c0);
        }
        let mut actions: Vec<Action> = Vec::new();
        while self.decision_slot < u64::MAX && self.decisions.contains(self.decision_slot)
            invariant
                self.wf(),
                self.decisions@ == dm,
                c0 <= self.decision_slot,
                performs(dm, self.decision_slot) == performs(dm, c0) + executions(actions@),
                forall|s: u64| #[trigger]
                    old(self).proposals@.contains_key(s) ==> self.proposals@.contains_key(s)
                        && self.proposals@[s] == old(self).proposals@[s],
                forall|s: u64| #[trigger]
                    self.proposals@.contains_key(s) && dm.contains_key(s) ==> old(self).proposals@.contains_key(s),
                forall|i: int|
                    0 <= i < actions@.len() ==> reproposes(
                        old(self).proposals@,
                        dm,
                        c0,
                        self.decision_slot,
                        #[trigger] actions@[i],
                    ),
            decreases u64::MAX - self.decision_slot,
        {
            let slot = self.decision_slot;
            let c1 = self.decisions.get(slot).unwrap().clone();
            let again = match self.proposals.get(slot) {
                Some(c2) => if c2.id != c1.id {
                    Some(c2.clone())
                } else {
                    None
                },
                None => None,
            };
            let ghost pre = actions@;
            match again {
                Some(c2) => {
                    proof {
                        assert(self.proposals@.contains_key(slot) && dm.contains_key(slot));
                        assert(old(self).proposals@.contains_key(slot));
                        assert(c2@ == old(self).proposals@[slot]);
                        assert(dm[slot].id != c2.id);
                    }
                    match self.propose(c2) {
                        Some(p) => {
                            actions.push(Action::Propose(p));
                            assert(actions@.drop_last() == pre);
                            assert(reproposes(
                                old(self).proposals@,
                                dm,
                                c0,
                                (slot + 1) as u64,
                                actions@[actions@.len() - 1],
                            ));
                        },
                        None => {},
                    }
                },
                None => {},
            }
            proof {
                assert forall|i: int|
                    0 <= i < actions@.len() implies reproposes(
                    old(self).proposals@,
                    dm,
                    c0,
                    (slot + 1) as u64,
                    #[trigger] actions@[i],
                ) by {
                    if i < pre.len() {
                        assert(actions@[i] == pre[i]);
                        assert(reproposes(old(self).proposals@, dm, c0, slot, pre[i]));
                    }
                }
            }
            let ghost mid = actions@;
            match self.perform(c1) {
                Some(a) => {
                    actions.push(a);
                    proof {
                        assert(actions@ == mid.push(a));
                        lemma_executions_push(mid, a);
                        assert forall|i: int|
                            0 <= i < actions@.len() implies reproposes(
                            old(self).proposals@,
                            dm,
                            c0,
                            (slot + 1) as u64,
                            #[trigger] actions@[i],
                        ) by {
                            if i < mid.len() {
                                assert(actions@[i] == mid[i]);
                            }
                        }
                    }
                },
                None => {},
            }
            proof {
                assert(self.executed() =~= performs(dm, c0) + executions(actions@));
            }
        }
        actions
    }

    /// The record to persist.
    pub fn record(&self) -> (r: ReplicaRecord)
        requires
            self.wf(),
        ensures
            self.records(r),
    {
        ReplicaRecord {
            proposal_slot: self.proposal_slot,
            decision_slot: self.decision_slot,
            proposals: self.proposals.to_proposals(),
            decisions: self.decisions.to_proposals(),
        }
    }

    /// A replica restored from a persisted record, with the commands to
    /// replay against a fresh state machine: those executed before the
    /// restart, in slot order. Replay stops at the recorded decision cursor,
    /// or earlier at the first slot the record leaves undecided.
    pub fn restore(rec: &ReplicaRecord) -> (r: (Replica, Vec<Action>))
        ensures
            restores(*rec, r.0, r.1@),
    {
        let mut replica = Replica {
            proposal_slot: rec.proposal_slot,
            decision_slot: 0,
            proposals: SlotTable::from_proposals(&rec.proposals),
            decisions: SlotTable::from_proposals(&rec.decisions),
        };
        let ghost dm = replica.decisions@;
        let mut actions: Vec<Action> = Vec::new();
        proof {
            assert(executions(actions@) =~= Seq::<(u64, CommandView)>::empty());
        }
        while replica.decision_slot < rec.decision_slot && replica.decisions.contains(
            replica.decision_slot,
        )
            invariant
                replica.wf(),
                replica.decisions@ == dm,
                dm == load_commands(proposals_view(rec.decisions@)),
                replica.proposal_slot == rec.proposal_slot,
                replica.proposals@ == load_commands(proposals_view(rec.proposals@)),
                replica.decision_slot <= rec.decision_slot,
                performs(dm, replica.decision_slot) == executions(actions@),
                forall|i: int| 0 <= i < actions@.len() ==> #[trigger] actions@[i] is Execute,
            decreases rec.decision_slot - replica.decision_slot,
        {
            let slot = replica.decision_slot;
            let c1 = replica.decisions.get(slot).unwrap().clone();
            let ghost mid = actions@;
            match replica.perform(c1) {
                Some(a) => {
                    actions.push(a);
                    proof {
                        assert(actions@ == mid.push(a));
                        lemma_executions_push(mid, a);
                        assert forall|i: int| 0 <= i < actions@.len() implies #[trigger] actions@[i] is Execute by {
                            if i < mid.len() {
                                assert(actions@[i] == mid[i]);
                            }
                        }
                    }
                },
                None => {},
            }
        }
        (replica, actions)
    }

    /// Handles a client request: proposes it.
    pub fn respond_request(&mut self, c: Command) -> (r: Vec<Action>)
        requires
            old(self).wf(),
        ensures
            final(self).wf(),
            final(self).decision_slot == old(self).decision_slot,
            final(self).decisions@ == old(self).decisions@,
            decided_id(old(self).decisions@, c.id) ==> r@.len() == 0 && *final(self) == *old(self),
            !decided_id(old(self).decisions@, c.id) && !old(self).occupied(old(self).proposal_slot)
                ==> r@.len() == 1 && proposes(r@[0], old(self).proposal_slot, c@)
                && final(self).proposals@ == old(self).proposals@.insert(old(self).proposal_slot, c@),
            r@.len() <= 1,
            r@.len() == 1 ==> exists|s: u64| #[trigger] proposes(r@[0], s, c@),
    {
        let mut actions: Vec<Action> = Vec::new();
        match self.propose(c) {
            Some(p) => {
                let ghost s = p.slot;
                let ghost cv = p.command@;
                actions.push(Action::Propose(p));
                assert(proposes(actions@[0], s, cv));
            },
            None => {},
        }
        actions
    }
}

} // verus!
