//! The leader: chooses ballots, learns from a scout which commands earlier
//! ballots may have chosen, and proposes through commanders.

use vstd::prelude::*;

use crate::message::{
    Ballot, Command, CommandView, P1A, PValue, PValueView, Proposal, ProposalView, proposals_view,
    pvalues_view,
};
use crate::table::{SlotTable, load_commands};

verus! {

/// Upper bound (exclusive) of the initial scout delay, in microseconds.
pub const INITIAL_BACKOFF_US: u64 = 100_000;

/// Inputs of a leader: proposals from the replica, preemptions from scouts
/// and commanders, adoptions from scouts, and decided slots.
#[derive(Debug)]
pub enum In {
    Propose(Proposal),
    Preempt(Ballot),
    Adopt(Vec<PValue>),
    Decide(u64),
}

/// Work a leader hands to its runtime.
#[derive(Debug)]
pub enum Action {
    /// Start a scout for `ballot` after `delay_ms` milliseconds.
    StartScout { ballot: Ballot, decided: Option<u64>, delay_ms: u64 },
    /// Start a commander for the pvalue.
    StartCommander(PValue),
}

/// `m` is what pmax gives for the pvalues `ps`: each slot that occurs in
/// `ps` is bound to a pvalue of `ps` for that slot whose ballot is the
/// greatest among them.
pub open spec fn is_pmax(ps: Set<PValueView>, m: Map<u64, PValueView>) -> bool {
    &&& forall|s: u64| #[trigger]
        m.contains_key(s) <==> exists|p: PValueView| ps.contains(p) && p.slot == s
    &&& forall|s: u64| #[trigger]
        m.contains_key(s) ==> {
            &&& m[s].slot == s
            &&& ps.contains(m[s])
            &&& forall|q: PValueView| #[trigger]
                ps.contains(q) && q.slot == s ==> q.ballot.spec_le(m[s].ballot)
        }
}

/// No two pvalues bind different commands to one slot under one ballot, as
/// holds of the pvalues of a run, where ballots are unique to leaders.
pub open spec fn consistent(ps: Set<PValueView>) -> bool {
    forall|p: PValueView, q: PValueView|
        #![trigger ps.contains(p), ps.contains(q)]
        ps.contains(p) && ps.contains(q) && p.slot == q.slot && p.ballot == q.ballot ==> p == q
}

/// pmax is a function of the set of pvalues it is given: where ballots
/// identify commands, any two results of pmax on the same set are equal,
/// whatever the order in which the pvalues arrived.
pub proof fn lemma_pmax_is_function(
    ps: Set<PValueView>,
    m1: Map<u64, PValueView>,
    m2: Map<u64, PValueView>,
)
    requires
        consistent(ps),
        is_pmax(ps, m1),
        is_pmax(ps, m2),
    ensures
        m1 == m2,
{
    assert forall|s: u64| m1.contains_key(s) <==> m2.contains_key(s) by {
        if m1.contains_key(s) {
            assert(ps.contains(m1[s]) && m1[s].slot == s);
        }
        if m2.contains_key(s) {
            assert(ps.contains(m2[s]) && m2[s].slot == s);
        }
    }
    assert forall|s: u64| #[trigger] m1.contains_key(s) implies m1[s] == m2[s] by {
        let (a, b) = (m1[s], m2[s]);
        assert(ps.contains(a) && ps.contains(b));
        assert(a.ballot.spec_le(b.ballot));
        assert(b.ballot.spec_le(a.ballot));
    }
    assert(m1 =~= m2);
}

/// For each slot, the pvalue with the highest ballot among `pvalues`.
pub fn pmax(pvalues: &Vec<PValue>) -> (r: SlotTable<PValue>)
    ensures
        r.wf(),
        is_pmax(pvalues_view(pvalues@).to_set(), r@),
{
    let ghost all = pvalues_view(pvalues@);
    let mut best: SlotTable<PValue> = SlotTable::new();
    let mut i: usize = 0;
    while i < pvalues.len()
        invariant
            i <= pvalues@.len(),
            all == pvalues_view(pvalues@),
            best.wf(),
            is_pmax(all.take(i as int).to_set(), best@),
        decreases pvalues@.len() - i,
    {
        let p = &pvalues[i];
        let ghost pre = best@;
        let ghost seen = all.take(i as int).to_set();
        let ghost now = all.take(i + 1).to_set();
        proof {
            let pre_seq = all.take(i as int);
            let now_seq = all.take(i + 1);
            assert(now_seq == pre_seq.push(p@));
            assert forall|q: PValueView| now.contains(q) <==> seen.contains(q) || q == p@ by {
                if now.contains(q) {
                    let k = choose|k: int| 0 <= k < now_seq.len() && now_seq[k] == q;
                    if k < i {
                        assert(pre_seq[k] == q);
                    }
                }
                if seen.contains(q) {
                    let k = choose|k: int| 0 <= k < pre_seq.len() && pre_seq[k] == q;
                    assert(now_seq[k] == q);
                }
                if q == p@ {
                    assert(now_seq[i as int] == q);
                }
            }
            assert(now =~= seen.insert(p@));
        }
        let replace = match best.get(p.slot) {
            Some(b) => b.ballot.lt(p.ballot),
            None => true,
        };
        if replace {
            best.insert(p.slot, p.clone());
        }
        proof {
            assert forall|s: u64| #[trigger]
                best@.contains_key(s) <==> exists|q: PValueView| now.contains(q) && q.slot == s by {
                assert(now.contains(p@));
                if s == p.slot {
                    assert(best@.contains_key(s));
                }
                if pre.contains_key(s) {
                    let q = choose|q: PValueView| seen.contains(q) && q.slot == s;
                    assert(now.contains(q));
                }
                if exists|q: PValueView| now.contains(q) && q.slot == s {
                    let q = choose|q: PValueView| now.contains(q) && q.slot == s;
                    if q != p@ {
                        assert(seen.contains(q));
                    }
                }
            }
            assert forall|s: u64| #[trigger] best@.contains_key(s) implies {
                &&& best@[s].slot == s
                &&& now.contains(best@[s])
                &&& forall|q: PValueView| #[trigger]
                    now.contains(q) && q.slot == s ==> q.ballot.spec_le(best@[s].ballot)
            } by {
                assert forall|q: PValueView| #[trigger]
                    now.contains(q) && q.slot == s implies q.ballot.spec_le(best@[s].ballot) by {
                    if q != p@ {
                        assert(seen.contains(q));
                    }
                }
            }
        }
        i += 1;
    }
    proof {
        assert(all.take(pvalues@.len() as int) == all);
    }
    best
}

/// Whether the leader knows slot `s` to be decided.
pub open spec fn known_decided(decided: Option<u64>, s: u64) -> bool {
    match decided {
        Some(d) => s <= d,
        None => false,
    }
}

/// The proposals after an adoption: pmax's commands replace the leader's own
/// for the slots that pmax covers.
pub open spec fn merged(own: Map<u64, CommandView>, best: Map<u64, PValueView>) -> Map<u64, CommandView> {
    own.union_prefer_right(best.map_values(|p: PValueView| p.command))
}

/// The next backoff: `backoff` grown by the factor `1 + (draw mod 501) / 1000`,
/// which lies in [1.0, 1.5]; saturating at the largest `u64`.
pub open spec fn grown(backoff: u64, draw: u64) -> u64 {
    let g = backoff as int * (1000 + draw as int % 501) / 1000;
    if g > u64::MAX {
        u64::MAX
    } else {
        g as u64
    }
}

/// Whether `a` starts a commander for the pvalue `p`.
pub open spec fn starts_commander(a: Action, p: PValueView) -> bool {
    match a {
        Action::StartCommander(q) => q@ == p,
        _ => false,
    }
}

proof fn lemma_grown_at_least(backoff: u64, draw: u64)
    ensures
        backoff <= grown(backoff, draw),
{
    let b = backoff as int;
    let f = 1000 + draw as int % 501;
    assert(b * f >= b * 1000) by (nonlinear_arith)
        requires
            f >= 1000,
            b >= 0,
    ;
    assert(b * f / 1000 >= b * 1000 / 1000) by (nonlinear_arith)
        requires
            b * f >= b * 1000,
    ;
    assert(b * 1000 / 1000 == b) by (nonlinear_arith);
}

proof fn lemma_strictly_increasing_at_least(idx: Seq<int>, k: int)
    requires
        0 <= k < idx.len(),
        forall|a: int| 0 <= a < idx.len() ==> 0 <= #[trigger] idx[a],
        forall|a: int, b: int| 0 <= a < b < idx.len() ==> #[trigger] idx[a] < #[trigger] idx[b],
    ensures
        idx[k] >= k,
    decreases k,
{
    if k > 0 {
        lemma_strictly_increasing_at_least(idx, k - 1);
        assert(idx[k - 1] < idx[k]);
    }
}

/// Persistent record of a leader.
#[derive(Debug)]
pub struct LeaderRecord {
    pub ballot: Ballot,
    pub proposals: Vec<Proposal>,
    pub decided: Option<u64>,
}

/// Functions as invariant-upholding command proposer.
#[derive(Debug)]
pub struct Leader {
    /// Server id of this leader.
    pub id: u64,
    /// Number of acceptors in the cluster.
    pub count: u64,
    /// Current ballot.
    pub ballot: Ballot,
    /// Adopted by a majority of acceptors and spawning commanders.
    pub active: bool,
    /// Outstanding proposals.
    pub proposals: SlotTable<Command>,
    /// Highest slot known to be decided.
    pub decided: Option<u64>,
    /// Delay before the next scout starts, in microseconds.
    pub backoff: u64,
}

impl Leader {
    pub open spec fn wf(&self) -> bool {
        &&& self.proposals.wf()
        &&& self.ballot.leader == self.id
    }

    /// A leader with the given initial backoff draw, in its initial state or
    /// restored from a record. It starts a scout at once.
    pub fn with_draw(id: u64, count: u64, record: Option<LeaderRecord>, draw: u64) -> (r: (
        Leader,
        Action,
    ))
        ensures
            r.0.wf(),
            r.0.id == id,
            r.0.count == count,
            !r.0.active,
            r.0.backoff == draw % INITIAL_BACKOFF_US,
            record is None ==> {
                &&& r.0.ballot == (Ballot { seq: 1, leader: id })
                &&& r.0.proposals@ == Map::<u64, CommandView>::empty()
                &&& r.0.decided is None
            },
            record matches Some(rec) ==> {
                &&& r.0.ballot == (Ballot { seq: rec.ballot.seq, leader: id })
                &&& r.0.decided == rec.decided
                &&& r.0.proposals@ == load_commands(proposals_view(rec.proposals@))
            },
            r.1 == (Action::StartScout {
                ballot: r.0.ballot,
                decided: r.0.decided,
                delay_ms: r.0.backoff / 1000,
            }),
    {
        let backoff = draw % INITIAL_BACKOFF_US;
        let leader = match record {
            None => Leader {
                id,
                count,
                ballot: Ballot { seq: 1, leader: id },
                active: false,
                proposals: SlotTable::new(),
                decided: None,
                backoff,
            },
            Some(rec) => {
                let proposals = SlotTable::from_proposals(&rec.proposals);
                Leader {
                    id,
                    count,
                    ballot: Ballot { seq: rec.ballot.seq, leader: id },
                    active: false,
                    proposals,
                    decided: rec.decided,
                    backoff,
                }
            },
        };
        let scout = leader.scout();
        (leader, scout)
    }

    /// A leader whose initial backoff is drawn at random below
    /// `INITIAL_BACKOFF_US`.
    pub fn new(id: u64, count: u64, record: Option<LeaderRecord>) -> (r: (Leader, Action))
        ensures
            r.0.wf(),
            r.0.id == id,
            r.0.count == count,
            !r.0.active,
            r.0.backoff < INITIAL_BACKOFF_US,
            record is None ==> {
                &&& r.0.ballot == (Ballot { seq: 1, leader: id })
                &&& r.0.proposals@ == Map::<u64, CommandView>::empty()
                &&& r.0.decided is None
            },
            record matches Some(rec) ==> {
                &&& r.0.ballot == (Ballot { seq: rec.ballot.seq, leader: id })
                &&& r.0.decided == rec.decided
                &&& r.0.proposals@ == load_commands(proposals_view(rec.proposals@))
            },
            r.1 == (Action::StartScout {
                ballot: r.0.ballot,
                decided: r.0.decided,
                delay_ms: r.0.backoff / 1000,
            }),
    {
        let draw = rand::random::<u64>();
        Self::with_draw(id, count, record, draw)
    }

    /// The scout to start for the current ballot.
    fn scout(&self) -> (r: Action)
        ensures
            r == (Action::StartScout {
                ballot: self.ballot,
                decided: self.decided,
                delay_ms: self.backoff / 1000,
            }),
    {
        Action::StartScout { ballot: self.ballot, decided: self.decided, delay_ms: self.backoff / 1000 }
    }

    /// The prepare request a scout of this leader sends.
    pub fn p1a(&self) -> (r: P1A)
        ensures
            r == (P1A { ballot: self.ballot, decided: self.decided }),
    {
        P1A { ballot: self.ballot, decided: self.decided }
    }

    /// Records a new proposal and, while active, starts a commander for it.
    /// Proposals for a slot already proposed or known decided are ignored.
    pub fn respond_propose(&mut self, proposal: Proposal) -> (r: Vec<Action>)
        requires
            old(self).wf(),
        ensures
            final(self).wf(),
            final(self).id == old(self).id,
            final(self).count == old(self).count,
            final(self).ballot == old(self).ballot,
            final(self).active == old(self).active,
            final(self).decided == old(self).decided,
            final(self).backoff == old(self).backoff,
            ({
                let ignored = old(self).proposals@.contains_key(proposal.slot) || known_decided(
                    old(self).decided,
                    proposal.slot,
                );
                &&& ignored ==> final(self).proposals@ == old(self).proposals@ && r@.len() == 0
                &&& !ignored ==> final(self).proposals@ == old(self).proposals@.insert(
                    proposal.slot,
                    proposal.command@,
                )
                &&& !ignored && old(self).active ==> r@.len() == 1 && starts_commander(
                    r@[0],
                    PValueView {
                        slot: proposal.slot,
                        ballot: old(self).ballot,
                        command: proposal.command@,
                    },
                )
                &&& !ignored && !old(self).active ==> r@.len() == 0
            }),
    {
        let mut actions: Vec<Action> = Vec::new();
        let known = match self.decided {
            Some(d) => proposal.slot <= d,
            None => false,
        };
        if self.proposals.contains(proposal.slot) || known {
            return actions;
        }
        self.proposals.insert(proposal.slot, proposal.command.clone());
        if self.active {
            actions.push(
                Action::StartCommander(
                    PValue { slot: proposal.slot, ballot: self.ballot, command: proposal.command },
                ),
            );
        }
        actions
    }

    /// Handles a preemption by `ballot` with the random `draw` that grows the
    /// backoff: a greater ballot deactivates the leader, moves it to a ballot
    /// above the preempting one, and starts a scout after the grown backoff.
    pub fn preempt_with(&mut self, ballot: Ballot, draw: u64) -> (r: Vec<Action>)
        requires
            old(self).wf(),
        ensures
            final(self).wf(),
            final(self).id == old(self).id,
            final(self).count == old(self).count,
            final(self).proposals@ == old(self).proposals@,
            final(self).decided == old(self).decided,
            ballot.spec_le(old(self).ballot) ==> *final(self) == *old(self) && r@.len() == 0,
            !ballot.spec_le(old(self).ballot) ==> {
                &&& !final(self).active
                &&& final(self).ballot == (Ballot {
                    seq: if ballot.seq == u64::MAX { u64::MAX } else { (ballot.seq + 1) as u64 },
                    leader: old(self).id,
                })
                &&& final(self).backoff == grown(old(self).backoff, draw)
                &&& r@ == seq![
                    Action::StartScout {
                        ballot: final(self).ballot,
                        decided: final(self).decided,
                        delay_ms: final(self).backoff / 1000,
                    },
                ]
            },
    {
        let mut actions: Vec<Action> = Vec::new();
        if ballot.le(self.ballot) {
            return actions;
        }
        self.active = false;
        let seq = if ballot.seq == u64::MAX {
            u64::MAX
        } else {
            ballot.seq + 1
        };
        self.ballot = Ballot { seq, leader: self.id };
        let factor: u128 = 1000 + (draw % 501) as u128;
        proof {
            let b = self.backoff as u128;
            assert(b * factor <= 0xffff_ffff_ffff_ffffu128 * 1500) by (nonlinear_arith)
                requires
                    b <= 0xffff_ffff_ffff_ffffu128,
                    factor <= 1500,
            ;
        }
        let g: u128 = (self.backoff as u128) * factor / 1000;
        self.backoff = if g > u64::MAX as u128 {
            u64::MAX
        } else {
            g as u64
        };
        actions.push(self.scout());
        proof {
            assert(actions@ =~= seq![
                Action::StartScout {
                    ballot: self.ballot,
                    decided: self.decided,
                    delay_ms: self.backoff / 1000,
                },
            ]);
        }
        actions
    }

    /// Handles a preemption, drawing the backoff growth at random.
    pub fn respond_preempt(&mut self, ballot: Ballot) -> (r: Vec<Action>)
        requires
            old(self).wf(),
        ensures
            final(self).wf(),
            final(self).id == old(self).id,
            final(self).proposals@ == old(self).proposals@,
            final(self).decided == old(self).decided,
            ballot.spec_le(old(self).ballot) ==> *final(self) == *old(self) && r@.len() == 0,
            !ballot.spec_le(old(self).ballot) ==> {
                &&& !final(self).active
                &&& final(self).ballot == (Ballot {
                    seq: if ballot.seq == u64::MAX { u64::MAX } else { (ballot.seq + 1) as u64 },
                    leader: old(self).id,
                })
                &&& old(self).backoff <= final(self).backoff
                &&& r@ == seq![
                    Action::StartScout {
                        ballot: final(self).ballot,
                        decided: final(self).decided,
                        delay_ms: final(self).backoff / 1000,
                    },
                ]
            },
    {
        let draw = rand::random::<u64>();
        proof {
            lemma_grown_at_least(self.backoff, draw);
        }
        self.preempt_with(ballot, draw)
    }

    /// Adopts the current ballot: merges the commands pmax picks from
    /// `pvalues` into the proposals (pmax winning), starts a commander for
    /// every proposal above the highest decided slot, and becomes active.
    pub fn respond_adopt(&mut self, pvalues: Vec<PValue>) -> (r: Vec<Action>)
        requires
            old(self).wf(),
        ensures
            final(self).wf(),
            final(self).id == old(self).id,
            final(self).count == old(self).count,
            final(self).ballot == old(self).ballot,
            final(self).decided == old(self).decided,
            final(self).backoff == old(self).backoff,
            final(self).active,
            exists|best: Map<u64, PValueView>|
                is_pmax(pvalues_view(pvalues@).to_set(), best) && final(self).proposals@ == merged(
                    old(self).proposals@,
                    best,
                ),
            final(self).starts_all_commanders(r@),
    {
        let best = pmax(&pvalues);
        let ghost own = self.proposals@;
        let ghost cmds = best@.map_values(|p: PValueView| p.command);
        let n = best.entries.len();
        let mut i: usize = 0;
        while i < n
            invariant
                n == best.entries@.len(),
                best.wf(),
                cmds == best@.map_values(|p: PValueView| p.command),
                self.wf(),
                self.id == old(self).id,
                self.count == old(self).count,
                self.ballot == old(self).ballot,
                self.decided == old(self).decided,
                self.backoff == old(self).backoff,
                i <= n,
                self.proposals@ == own.union_prefer_right(cmds.restrict(best.slots().take(i as int).to_set())),
            decreases n - i,
        {
            let slot = best.entries[i].0;
            let command = best.entries[i].1.command.clone();
            let ghost pre = self.proposals@;
            self.proposals.insert(slot, command);
            proof {
                best.lemma_entry(i as int);
                let a = best.slots().take(i as int);
                let b = best.slots().take(i + 1);
                assert(b == a.push(slot));
                assert(b.to_set() =~= a.to_set().insert(slot)) by {
                    assert forall|k: u64| b.to_set().contains(k) <==> a.to_set().contains(k) || k == slot by {
                        if b.to_set().contains(k) {
                            let j = choose|j: int| 0 <= j < b.len() && b[j] == k;
                            if j < i {
                                assert(a[j] == k);
                            }
                        }
                        if a.to_set().contains(k) {
                            let j = choose|j: int| 0 <= j < a.len() && a[j] == k;
                            assert(b[j] == k);
                        }
                        if k == slot {
                            assert(b[i as int] == k);
                        }
                    }
                }
                assert(self.proposals@ =~= own.union_prefer_right(cmds.restrict(b.to_set())));
            }
            i += 1;
        }
        proof {
            best.lemma_len();
            assert(best.slots().take(n as int) == best.slots());
            assert(cmds.restrict(best.slots().to_set()) =~= cmds);
        }
        self.active = true;
        self.commanders()
    }

    /// Commanders started after an adoption: one for each proposal above the
    /// highest decided slot, under the current ballot.
    pub open spec fn starts_all_commanders(&self, r: Seq<Action>) -> bool {
        &&& forall|i: int| 0 <= i < r.len() ==> self.commands_proposal(#[trigger] r[i])
        &&& forall|s: u64|
            #![trigger self.proposals@[s]]
            self.proposals@.contains_key(s) && !known_decided(self.decided, s) ==> exists|i: int|
                0 <= i < r.len() && starts_commander(
                    r[i],
                    PValueView { slot: s, ballot: self.ballot, command: self.proposals@[s] },
                )
        &&& r.len() <= self.proposals@.len()
    }

    /// Whether `a` starts a commander, under the current ballot, for a
    /// proposal above the highest decided slot.
    pub open spec fn commands_proposal(&self, a: Action) -> bool {
        match a {
            Action::StartCommander(p) => {
                &&& self.proposals@.contains_key(p.slot)
                &&& !known_decided(self.decided, p.slot)
                &&& p@ == (PValueView {
                    slot: p.slot,
                    ballot: self.ballot,
                    command: self.proposals@[p.slot],
                })
            },
            _ => false,
        }
    }

    fn commanders(&self) -> (r: Vec<Action>)
        requires
            self.wf(),
        ensures
            self.starts_all_commanders(r@),
    {
        let mut actions: Vec<Action> = Vec::new();
        let n = self.proposals.entries.len();
        let ghost mut idx: Seq<int> = Seq::empty();
        let mut i: usize = 0;
        while i < n
            invariant
                self.wf(),
                n == self.proposals.entries@.len(),
                i <= n,
                idx.len() == actions@.len(),
                forall|k: int| 0 <= k < idx.len() ==> 0 <= #[trigger] idx[k] < i,
                forall|k: int, l: int| 0 <= k < l < idx.len() ==> #[trigger] idx[k] < #[trigger] idx[l],
                forall|k: int|
                    0 <= k < idx.len() ==> !known_decided(
                        self.decided,
                        self.proposals.entries@[#[trigger] idx[k]].0,
                    ) && starts_commander(
                        actions@[k],
                        PValueView {
                            slot: self.proposals.entries@[idx[k]].0,
                            ballot: self.ballot,
                            command: self.proposals.entries@[idx[k]].1@,
                        },
                    ),
                forall|j: int|
                    0 <= j < i && !known_decided(self.decided, #[trigger] self.proposals.entries@[j].0)
                        ==> exists|k: int| 0 <= k < idx.len() && idx[k] == j,
            decreases n - i,
        {
            let slot = self.proposals.entries[i].0;
            let known = match self.decided {
                Some(d) => slot <= d,
                None => false,
            };
            let ghost before = actions@;
            let ghost old_idx = idx;
            if !known {
                let command = self.proposals.entries[i].1.clone();
                actions.push(Action::StartCommander(PValue { slot, ballot: self.ballot, command }));
                proof {
                    idx = idx.push(i as int);
                    assert forall|k: int| 0 <= k < idx.len() implies !known_decided(
                        self.decided,
                        self.proposals.entries@[#[trigger] idx[k]].0,
                    ) && starts_commander(
                        actions@[k],
                        PValueView {
                            slot: self.proposals.entries@[idx[k]].0,
                            ballot: self.ballot,
                            command: self.proposals.entries@[idx[k]].1@,
                        },
                    ) by {
                        if k < before.len() {
                            assert(actions@[k] == before[k]);
                            assert(idx[k] == old_idx[k]);
                        }
                    }
                }
            }
            proof {
                assert forall|j: int|
                    0 <= j < i + 1 && !known_decided(
                        self.decided,
                        #[trigger] self.proposals.entries@[j].0,
                    ) implies exists|k: int| 0 <= k < idx.len() && idx[k] == j by {
                    if j < i {
                        let k = choose|k: int| 0 <= k < old_idx.len() && old_idx[k] == j;
                        assert(idx[k] == j);
                    } else {
                        assert(idx[idx.len() - 1] == j);
                    }
                }
            }
            i += 1;
        }
        proof {
            let t = self.proposals;
            t.lemma_len();
            assert forall|k: int| 0 <= k < actions@.len() implies self.commands_proposal(
                #[trigger] actions@[k],
            ) by {
                t.lemma_entry(idx[k]);
                let s = t.entries@[idx[k]].0;
                assert(t@.contains_key(s));
            }
            assert forall|s: u64|
                #![trigger t@[s]]
                t@.contains_key(s) && !known_decided(self.decided, s) implies exists|k: int|
                    0 <= k < actions@.len() && starts_commander(
                        actions@[k],
                        PValueView { slot: s, ballot: self.ballot, command: t@[s] },
                    ) by {
                t.lemma_lookup(s);
                let j = t.index_of(s);
                assert(!known_decided(self.decided, t.entries@[j].0));
                let k = choose|k: int| 0 <= k < idx.len() && idx[k] == j;
                assert(starts_commander(
                    actions@[k],
                    PValueView { slot: s, ballot: self.ballot, command: t@[s] },
                ));
            }
            // Distinct positions give at most as many actions as entries.
            assert forall|k: int| 0 <= k < idx.len() implies idx[k] >= k by {
                lemma_strictly_increasing_at_least(idx, k);
            }
            if idx.len() > 0 {
                assert(idx[idx.len() - 1] >= idx.len() - 1);
            }
        }
        actions
    }

    /// The record to persist.
    pub fn record(&self) -> (r: LeaderRecord)
        requires
            self.wf(),
        ensures
            r.ballot == self.ballot,
            r.decided == self.decided,
            r.proposals@.len() == self.proposals.entries@.len(),
            forall|i: int|
                0 <= i < r.proposals@.len() ==> (#[trigger] r.proposals@[i])@ == (ProposalView {
                    slot: self.proposals.entries@[i].0,
                    command: self.proposals.entries@[i].1@,
                }),
    {
        LeaderRecord {
            ballot: self.ballot,
            proposals: self.proposals.to_proposals(),
            decided: self.decided,
        }
    }

    /// Marks slot `s` decided: the highest decided slot rises to `s` if it is
    /// greater, and the proposal for `s` is dropped.
    pub fn respond_decide(&mut self, s: u64)
        requires
            old(self).wf(),
        ensures
            final(self).wf(),
            final(self).id == old(self).id,
            final(self).count == old(self).count,
            final(self).ballot == old(self).ballot,
            final(self).active == old(self).active,
            final(self).backoff == old(self).backoff,
            final(self).decided == Some(
                match old(self).decided {
                    Some(d) => if s >= d { s } else { d },
                    None => s,
                },
            ),
            final(self).proposals@ == old(self).proposals@.remove(s),
    {
        self.decided = match self.decided {
            Some(d) => if s >= d {
                Some(s)
            } else {
                Some(d)
            },
            None => Some(s),
        };
        self.proposals.remove(s);
    }
}

} // verus!
