//! Tracks which acceptors have answered a scout or a commander.

use vstd::prelude::*;

verus! {

/// Number of `false` entries of `s`.
pub open spec fn count_false(s: Seq<bool>) -> nat
    decreases s.len(),
{
    if s.len() == 0 {
        0
    } else {
        count_false(s.drop_last()) + if s.last() {
            0nat
        } else {
            1nat
        }
    }
}

proof fn lemma_count_false_bound(s: Seq<bool>)
    ensures
        count_false(s) <= s.len(),
    decreases s.len(),
{
    if s.len() > 0 {
        lemma_count_false_bound(s.drop_last());
    }
}

proof fn lemma_count_false_update(s: Seq<bool>, i: int)
    requires
        0 <= i < s.len(),
        s[i],
    ensures
        count_false(s.update(i, false)) == count_false(s) + 1,
    decreases s.len(),
{
    let t = s.update(i, false);
    if i == s.len() - 1 {
        assert(t.drop_last() == s.drop_last());
    } else {
        lemma_count_false_update(s.drop_last(), i);
        assert(t.drop_last() == s.drop_last().update(i, false));
    }
}

/// The acceptors `0..count` that have answered so far.
pub struct Quorum {
    pub count: u64,
    /// `waiting[a]` holds while acceptor `a` has not answered.
    pub waiting: Vec<bool>,
    /// Number of acceptors that have not answered.
    pub remaining: u64,
}

impl Quorum {
    pub open spec fn wf(&self) -> bool {
        &&& self.waiting@.len() == self.count
        &&& self.count <= usize::MAX
        &&& self.remaining + self.answered() == self.count
    }

    /// The acceptors that have answered.
    pub open spec fn replied(&self) -> Set<u64> {
        Set::new(|a: u64| a < self.count && !self.waiting@[a as int])
    }

    /// How many acceptors have answered.
    pub open spec fn answered(&self) -> nat {
        count_false(self.waiting@)
    }

    /// Nobody has answered yet.
    pub fn new(count: u64) -> (r: Quorum)
        requires
            count <= usize::MAX,
        ensures
            r.wf(),
            r.count == count,
            r.replied() == Set::<u64>::empty(),
            r.answered() == 0,
    {
        let mut waiting: Vec<bool> = Vec::new();
        let mut i: u64 = 0;
        while i < count
            invariant
                i <= count,
                waiting@.len() == i,
                forall|j: int| 0 <= j < i ==> #[trigger] waiting@[j],
                count_false(waiting@) == 0,
            decreases count - i,
        {
            let ghost before = waiting@;
            waiting.push(true);
            assert(waiting@.drop_last() == before);
            i += 1;
        }
        let r = Quorum { count, waiting, remaining: count };
        assert(r.replied() =~= Set::<u64>::empty());
        r
    }

    /// Records an answer from acceptor `a`; ids outside `0..count` are
    /// ignored.
    pub fn mark(&mut self, a: u64)
        requires
            old(self).wf(),
        ensures
            final(self).wf(),
            final(self).count == old(self).count,
            final(self).replied() == if a < old(self).count {
                old(self).replied().insert(a)
            } else {
                old(self).replied()
            },
            final(self).answered() == if a < old(self).count && !old(self).replied().contains(a) {
                old(self).answered() + 1
            } else {
                old(self).answered()
            },
    {
        if a < self.count && self.waiting[a as usize] {
            proof {
                lemma_count_false_update(self.waiting@, a as int);
                lemma_count_false_bound(self.waiting@.update(a as int, false));
            }
            self.waiting.set(a as usize, false);
            self.remaining = self.remaining - 1;
            assert(self.replied() =~= old(self).replied().insert(a));
        } else if a < self.count {
            assert(old(self).replied().contains(a));
            assert(self.replied() =~= old(self).replied().insert(a));
        }
    }

    /// Whether a majority of the acceptors has answered.
    pub fn reached(&self) -> (r: bool)
        requires
            self.wf(),
            self.count > 0,
        ensures
            r == (2 * self.answered() > self.count),
    {
        self.remaining <= (self.count - 1) / 2
    }

    /// The acceptors that have not answered, in increasing order.
    pub fn pending(&self) -> (r: Vec<u64>)
        requires
            self.wf(),
        ensures
            forall|a: u64| r@.contains(a) <==> a < self.count && !self.replied().contains(a),
            forall|i: int, j: int| 0 <= i < j < r@.len() ==> #[trigger] r@[i] < #[trigger] r@[j],
    {
        let mut r: Vec<u64> = Vec::new();
        let mut i: u64 = 0;
        while i < self.count
            invariant
                self.wf(),
                i <= self.count,
                forall|a: u64| r@.contains(a) <==> a < i && !self.replied().contains(a),
                forall|k: int| 0 <= k < r@.len() ==> #[trigger] r@[k] < i,
                forall|k: int, j: int| 0 <= k < j < r@.len() ==> #[trigger] r@[k] < #[trigger] r@[j],
            decreases self.count - i,
        {
            let ghost before = r@;
            if self.waiting[i as usize] {
                r.push(i);
                proof {
                    assert(r@ == before.push(i));
                    assert forall|a: u64| r@.contains(a) <==> a < i + 1 && !self.replied().contains(a) by {
                        if r@.contains(a) && a != i {
                            let k = choose|k: int| 0 <= k < r@.len() && r@[k] == a;
                            assert(before[k] == a);
                        }
                        if a < i && !self.replied().contains(a) {
                            assert(before.contains(a));
                            let k = choose|k: int| 0 <= k < before.len() && before[k] == a;
                            assert(r@[k] == a);
                        }
                        if a == i {
                            assert(r@[before.len() as int] == a);
                        }
                    }
                }
            } else {
                proof {
                    assert(self.replied().contains(i));
                }
            }
            i += 1;
        }
        r
    }
}

} // verus!
