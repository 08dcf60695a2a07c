//! The transitive closure of the priorities of a timed net.
use vstd::prelude::*;
use crate::errors::{NetError, NetErrorView};
use crate::ids::TransitionId;
use crate::timed::closure::{cyclic, follows, lemma_closed, over};
use crate::timed::net::{Net, NetView};

verus! {

/// How many transitions are not done.
pub open spec fn pending(done: Seq<bool>) -> nat
    decreases done.len(),
{
    if done.len() == 0 {
        0
    } else if done.last() {
        pending(done.drop_last())
    } else {
        pending(done.drop_last()) + 1
    }
}

/// Every transition of `ids` is done.
pub open spec fn all_done(done: Seq<bool>, ids: Seq<TransitionId>) -> bool {
    forall|j: int| 0 <= j < ids.len() ==> 0 <= (#[trigger] ids[j]).0 < done.len() && done[ids[j].0 as int]
}

/// The priorities of the first `n` of `ids`, one list behind the other.
pub open spec fn inherited(net: NetView, ids: Seq<TransitionId>, n: nat) -> Seq<TransitionId>
    decreases n,
{
    if n == 0 {
        Seq::empty()
    } else {
        inherited(net, ids, (n - 1) as nat) + net.transitions[ids[n - 1].0 as int].priorities
    }
}

/// The net in which `tr` has priority over the first `n` of `ids` as well.
pub open spec fn with_priorities(net: NetView, tr: TransitionId, ids: Seq<TransitionId>, n: nat) -> NetView
    decreases n,
{
    if n == 0 {
        net
    } else {
        with_priorities(net, tr, ids, (n - 1) as nat).add_priority(tr, ids[n - 1])
    }
}

/// One transition of a pass: if it is not done and all its priorities are, it is done,
/// and it gets the priorities of its priorities.
pub open spec fn visit(net: NetView, done: Seq<bool>, i: int) -> (NetView, Seq<bool>) {
    let own = net.transitions[i].priorities;
    if !done[i] && all_done(done, own) {
        let more = inherited(net, own, own.len());
        (with_priorities(net, TransitionId(i as usize), more, more.len()), done.update(i, true))
    } else {
        (net, done)
    }
}

/// A pass over the first `n` transitions, in increasing order.
pub open spec fn pass(net: NetView, done: Seq<bool>, n: nat) -> (NetView, Seq<bool>)
    decreases n,
{
    if n == 0 {
        (net, done)
    } else {
        let before = pass(net, done, (n - 1) as nat);
        visit(before.0, before.1, n - 1)
    }
}

/// Pass after pass, until every transition is done or a pass gets none done; in that
/// case the priorities form a cycle.
pub open spec fn passes(net: NetView, done: Seq<bool>) -> Result<NetView, NetErrorView>
    decreases pending(done),
{
    if pending(done) == 0 {
        Ok(net)
    } else {
        let after = pass(net, done, net.transitions.len());
        if pending(after.1) < pending(done) {
            passes(after.0, after.1)
        } else {
            Err(NetErrorView::CyclicPriorities)
        }
    }
}

/// At the start the transitions without priorities are done.
pub open spec fn without_priorities(net: NetView) -> Seq<bool> {
    Seq::new(net.transitions.len(), |i: int| net.transitions[i].priorities.len() == 0)
}

/// The net with every priority that follows from its priorities, or `CyclicPriorities`.
pub open spec fn closed(net: NetView) -> Result<NetView, NetErrorView> {
    passes(net, without_priorities(net))
}

/// One more transition done is one less not done.
pub proof fn lemma_pending_update(done: Seq<bool>, i: int)
    requires
        0 <= i < done.len(),
        !done[i],
    ensures
        pending(done.update(i, true)) + 1 == pending(done),
    decreases done.len(),
{
    let n = done.len() - 1;
    if i == n {
        assert(done.update(i, true).drop_last() =~= done.drop_last());
    } else {
        lemma_pending_update(done.drop_last(), i);
        assert(done.update(i, true).drop_last() =~= done.drop_last().update(i, true));
    }
}

/// No transition is left not done exactly if every one is done.
pub proof fn lemma_pending_zero(done: Seq<bool>)
    ensures
        pending(done) == 0 <==> forall|i: int| 0 <= i < done.len() ==> done[i],
    decreases done.len(),
{
    if done.len() > 0 {
        lemma_pending_zero(done.drop_last());
        if pending(done) == 0 {
            assert forall|i: int| 0 <= i < done.len() implies done[i] by {
                if i < done.len() - 1 {
                    assert(done.drop_last()[i] == done[i]);
                }
            }
        } else {
            if forall|i: int| 0 <= i < done.len() ==> done[i] {
                assert forall|i: int| 0 <= i < done.drop_last().len() implies done.drop_last()[i] by {
                    assert(done.drop_last()[i] == done[i]);
                }
            }
        }
    }
}

/// More priorities of a transition over transitions of the net leave the net well formed
/// and its other transitions as they were.
pub proof fn lemma_with_priorities(net: NetView, tr: TransitionId, ids: Seq<TransitionId>, n: nat)
    requires
        net.wf(),
        net.valid_transition(tr),
        n <= ids.len(),
        forall|j: int| 0 <= j < ids.len() ==> net.valid_transition(#[trigger] ids[j]),
    ensures
        with_priorities(net, tr, ids, n).wf(),
        with_priorities(net, tr, ids, n).transitions.len() == net.transitions.len(),
        with_priorities(net, tr, ids, n).places == net.places,
    decreases n,
{
    if n > 0 {
        lemma_with_priorities(net, tr, ids, (n - 1) as nat);
        assert(net.valid_transition(ids[n - 1]));
        with_priorities(net, tr, ids, (n - 1) as nat).lemma_add_priority(tr, ids[n - 1]);
    }
}

impl Net {
    /// Whether every transition of `ids` is done.
    fn all_done(done: &Vec<bool>, ids: &Vec<TransitionId>) -> (b: bool)
        ensures
            b == all_done(done@, ids@),
    {
        let mut j: usize = 0;
        while j < ids.len()
            invariant
                j <= ids@.len(),
                forall|k: int| 0 <= k < j ==> 0 <= (#[trigger] ids@[k]).0 < done@.len() && done@[ids@[k].0 as int],
            decreases ids@.len() - j,
        {
            if ids[j].0 >= done.len() || !done[ids[j].0] {
                assert(!(0 <= ids@[j as int].0 < done@.len() && done@[ids@[j as int].0 as int]));
                return false;
            }
            j += 1;
        }
        true
    }

    /// The priorities of the priorities of the transition at `i`.
    fn inherited(&self, i: usize) -> (more: Vec<TransitionId>)
        requires
            self.wf(),
            i < self@.transitions.len(),
        ensures
            more@ == inherited(
                self@,
                self@.transitions[i as int].priorities,
                self@.transitions[i as int].priorities.len(),
            ),
            forall|j: int| 0 <= j < more@.len() ==> self@.valid_transition(#[trigger] more@[j]),
    {
        let ghost v = self@;
        let ghost own = v.transitions[i as int].priorities;
        proof {
            assert(v.transition_wf(i as int));
        }
        let mut more: Vec<TransitionId> = Vec::new();
        let n = self.transitions[i].priorities.len();
        let mut k: usize = 0;
        while k < n
            invariant
                k <= n,
                v == self@,
                v.wf(),
                i < v.transitions.len(),
                own == v.transitions[i as int].priorities,
                n == own.len(),
                more@ == inherited(v, own, k as nat),
                forall|j: int| 0 <= j < more@.len() ==> v.valid_transition(#[trigger] more@[j]),
                forall|j: int| 0 <= j < own.len() ==> v.valid_transition(#[trigger] own[j]),
            decreases n - k,
        {
            let sub = self.transitions[i].priorities[k];
            assert(v.valid_transition(own[k as int]));
            proof {
                assert(v.transition_wf(sub.0 as int));
            }
            let ghost start = more@;
            let m = self.transitions[sub.0].priorities.len();
            let mut j: usize = 0;
            while j < m
                invariant
                    j <= m,
                    v == self@,
                    v.valid_transition(sub),
                    m == v.transitions[sub.0 as int].priorities.len(),
                    more@ == start + v.transitions[sub.0 as int].priorities.take(j as int),
                    forall|x: int| 0 <= x < more@.len() ==> v.valid_transition(#[trigger] more@[x]),
                    forall|x: int|
                        0 <= x < v.transitions[sub.0 as int].priorities.len()
                            ==> v.valid_transition(
                            #[trigger] v.transitions[sub.0 as int].priorities[x],
                        ),
                decreases m - j,
            {
                let e = self.transitions[sub.0].priorities[j];
                assert(v.valid_transition(v.transitions[sub.0 as int].priorities[j as int]));
                more.push(e);
                proof {
                    let p = v.transitions[sub.0 as int].priorities;
                    assert(p.take(j + 1) =~= p.take(j as int).push(p[j as int]));
                    assert(more@ =~= start + p.take(j + 1));
                }
                j += 1;
            }
            proof {
                let p = v.transitions[sub.0 as int].priorities;
                assert(p.take(m as int) =~= p);
            }
            k += 1;
        }
        more
    }

    /// One pass over the transitions; returns whether one of them got done.
    fn pass(&mut self, done: &mut Vec<bool>) -> (changed: bool)
        requires
            old(self).wf(),
            old(done)@.len() == old(self)@.transitions.len(),
        ensures
            final(self).wf(),
            (final(self)@, final(done)@) == pass(
                old(self)@,
                old(done)@,
                old(self)@.transitions.len(),
            ),
            final(done)@.len() == old(done)@.len(),
            final(self)@.transitions.len() == old(self)@.transitions.len(),
            changed == (pending(final(done)@) < pending(old(done)@)),
            pending(final(done)@) <= pending(old(done)@),
    {
        let ghost v = self@;
        let ghost d0 = done@;
        let n = self.transitions.len();
        let mut changed = false;
        let mut i: usize = 0;
        while i < n
            invariant
                i <= n,
                n == v.transitions.len(),
                self.wf(),
                self@.transitions.len() == n,
                done@.len() == n,
                (self@, done@) == pass(v, d0, i as nat),
                changed == (pending(done@) < pending(d0)),
                pending(done@) <= pending(d0),
            decreases n - i,
        {
            let ghost before = self@;
            proof {
                assert(before.transition_wf(i as int));
            }
            if !done[i] && Self::all_done(done, &self.transitions[i].priorities) {
                let more = self.inherited(i);
                proof {
                    lemma_pending_update(done@, i as int);
                }
                done.set(i, true);
                changed = true;
                let mut k: usize = 0;
                while k < more.len()
                    invariant
                        k <= more@.len(),
                        i < n,
                        before.wf(),
                        before.transitions.len() == n,
                        self.wf(),
                        self@ == with_priorities(before, TransitionId(i), more@, k as nat),
                        forall|j: int|
                            0 <= j < more@.len() ==> before.valid_transition(#[trigger] more@[j]),
                    decreases more@.len() - k,
                {
                    proof {
                        lemma_with_priorities(before, TransitionId(i), more@, k as nat);
                        assert(before.valid_transition(more@[k as int]));
                    }
                    self.add_priority(TransitionId(i), more[k]);
                    k += 1;
                }
                proof {
                    lemma_with_priorities(before, TransitionId(i), more@, more@.len());
                }
            }
            i += 1;
        }
        changed
    }

    /// Gives every transition priority over all the transitions that its priorities have
    /// priority over, and so on: over exactly those that a chain of priorities leads to.
    ///
    /// If a chain of priorities leads from a transition back to itself, and only then, the
    /// result is `CyclicPriorities`.
    pub fn update_priorities(&mut self) -> (r: Result<(), NetError>)
        requires
            old(self).wf(),
        ensures
            final(self).wf(),
            match closed(old(self)@) {
                Ok(n) => r is Ok && final(self)@ == n,
                Err(e) => r is Err && r->Err_0@ == e,
            },
            r is Ok <==> !cyclic(old(self)@),
            r is Err ==> r == Err::<(), NetError>(NetError::CyclicPriorities),
            r is Ok ==> forall|a: TransitionId, b: TransitionId| #[trigger]
                over(final(self)@, a, b) <==> follows(old(self)@, a, b),
    {
        let ghost first = self@;
        let mut done: Vec<bool> = Vec::new();
        let n = self.transitions.len();
        let mut i: usize = 0;
        while i < n
            invariant
                i <= n,
                n == self@.transitions.len(),
                self@ == old(self)@,
                done@.len() == i,
                forall|j: int| 0 <= j < i ==> done@[j] == (self@.transitions[j].priorities.len() == 0),
            decreases n - i,
        {
            done.push(self.transitions[i].priorities.len() == 0);
            i += 1;
        }
        proof {
            assert(done@ =~= without_priorities(self@));
        }
        loop
            invariant
                self.wf(),
                first.wf(),
                first == old(self)@,
                done@.len() == self@.transitions.len(),
                passes(self@, done@) == closed(old(self)@),
            decreases pending(done@),
        {
            if Self::none_pending(&done) {
                proof {
                    lemma_closed(first);
                }
                return Ok(());
            }
            let changed = self.pass(&mut done);
            if !changed {
                proof {
                    lemma_closed(first);
                }
                return Err(NetError::CyclicPriorities);
            }
        }
    }

    /// Whether every transition is done.
    fn none_pending(done: &Vec<bool>) -> (b: bool)
        ensures
            b == (pending(done@) == 0),
    {
        let mut i: usize = 0;
        while i < done.len()
            invariant
                i <= done@.len(),
                forall|j: int| 0 <= j < i ==> done@[j],
            decreases done@.len() - i,
        {
            if !done[i] {
                proof {
                    lemma_pending_zero(done@);
                }
                return false;
            }
            i += 1;
        }
        proof {
            lemma_pending_zero(done@);
        }
        true
    }
}

} // verus!
