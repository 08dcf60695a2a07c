//! What the closure of the priorities is: every transition gets priority over the
//! transitions that a chain of priorities leads to, and the closure fails exactly if a
//! chain of priorities leads from a transition back to itself.
use vstd::prelude::*;
use crate::ids::TransitionId;
use crate::timed::net::{lemma_with_id, with_id, NetView};
use crate::timed::priorities::{
    all_done, closed, inherited, lemma_pending_update, lemma_pending_zero, pass, passes, pending,
    visit, with_priorities, without_priorities,
};

verus! {

/// The transition `a` of the net has priority over `b`.
pub open spec fn over(net: NetView, a: TransitionId, b: TransitionId) -> bool {
    net.valid_transition(a) && net.transitions[a.0 as int].priorities.contains(b)
}

/// Each transition of `chain` has priority over the next one, and there are at least two.
pub open spec fn linked(net: NetView, chain: Seq<TransitionId>) -> bool {
    &&& chain.len() >= 2
    &&& forall|i: int| 0 <= i < chain.len() - 1 ==> over(net, #[trigger] chain[i], chain[i + 1])
}

/// A chain of priorities leads from `a` to `b`.
pub open spec fn follows(net: NetView, a: TransitionId, b: TransitionId) -> bool {
    exists|chain: Seq<TransitionId>| #[trigger]
        linked(net, chain) && chain[0] == a && chain.last() == b
}

/// A chain of priorities leads from some transition back to itself.
pub open spec fn cyclic(net: NetView) -> bool {
    exists|a: TransitionId| follows(net, a, a)
}

/// The chain that shows that `b` follows from `a`.
pub open spec fn chain_of(net: NetView, a: TransitionId, b: TransitionId) -> Seq<TransitionId> {
    choose|chain: Seq<TransitionId>| #[trigger]
        linked(net, chain) && chain[0] == a && chain.last() == b
}

/// A priority is a chain.
pub proof fn lemma_follows_one(net: NetView, a: TransitionId, b: TransitionId)
    requires
        over(net, a, b),
    ensures
        follows(net, a, b),
{
    let chain = seq![a, b];
    assert(linked(net, chain));
    assert(chain[0] == a && chain.last() == b);
}

/// A priority and a chain make a chain.
pub proof fn lemma_follows_step(net: NetView, a: TransitionId, c: TransitionId, b: TransitionId)
    requires
        over(net, a, c),
        follows(net, c, b),
    ensures
        follows(net, a, b),
{
    let tail = chain_of(net, c, b);
    let chain = seq![a] + tail;
    assert forall|i: int| 0 <= i < chain.len() - 1 implies over(net, #[trigger] chain[i], chain[i + 1]) by {
        if i > 0 {
            assert(chain[i] == tail[i - 1] && chain[i + 1] == tail[i]);
            assert(over(net, tail[i - 1], tail[i - 1 + 1]));
        } else {
            assert(chain[1] == tail[0]);
        }
    }
    assert(linked(net, chain));
    assert(chain[0] == a && chain.last() == tail.last());
}

/// A chain begins with a priority: it is a priority, or a priority and a chain.
pub proof fn lemma_follows_first(net: NetView, a: TransitionId, b: TransitionId)
    requires
        follows(net, a, b),
    ensures
        over(net, a, b) || exists|c: TransitionId| over(net, a, c) && #[trigger] follows(net, c, b),
{
    let chain = chain_of(net, a, b);
    assert(over(net, chain[0int], chain[0int + 1]));
    if chain.len() > 2 {
        let tail = chain.drop_first();
        assert forall|i: int| 0 <= i < tail.len() - 1 implies over(net, #[trigger] tail[i], tail[i + 1]) by {
            assert(tail[i] == chain[i + 1] && tail[i + 1] == chain[i + 1 + 1]);
            assert(over(net, chain[i + 1], chain[i + 1 + 1]));
        }
        assert(linked(net, tail));
        assert(tail[0] == chain[1] && tail.last() == b);
        assert(follows(net, chain[1], b));
    }
}

/// A chain and a priority make a chain.
pub proof fn lemma_follows_then(net: NetView, a: TransitionId, b: TransitionId, c: TransitionId)
    requires
        follows(net, a, b),
        over(net, b, c),
    ensures
        follows(net, a, c),
{
    let head = chain_of(net, a, b);
    let chain = head.push(c);
    assert forall|i: int| 0 <= i < chain.len() - 1 implies over(net, #[trigger] chain[i], chain[i + 1]) by {
        if i < head.len() - 1 {
            assert(chain[i] == head[i] && chain[i + 1] == head[i + 1]);
            assert(over(net, head[i], head[i + 1]));
        } else {
            assert(chain[i] == head.last());
        }
    }
    assert(linked(net, chain));
    assert(chain[0] == a && chain.last() == c);
}

/// On a chain that leads from a transition back to itself, the transition has priority
/// over one that lies on such a chain too.
pub proof fn lemma_cycle_next(net: NetView, a: TransitionId) -> (c: TransitionId)
    requires
        follows(net, a, a),
    ensures
        over(net, a, c),
        follows(net, c, c),
{
    lemma_follows_first(net, a, a);
    if over(net, a, a) {
        lemma_follows_one(net, a, a);
        a
    } else {
        let c = choose|c: TransitionId| over(net, a, c) && #[trigger] follows(net, c, a);
        lemma_follows_then(net, c, a, c);
        c
    }
}

/// The priorities of the first `n` of `ids` are those of each of them.
proof fn lemma_inherited_members(net: NetView, ids: Seq<TransitionId>, n: nat, y: TransitionId)
    requires
        n <= ids.len(),
    ensures
        inherited(net, ids, n).contains(y) <==> exists|j: int|
            0 <= j < n && (#[trigger] net.transitions[ids[j].0 as int]).priorities.contains(y),
    decreases n,
{
    if n > 0 {
        lemma_inherited_members(net, ids, (n - 1) as nat, y);
        let before = inherited(net, ids, (n - 1) as nat);
        let last = net.transitions[ids[n - 1].0 as int].priorities;
        let all = inherited(net, ids, n);
        assert(all == before + last);
        if all.contains(y) {
            let x = choose|x: int| 0 <= x < all.len() && all[x] == y;
            if x < before.len() {
                assert(before[x] == y);
                assert(before.contains(y));
                let j = choose|j: int|
                    0 <= j < n - 1 && (#[trigger] net.transitions[ids[j].0 as int]).priorities.contains(
                        y,
                    );
                assert(0 <= j < n && net.transitions[ids[j].0 as int].priorities.contains(y));
            } else {
                assert(last[x - before.len()] == y);
                assert(net.transitions[ids[n - 1].0 as int].priorities.contains(y));
            }
        }
        if exists|j: int|
            0 <= j < n && (#[trigger] net.transitions[ids[j].0 as int]).priorities.contains(y) {
            let j = choose|j: int|
                0 <= j < n && (#[trigger] net.transitions[ids[j].0 as int]).priorities.contains(y);
            if j < n - 1 {
                assert(before.contains(y));
                let x = choose|x: int| 0 <= x < before.len() && before[x] == y;
                assert(all[x] == y);
            } else {
                let x = choose|x: int| 0 <= x < last.len() && last[x] == y;
                assert(all[before.len() + x] == y);
            }
        }
    }
}

/// What a transition has priority over after it got priority over the first `n` of
/// `ids` as well: what it had and those; the other transitions have what they had.
proof fn lemma_with_priorities_members(
    net: NetView,
    tr: TransitionId,
    ids: Seq<TransitionId>,
    n: nat,
)
    requires
        net.wf(),
        net.valid_transition(tr),
        n <= ids.len(),
        forall|j: int| 0 <= j < ids.len() ==> net.valid_transition(#[trigger] ids[j]),
    ensures
        with_priorities(net, tr, ids, n).wf(),
        with_priorities(net, tr, ids, n).transitions.len() == net.transitions.len(),
        forall|a: int|
            0 <= a < net.transitions.len() && a != tr.0 ==> #[trigger] with_priorities(
                net,
                tr,
                ids,
                n,
            ).transitions[a] == net.transitions[a],
        forall|y: TransitionId|
            #[trigger] with_priorities(net, tr, ids, n).transitions[tr.0 as int].priorities.contains(
                y,
            ) <==> net.transitions[tr.0 as int].priorities.contains(y) || exists|j: int|
                0 <= j < n && #[trigger] ids[j] == y,
    decreases n,
{
    if n > 0 {
        lemma_with_priorities_members(net, tr, ids, (n - 1) as nat);
        let before = with_priorities(net, tr, ids, (n - 1) as nat);
        let x = ids[n - 1];
        assert(net.valid_transition(x));
        before.lemma_add_priority(tr, x);
        assert(before.transition_wf(tr.0 as int));
        let had = before.transitions[tr.0 as int].priorities;
        lemma_with_id(had, x);
        let r = with_priorities(net, tr, ids, n);
        assert(r.transitions[tr.0 as int].priorities == with_id(had, x));
        assert forall|y: TransitionId| #[trigger]
            r.transitions[tr.0 as int].priorities.contains(y) <==> net.transitions[tr.0 as int].priorities.contains(
                y,
            ) || exists|j: int| 0 <= j < n && #[trigger] ids[j] == y by {
            let lhs = r.transitions[tr.0 as int].priorities.contains(y);
            let old_has = net.transitions[tr.0 as int].priorities.contains(y);
            let among = exists|j: int| 0 <= j < n && #[trigger] ids[j] == y;
            let among_before = exists|j: int| 0 <= j < n - 1 && #[trigger] ids[j] == y;
            assert(lhs == (had.contains(y) || y == x));
            assert(had.contains(y) == (old_has || among_before));
            if among_before {
                let j = choose|j: int| 0 <= j < n - 1 && #[trigger] ids[j] == y;
                assert(0 <= j < n && ids[j] == y);
            }
            if y == x {
                assert(0 <= n - 1 < n && ids[n - 1] == y);
            }
            if among {
                let j = choose|j: int| 0 <= j < n && #[trigger] ids[j] == y;
                if j < n - 1 {
                    assert(0 <= j < n - 1 && ids[j] == y);
                } else {
                    assert(y == x);
                }
            }
        }
    }
}

/// What holds while the closure is computed, of the net `first` at the start, the net
/// `now` and the transitions that are done: the priorities of `now` follow from those
/// of `first`; a transition that is not done has the priorities it had; one that is done
/// has priority over all that follows from it, each of which is done too; and no
/// transition on a chain that leads back to itself is done.
pub open spec fn closing(first: NetView, now: NetView, done: Seq<bool>) -> bool {
    &&& first.wf()
    &&& now.wf()
    &&& now.transitions.len() == first.transitions.len()
    &&& done.len() == first.transitions.len()
    &&& forall|a: TransitionId, b: TransitionId| #[trigger] over(now, a, b) ==> follows(first, a, b)
    &&& forall|a: int|
        0 <= a < done.len() && !done[a] ==> (#[trigger] now.transitions[a]).priorities
            == first.transitions[a].priorities
    &&& forall|a: TransitionId, b: TransitionId|
        now.valid_transition(a) && done[a.0 as int] && #[trigger] follows(first, a, b) ==> over(
            now,
            a,
            b,
        )
    &&& forall|a: TransitionId, b: TransitionId|
        done[a.0 as int] && #[trigger] over(now, a, b) ==> done[b.0 as int]
    &&& forall|a: TransitionId|
        now.valid_transition(a) && #[trigger] follows(first, a, a) ==> !done[a.0 as int]
}

/// A transition of a well-formed net has priority over transitions of the net only.
proof fn lemma_over_valid(net: NetView, a: TransitionId, b: TransitionId)
    requires
        net.wf(),
        over(net, a, b),
    ensures
        net.valid_transition(b),
{
    assert(net.transition_wf(a.0 as int));
    let p = net.transitions[a.0 as int].priorities;
    let j = choose|j: int| 0 <= j < p.len() && p[j] == b;
    assert(net.valid_transition(p[j]));
}

/// One transition of a pass keeps what holds while the closure is computed.
proof fn lemma_visit(first: NetView, now: NetView, done: Seq<bool>, i: int)
    requires
        closing(first, now, done),
        0 <= i < done.len(),
    ensures
        closing(first, visit(now, done, i).0, visit(now, done, i).1),
{
    let own = now.transitions[i].priorities;
    let me = TransitionId(i as usize);
    assert(me.0 as int == i);
    if !done[i] && all_done(done, own) {
        let more = inherited(now, own, own.len());
        let next = with_priorities(now, me, more, more.len());
        let then = done.update(i, true);
        assert(now.transition_wf(i));
        assert(own == first.transitions[i].priorities);
        assert forall|j: int| 0 <= j < more.len() implies now.valid_transition(#[trigger] more[j]) by {
            let y = more[j];
            assert(more.contains(y));
            lemma_inherited_members(now, own, own.len(), y);
            let c = choose|c: int|
                0 <= c < own.len() && (#[trigger] now.transitions[own[c].0 as int]).priorities.contains(
                    y,
                );
            assert(now.valid_transition(own[c]));
            lemma_over_valid(now, own[c], y);
        }
        lemma_with_priorities_members(now, me, more, more.len());
        // what the transition has priority over now
        assert forall|y: TransitionId| #[trigger] over(next, me, y) <==> own.contains(y) || exists|
            c: TransitionId,
        | own.contains(c) && #[trigger] over(now, c, y) by {
            lemma_inherited_members(now, own, own.len(), y);
            if more.contains(y) {
                let c = choose|c: int|
                    0 <= c < own.len() && (#[trigger] now.transitions[own[c].0 as int]).priorities.contains(
                        y,
                    );
                assert(now.valid_transition(own[c]));
                assert(own.contains(own[c]) && over(now, own[c], y));
            }
            if exists|j: int| 0 <= j < more.len() && #[trigger] more[j] == y {
                let j = choose|j: int| 0 <= j < more.len() && #[trigger] more[j] == y;
                assert(more.contains(y));
            }
            if exists|c: TransitionId| own.contains(c) && #[trigger] over(now, c, y) {
                let c = choose|c: TransitionId| own.contains(c) && #[trigger] over(now, c, y);
                let x = choose|x: int| 0 <= x < own.len() && own[x] == c;
                assert(now.transitions[own[x].0 as int].priorities.contains(y));
                assert(more.contains(y));
                let j = choose|j: int| 0 <= j < more.len() && more[j] == y;
                assert(more[j] == y);
            }
        }
        assert forall|c: TransitionId| own.contains(c) implies now.valid_transition(c) && done[c.0 as int]
            && c != me && over(first, me, c) by {
            let x = choose|x: int| 0 <= x < own.len() && own[x] == c;
            assert(0 <= own[x].0 < done.len() && done[own[x].0 as int]);
        }
        assert forall|a: TransitionId, b: TransitionId| #[trigger] over(next, a, b) implies follows(
            first,
            a,
            b,
        ) by {
            if a == me {
                if own.contains(b) {
                    lemma_follows_one(first, me, b);
                } else {
                    let c = choose|c: TransitionId| own.contains(c) && #[trigger] over(now, c, b);
                    assert(follows(first, c, b));
                    lemma_follows_step(first, me, c, b);
                }
            } else {
                assert(next.transitions[a.0 as int] == now.transitions[a.0 as int]);
                assert(over(now, a, b));
            }
        }
        assert forall|a: int| 0 <= a < then.len() && !then[a] implies (
        #[trigger] next.transitions[a]).priorities == first.transitions[a].priorities by {
            assert(next.transitions[a] == now.transitions[a]);
        }
        assert forall|a: TransitionId, b: TransitionId|
            next.valid_transition(a) && then[a.0 as int] && #[trigger] follows(
                first,
                a,
                b,
            ) implies over(next, a, b) by {
            if a == me {
                lemma_follows_first(first, me, b);
                if !over(first, me, b) {
                    let c = choose|c: TransitionId|
                        over(first, me, c) && #[trigger] follows(first, c, b);
                    assert(own.contains(c));
                    assert(over(now, c, b));
                } else {
                    assert(own.contains(b));
                }
            } else {
                assert(over(now, a, b));
                assert(next.transitions[a.0 as int] == now.transitions[a.0 as int]);
            }
        }
        assert forall|a: TransitionId, b: TransitionId|
            then[a.0 as int] && #[trigger] over(next, a, b) implies then[b.0 as int] by {
            lemma_over_valid(next, a, b);
            if a == me {
                if own.contains(b) {
                    assert(done[b.0 as int]);
                } else {
                    let c = choose|c: TransitionId| own.contains(c) && #[trigger] over(now, c, b);
                    assert(done[c.0 as int]);
                    assert(done[b.0 as int]);
                }
            } else {
                assert(a.0 as int != i);
                assert(next.transitions[a.0 as int] == now.transitions[a.0 as int]);
                assert(over(now, a, b));
                assert(done[a.0 as int]);
                assert(done[b.0 as int]);
            }
        }
        assert forall|a: TransitionId|
            next.valid_transition(a) && #[trigger] follows(first, a, a) implies !then[a.0 as int] by {
            if a == me {
                let c = lemma_cycle_next(first, me);
                assert(own.contains(c));
                assert(now.valid_transition(c) && follows(first, c, c));
            }
        }
    }
}

/// A pass keeps what holds while the closure is computed, and leaves no more
/// transitions not done than there were. If it leaves as many, it has changed nothing,
/// and each transition that is not done has a priority that is not done either.
proof fn lemma_pass(first: NetView, now: NetView, done: Seq<bool>, n: nat)
    requires
        closing(first, now, done),
        n <= done.len(),
    ensures
        closing(first, pass(now, done, n).0, pass(now, done, n).1),
        pending(pass(now, done, n).1) <= pending(done),
        pending(pass(now, done, n).1) == pending(done) ==> pass(now, done, n) == (now, done)
            && forall|i: int|
            0 <= i < n && !done[i] ==> !all_done(done, (#[trigger] now.transitions[i]).priorities),
    decreases n,
{
    if n > 0 {
        lemma_pass(first, now, done, (n - 1) as nat);
        let before = pass(now, done, (n - 1) as nat);
        lemma_visit(first, before.0, before.1, n - 1);
        let own = before.0.transitions[n - 1].priorities;
        if !before.1[n - 1] && all_done(before.1, own) {
            lemma_pending_update(before.1, n - 1);
        }
    }
}

/// Among more numbers than `n`, all below `n`, two are the same.
proof fn lemma_two_alike(s: Seq<int>, n: nat) -> (r: (int, int))
    requires
        s.len() > n,
        forall|i: int| 0 <= i < s.len() ==> 0 <= #[trigger] s[i] < n,
    ensures
        0 <= r.0 < r.1 < s.len(),
        s[r.0] == s[r.1],
{
    if s.no_duplicates() {
        s.unique_seq_to_set();
        vstd::set_lib::lemma_int_range(0, n as int);
        let all = vstd::set_lib::set_int_range(0, n as int);
        assert(s.to_set().subset_of(all)) by {
            assert forall|x: int| s.to_set().contains(x) implies all.contains(x) by {
                let i = choose|i: int| 0 <= i < s.len() && s[i] == x;
                assert(0 <= s[i] < n);
            }
        }
        vstd::set_lib::lemma_len_subset(s.to_set(), all);
        assert(false);
    }
    let (i, j) = choose|i: int, j: int|
        0 <= i < s.len() && 0 <= j < s.len() && i != j && s[i] == s[j];
    if i < j {
        (i, j)
    } else {
        (j, i)
    }
}

/// A priority of `a` that is not done.
pub open spec fn waits_for(now: NetView, done: Seq<bool>, a: TransitionId) -> TransitionId {
    choose|b: TransitionId| over(now, a, b) && !done[b.0 as int]
}

/// The transition that `k` steps lead to from `a`, each step from a transition to a
/// priority of it that is not done.
pub open spec fn waited(now: NetView, done: Seq<bool>, a: TransitionId, k: nat) -> TransitionId
    decreases k,
{
    if k == 0 {
        a
    } else {
        waits_for(now, done, waited(now, done, a, (k - 1) as nat))
    }
}

/// Where every transition that is not done has a priority that is not done, the steps
/// from one that is not done lead from one that is not done to the next.
proof fn lemma_waited(first: NetView, now: NetView, done: Seq<bool>, a: TransitionId, k: nat)
    requires
        closing(first, now, done),
        now.valid_transition(a),
        !done[a.0 as int],
        forall|i: int|
            0 <= i < done.len() && !done[i] ==> !all_done(done, (#[trigger] now.transitions[i]).priorities),
    ensures
        now.valid_transition(waited(now, done, a, k)),
        !done[waited(now, done, a, k).0 as int],
        now.valid_transition(waited(now, done, a, k + 1)),
        !done[waited(now, done, a, k + 1).0 as int],
        over(first, waited(now, done, a, k), waited(now, done, a, k + 1)),
    decreases k,
{
    if k > 0 {
        lemma_waited(first, now, done, a, (k - 1) as nat);
    }
    let here = waited(now, done, a, k);
    let own = now.transitions[here.0 as int].priorities;
    assert(!all_done(done, own));
    let j = choose|j: int|
        0 <= j < own.len() && !(0 <= (#[trigger] own[j]).0 < done.len() && done[own[j].0 as int]);
    assert(now.transition_wf(here.0 as int));
    assert(now.valid_transition(own[j]));
    assert(over(now, here, own[j]) && !done[own[j].0 as int]);
    let next = waits_for(now, done, here);
    assert(over(now, here, next) && !done[next.0 as int]);
    lemma_over_valid(now, here, next);
    assert(waited(now, done, a, k + 1) == next);
    assert(own == first.transitions[here.0 as int].priorities);
}

/// Where every transition that is not done has a priority that is not done, and one is
/// not done, a chain of priorities leads from some transition back to itself.
proof fn lemma_stuck(first: NetView, now: NetView, done: Seq<bool>)
    requires
        closing(first, now, done),
        pending(done) > 0,
        forall|i: int|
            0 <= i < done.len() && !done[i] ==> !all_done(done, (#[trigger] now.transitions[i]).priorities),
    ensures
        cyclic(first),
{
    lemma_pending_zero(done);
    let i = choose|i: int| 0 <= i < done.len() && !done[i];
    let a = TransitionId(i as usize);
    let n = done.len();
    let steps = Seq::new(n + 1, |k: int| waited(now, done, a, k as nat).0 as int);
    assert forall|k: int| 0 <= k < steps.len() implies 0 <= #[trigger] steps[k] < n by {
        lemma_waited(first, now, done, a, k as nat);
    }
    let (x, y) = lemma_two_alike(steps, n);
    let from = waited(now, done, a, x as nat);
    let chain = Seq::new((y - x + 1) as nat, |k: int| waited(now, done, a, (x + k) as nat));
    assert forall|k: int| 0 <= k < chain.len() - 1 implies over(first, #[trigger] chain[k], chain[k + 1]) by {
        lemma_waited(first, now, done, a, (x + k) as nat);
    }
    assert(linked(first, chain));
    assert(chain[0] == from);
    assert(chain.last() == waited(now, done, a, y as nat));
    assert(waited(now, done, a, y as nat).0 == from.0);
    assert(chain.last() == from);
    assert(follows(first, from, from));
}

/// The passes of the closure end as the chains of priorities say: if they end well, each
/// transition has priority over exactly what follows from it, and no chain leads from a
/// transition back to itself; if they fail, such a chain there is.
proof fn lemma_passes(first: NetView, now: NetView, done: Seq<bool>)
    requires
        closing(first, now, done),
    ensures
        match passes(now, done) {
            Ok(end) => {
                &&& !cyclic(first)
                &&& end.transitions.len() == first.transitions.len()
                &&& forall|a: TransitionId, b: TransitionId| #[trigger]
                    over(end, a, b) <==> follows(first, a, b)
            },
            Err(_) => cyclic(first),
        },
    decreases pending(done),
{
    if pending(done) == 0 {
        lemma_pending_zero(done);
        assert forall|a: TransitionId, b: TransitionId| #[trigger]
            over(now, a, b) <==> follows(first, a, b) by {
            if follows(first, a, b) {
                let chain = chain_of(first, a, b);
                assert(over(first, chain[0int], chain[0int + 1]));
                assert(now.valid_transition(a));
            }
        }
        if cyclic(first) {
            let a = choose|a: TransitionId| follows(first, a, a);
            let chain = chain_of(first, a, a);
            assert(over(first, chain[0int], chain[0int + 1]));
            assert(now.valid_transition(a));
        }
    } else {
        lemma_pass(first, now, done, now.transitions.len());
        let after = pass(now, done, now.transitions.len());
        if pending(after.1) < pending(done) {
            lemma_passes(first, after.0, after.1);
        } else {
            lemma_stuck(first, now, done);
        }
    }
}

/// What the closure of the priorities is. For a well-formed net it ends well exactly if
/// no chain of priorities leads from a transition back to itself, and then each
/// transition has priority over exactly the transitions that a chain of priorities of the
/// net leads to from it.
pub proof fn lemma_closed(net: NetView)
    requires
        net.wf(),
    ensures
        closed(net) is Ok <==> !cyclic(net),
        closed(net) is Ok ==> forall|a: TransitionId, b: TransitionId| #[trigger]
            over(closed(net)->Ok_0, a, b) <==> follows(net, a, b),
        closed(net) is Err ==> closed(net) == Err::<NetView, _>(
            crate::errors::NetErrorView::CyclicPriorities,
        ),
{
    let done = without_priorities(net);
    assert forall|a: TransitionId, b: TransitionId| #[trigger] over(net, a, b) implies follows(
        net,
        a,
        b,
    ) by {
        lemma_follows_one(net, a, b);
    }
    assert forall|a: TransitionId, b: TransitionId|
        net.valid_transition(a) && done[a.0 as int] && #[trigger] follows(net, a, b) implies over(
        net,
        a,
        b,
    ) by {
        let chain = chain_of(net, a, b);
        assert(over(net, chain[0int], chain[0int + 1]));
        assert(net.transitions[a.0 as int].priorities.contains(chain[1]));
    }
    assert forall|a: TransitionId, b: TransitionId| done[a.0 as int] && #[trigger] over(net, a, b) implies done[b.0 as int] by {
        assert(net.transitions[a.0 as int].priorities.contains(b));
    }
    assert forall|a: TransitionId| net.valid_transition(a) && #[trigger] follows(net, a, a) implies !done[a.0 as int] by {
        let chain = chain_of(net, a, a);
        assert(over(net, chain[0int], chain[0int + 1]));
        assert(net.transitions[a.0 as int].priorities.contains(chain[1]));
    }
    assert(closing(net, net, done));
    lemma_passes(net, net, done);
    lemma_passes_error(net, done);
}

/// The passes of the closure fail in one way only.
proof fn lemma_passes_error(now: NetView, done: Seq<bool>)
    ensures
        passes(now, done) is Err ==> passes(now, done) == Err::<NetView, _>(
            crate::errors::NetErrorView::CyclicPriorities,
        ),
    decreases pending(done),
{
    if pending(done) != 0 {
        let after = pass(now, done, now.transitions.len());
        if pending(after.1) < pending(done) {
            lemma_passes_error(after.0, after.1);
        }
    }
}

} // verus!
